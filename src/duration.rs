use vstd::prelude::*;
use vstd::string::StrSliceExecFns;

use crate::text::same_text;

verus! {

/// Seconds in an hour, a day and a week.
pub const SECONDS_PER_HOUR: i64 = 3600;
pub const SECONDS_PER_DAY: i64 = 86400;
pub const SECONDS_PER_WEEK: i64 = 604800;

/// The largest count that can be read before it is certain that the duration would not
/// fit: any larger count, times the smallest unit, exceeds `i64::MAX`.
const COUNT_LIMIT: u64 = 2562047788015215;

pub open spec fn is_digit(c: char) -> bool {
    '0' <= c && c <= '9'
}

/// The number of decimal digits at the start of `s`.
pub open spec fn leading_digits(s: Seq<char>) -> nat
    decreases s.len(),
{
    if s.len() > 0 && is_digit(s[0]) {
        1 + leading_digits(s.drop_first())
    } else {
        0
    }
}

/// The value of a run of decimal digits.
pub open spec fn digits_value(s: Seq<char>) -> nat
    decreases s.len(),
{
    if s.len() == 0 {
        0
    } else {
        digits_value(s.drop_last()) * 10 + ((s.last() as u32) - ('0' as u32)) as nat
    }
}

/// Seconds in the unit that `u` names: `h`, `hour`, `hours`, `d`, `day`, `days`, `w`,
/// `week` or `weeks`.
pub open spec fn unit_seconds(u: Seq<char>) -> Option<int> {
    if u == "h"@ || u == "hour"@ || u == "hours"@ {
        Some(SECONDS_PER_HOUR as int)
    } else if u == "d"@ || u == "day"@ || u == "days"@ {
        Some(SECONDS_PER_DAY as int)
    } else if u == "w"@ || u == "week"@ || u == "weeks"@ {
        Some(SECONDS_PER_WEEK as int)
    } else {
        None
    }
}

/// What follows the count: the unit, after at most one space.
pub open spec fn unit_part(s: Seq<char>) -> Seq<char> {
    let rest = s.subrange(leading_digits(s) as int, s.len() as int);
    if rest.len() > 0 && rest[0] == ' ' {
        rest.drop_first()
    } else {
        rest
    }
}

/// The duration, in seconds, that a duration expression denotes: a decimal count, at most
/// one space, and a unit. `None` when `s` is not of that form, or when the duration does
/// not fit in an `i64`.
pub open spec fn duration_of(s: Seq<char>) -> Option<int> {
    let k = leading_digits(s);
    if k == 0 {
        None
    } else {
        match unit_seconds(unit_part(s)) {
            None => None,
            Some(u) => {
                let v = digits_value(s.subrange(0, k as int)) * u;
                if v <= i64::MAX {
                    Some(v)
                } else {
                    None
                }
            },
        }
    }
}

/// An optional duration in seconds, seen as an integer.
pub open spec fn seconds_of(o: Option<i64>) -> Option<int> {
    match o {
        Some(v) => Some(v as int),
        None => None,
    }
}

/// The leading digits are exactly the first `i` characters when those are digits and the
/// next one, if any, is not.
proof fn lemma_leading_digits(s: Seq<char>, i: int)
    requires
        0 <= i <= s.len(),
        forall|j: int| 0 <= j < i ==> is_digit(#[trigger] s[j]),
        i == s.len() || !is_digit(s[i]),
    ensures
        leading_digits(s) == i,
    decreases i,
{
    if i > 0 {
        let t = s.drop_first();
        assert forall|j: int| 0 <= j < i - 1 implies is_digit(#[trigger] t[j]) by {
            assert(t[j] == s[j + 1]);
        }
        if i < s.len() {
            assert(t[i - 1] == s[i]);
        }
        lemma_leading_digits(t, i - 1);
    }
}

/// A run of digits is worth at least as much as any of its prefixes.
proof fn lemma_digits_value_grows(s: Seq<char>, i: int, k: int)
    requires
        0 <= i <= k <= s.len(),
        forall|j: int| 0 <= j < k ==> is_digit(#[trigger] s[j]),
    ensures
        digits_value(s.subrange(0, i)) <= digits_value(s.subrange(0, k)),
    decreases k - i,
{
    if i < k {
        lemma_digits_value_grows(s, i, k - 1);
        assert(s.subrange(0, k).drop_last() =~= s.subrange(0, k - 1));
    }
}

/// The duration that a duration expression denotes, in seconds; `None` when it is not
/// one, or when the duration does not fit in an `i64`.
pub fn parse_duration(s: &str) -> (r: Option<i64>)
    ensures
        seconds_of(r) == duration_of(s@),
{
    let n = s.unicode_len();
    let mut i: usize = 0;
    let mut count: u64 = 0;
    let mut too_large = false;
    while i < n && '0' <= s.get_char(i) && s.get_char(i) <= '9'
        invariant
            n == s@.len(),
            i <= n,
            forall|j: int| 0 <= j < i ==> is_digit(#[trigger] s@[j]),
            !too_large ==> count == digits_value(s@.subrange(0, i as int)),
            !too_large ==> count <= COUNT_LIMIT,
            too_large ==> digits_value(s@.subrange(0, i as int)) > COUNT_LIMIT,
        decreases n - i,
    {
        let c = s.get_char(i);
        proof {
            assert(s@.subrange(0, i + 1).drop_last() =~= s@.subrange(0, i as int));
            lemma_digits_value_grows(s@, i as int, i + 1);
        }
        if !too_large {
            let next = count * 10 + ((c as u32) - ('0' as u32)) as u64;
            if next > COUNT_LIMIT {
                too_large = true;
            } else {
                count = next;
            }
        }
        i = i + 1;
    }
    proof {
        lemma_leading_digits(s@, i as int);
    }
    if i == 0 {
        return None;
    }
    let rest_start: usize = if i < n && s.get_char(i) == ' ' { i + 1 } else { i };
    let unit = s.substring_char(rest_start, n);
    assert(unit@ =~= unit_part(s@));
    let per_unit: i64 = if same_text(unit, "h") || same_text(unit, "hour") || same_text(unit, "hours") {
        SECONDS_PER_HOUR
    } else if same_text(unit, "d") || same_text(unit, "day") || same_text(unit, "days") {
        SECONDS_PER_DAY
    } else if same_text(unit, "w") || same_text(unit, "week") || same_text(unit, "weeks") {
        SECONDS_PER_WEEK
    } else {
        return None;
    };
    if too_large {
        assert(digits_value(s@.subrange(0, i as int)) * per_unit > i64::MAX) by (nonlinear_arith)
            requires
                digits_value(s@.subrange(0, i as int)) > COUNT_LIMIT,
                per_unit >= SECONDS_PER_HOUR,
        ;
        return None;
    }
    if count > (i64::MAX / per_unit) as u64 {
        assert(count * per_unit > i64::MAX) by (nonlinear_arith)
            requires
                count > i64::MAX / per_unit,
                per_unit > 0,
        ;
        return None;
    }
    assert(count * per_unit <= i64::MAX) by (nonlinear_arith)
        requires
            count <= i64::MAX / per_unit,
            per_unit > 0,
    ;
    Some((count as i64) * per_unit)
}

} // verus!
