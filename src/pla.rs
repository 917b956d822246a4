use vstd::prelude::*;
use vstd::string::{StrSliceExecFns, StringExecFns};

use crate::calendar::{formatted_of, start_label, start_layout};
use crate::duration::SECONDS_PER_HOUR;
use crate::phases::PhaseInstance;
use crate::recipes::Recipe;
use crate::resources::Resource;
use crate::schedule::ProductionSchedule;

verus! {

/// The character of a decimal digit.
pub open spec fn digit_char(d: nat) -> char {
    if d == 0 {
        '0'
    } else if d == 1 {
        '1'
    } else if d == 2 {
        '2'
    } else if d == 3 {
        '3'
    } else if d == 4 {
        '4'
    } else if d == 5 {
        '5'
    } else if d == 6 {
        '6'
    } else if d == 7 {
        '7'
    } else if d == 8 {
        '8'
    } else {
        '9'
    }
}

/// The decimal digits of `n`, without leading zeros.
pub open spec fn decimal(n: nat) -> Seq<char>
    decreases n,
{
    if n < 10 {
        seq![digit_char(n)]
    } else {
        decimal(n / 10) + seq![digit_char(n % 10)]
    }
}

/// The text of one decimal digit.
fn digit_text(d: u64) -> (r: &'static str)
    requires
        d < 10,
    ensures
        r@ == seq![digit_char(d as nat)],
{
    proof {
        reveal_strlit("0");
        reveal_strlit("1");
        reveal_strlit("2");
        reveal_strlit("3");
        reveal_strlit("4");
        reveal_strlit("5");
        reveal_strlit("6");
        reveal_strlit("7");
        reveal_strlit("8");
        reveal_strlit("9");
    }
    if d == 0 {
        "0"
    } else if d == 1 {
        "1"
    } else if d == 2 {
        "2"
    } else if d == 3 {
        "3"
    } else if d == 4 {
        "4"
    } else if d == 5 {
        "5"
    } else if d == 6 {
        "6"
    } else if d == 7 {
        "7"
    } else if d == 8 {
        "8"
    } else {
        "9"
    }
}

/// The decimal text of `n`.
pub fn decimal_text(n: u64) -> (r: String)
    ensures
        r@ == decimal(n as nat),
    decreases n,
{
    if n < 10 {
        String::from_str(digit_text(n))
    } else {
        let mut s = decimal_text(n / 10);
        s.append(digit_text(n % 10));
        s
    }
}

/// The whole hours in a duration of `d` seconds, rounded toward zero.
pub open spec fn whole_hours(d: int) -> int {
    if d >= 0 {
        d / (SECONDS_PER_HOUR as int)
    } else {
        -((-d) / (SECONDS_PER_HOUR as int))
    }
}

/// The decimal text of a signed number: a minus sign before the digits of a negative one.
pub open spec fn signed_decimal(n: int) -> Seq<char> {
    if n < 0 {
        "-"@ + decimal((-n) as nat)
    } else {
        decimal(n as nat)
    }
}

/// The decimal text of a signed number.
pub fn signed_decimal_text(n: i64) -> (r: String)
    requires
        n > i64::MIN,
    ensures
        r@ == signed_decimal(n as int),
{
    if n < 0 {
        let mut s = String::from_str("-");
        s.append(decimal_text((-n) as u64).as_str());
        s
    } else {
        decimal_text(n as u64)
    }
}

/// The indentation of a nesting level: two spaces per level.
pub open spec fn indent(level: nat) -> Seq<char> {
    Seq::new(2 * level, |i: int| ' ')
}

/// The indentation of a nesting level.
pub fn get_space_indent(level: usize) -> (r: String)
    requires
        level <= usize::MAX / 2,
    ensures
        r@ == indent(level as nat),
{
    let mut s = String::new();
    let mut i: usize = 0;
    while i < 2 * level
        invariant
            level <= usize::MAX / 2,
            i <= 2 * level,
            s@ == Seq::new(i as nat, |j: int| ' '),
        decreases 2 * level - i,
    {
        s.append(" ");
        proof {
            reveal_strlit(" ");
        }
        assert(s@ =~= Seq::new((i + 1) as nat, |j: int| ' '));
        i = i + 1;
    }
    s
}

/// The text of an instant as a phase or recipe start, empty when it is out of the
/// calendar's range.
pub open spec fn label_text(t: int) -> Seq<char> {
    match formatted_of(t, start_layout(t)) {
        Some(s) => s,
        None => Seq::empty(),
    }
}

/// Whether the start of every recipe and every phase can be written.
pub open spec fn labels_exist(recipes: Seq<Recipe>) -> bool {
    forall|k: int|
        0 <= k < recipes.len() ==> {
            &&& formatted_of(
                (#[trigger] recipes[k]).start_date as int,
                start_layout(recipes[k].start_date as int),
            ) is Some
            &&& forall|j: int|
                0 <= j < recipes[k].phases@.len() ==> formatted_of(
                    (#[trigger] recipes[k].phases@[j]).start_date as int,
                    start_layout(recipes[k].phases@[j].start_date as int),
                ) is Some
        }
}

/// One `res` line per resource, in order.
pub open spec fn resource_lines(rs: Seq<Resource>, pad: Seq<char>) -> Seq<char>
    decreases rs.len(),
{
    if rs.len() == 0 {
        Seq::empty()
    } else {
        resource_lines(rs.drop_last(), pad) + pad + "res "@ + rs.last().name@ + "\n"@
    }
}

/// One `dep` line per dependency, in order.
pub open spec fn dependency_lines(ds: Seq<usize>, pad: Seq<char>) -> Seq<char>
    decreases ds.len(),
{
    if ds.len() == 0 {
        Seq::empty()
    } else {
        dependency_lines(ds.drop_last(), pad) + pad + "dep "@ + decimal(ds.last() as nat) + "\n"@
    }
}

/// The block of a phase: its id and description, then its start, color, duration in
/// whole hours, resources and dependencies, one per line, and an empty line.
pub open spec fn phase_text(p: PhaseInstance, level: nat) -> Seq<char> {
    phase_block_text(p, level, label_text(p.start_date as int))
}

/// The block of a phase, with `start` as the text of its start.
pub open spec fn phase_block_text(p: PhaseInstance, level: nat, start: Seq<char>) -> Seq<char> {
    let pad = indent(level + 1);
    indent(level) + "["@ + decimal(p.id as nat) + "] "@ + p.description@ + "\n"@ + pad + "start "@ + start + "\n"@ + pad + "color "@ + p.color_hex@ + "\n"@ + pad + "duration "@ + signed_decimal(
        whole_hours(p.duration as int),
    ) + "\n"@ + resource_lines(p.resources_used@, pad) + dependency_lines(p.dependencies@, indent(2)) + "\n"@
}

/// The block of a recipe: its id and name, then its start and color, and an empty line.
pub open spec fn recipe_text(r: Recipe, level: nat) -> Seq<char> {
    recipe_block_text(r, level, label_text(r.start_date as int))
}

/// The block of a recipe, with `start` as the text of its start.
pub open spec fn recipe_block_text(r: Recipe, level: nat, start: Seq<char>) -> Seq<char> {
    let pad = indent(level + 1);
    indent(level) + "["@ + decimal(r.id as nat) + "] "@ + r.name@ + "\n"@ + pad + "start "@ + start + "\n"@ + pad + "color "@ + r.color@ + "\n"@ + "\n"@
}

/// The blocks of a list of phases, in order.
pub open spec fn phases_text(ps: Seq<PhaseInstance>, level: nat) -> Seq<char>
    decreases ps.len(),
{
    if ps.len() == 0 {
        Seq::empty()
    } else {
        phases_text(ps.drop_last(), level) + phase_text(ps.last(), level)
    }
}

/// Each recipe's block followed by the blocks of its phases, at the first level.
pub open spec fn recipes_text(rs: Seq<Recipe>) -> Seq<char>
    decreases rs.len(),
{
    if rs.len() == 0 {
        Seq::empty()
    } else {
        recipes_text(rs.drop_last()) + recipe_text(rs.last(), 1) + phases_text(rs.last().phases@, 1)
    }
}

impl PhaseInstance {
    /// This phase as a block of PLA text at nesting level `initial_indent`; `None` when its
    /// start is out of the calendar's range.
    pub fn get_string_in_pla_format(&self, initial_indent: usize) -> (r: Option<String>)
        requires
            initial_indent < usize::MAX / 2,
        ensures
            r is None <==> formatted_of(self.start_date as int, start_layout(self.start_date as int)) is None,
            r matches Some(s) ==> s@ == phase_text(*self, initial_indent as nat),
    {
        match start_label(self.start_date) {
            Some(start) => Some(self.pla_block(initial_indent, start.as_str())),
            None => None,
        }
    }

    /// This phase as a block of PLA text at nesting level `initial_indent`, with `start` as
    /// the text of its start.
    pub fn pla_block(&self, initial_indent: usize, start: &str) -> (r: String)
        requires
            initial_indent < usize::MAX / 2,
        ensures
            r@ == phase_block_text(*self, initial_indent as nat, start@),
    {
        let pad = get_space_indent(initial_indent + 1);
        let mut out = get_space_indent(initial_indent);
        out.append("[");
        out.append(decimal_text(self.id as u64).as_str());
        out.append("] ");
        out.append(self.description.as_str());
        out.append("\n");
        out.append(pad.as_str());
        out.append("start ");
        out.append(start);
        out.append("\n");
        out.append(pad.as_str());
        out.append("color ");
        out.append(self.color_hex.as_str());
        out.append("\n");
        out.append(pad.as_str());
        out.append("duration ");
        let hours = self.duration / SECONDS_PER_HOUR;
        assert(hours == whole_hours(self.duration as int));
        out.append(signed_decimal_text(hours).as_str());
        out.append("\n");
        let ghost head = out@;
        let mut i: usize = 0;
        while i < self.resources_used.len()
            invariant
                i <= self.resources_used@.len(),
                out@ == head + resource_lines(self.resources_used@.subrange(0, i as int), pad@),
            decreases self.resources_used@.len() - i,
        {
            assert(self.resources_used@.subrange(0, i + 1).drop_last() =~= self.resources_used@.subrange(0, i as int));
            out.append(pad.as_str());
            out.append("res ");
            out.append(self.resources_used[i].name.as_str());
            out.append("\n");
            i = i + 1;
        }
        assert(self.resources_used@.subrange(0, i as int) =~= self.resources_used@);
        let deps_pad = get_space_indent(2);
        let ghost middle = out@;
        let mut j: usize = 0;
        while j < self.dependencies.len()
            invariant
                j <= self.dependencies@.len(),
                out@ == middle + dependency_lines(self.dependencies@.subrange(0, j as int), deps_pad@),
            decreases self.dependencies@.len() - j,
        {
            assert(self.dependencies@.subrange(0, j + 1).drop_last() =~= self.dependencies@.subrange(0, j as int));
            out.append(deps_pad.as_str());
            out.append("dep ");
            out.append(decimal_text(self.dependencies[j] as u64).as_str());
            out.append("\n");
            j = j + 1;
        }
        assert(self.dependencies@.subrange(0, j as int) =~= self.dependencies@);
        out.append("\n");
        out
    }
}

impl Recipe {
    /// The heading block of this recipe at nesting level `initial_indent`; `None` when its
    /// start is out of the calendar's range.
    pub fn get_string_in_pla_format(&self, initial_indent: usize) -> (r: Option<String>)
        requires
            initial_indent < usize::MAX / 2,
        ensures
            r is None <==> formatted_of(self.start_date as int, start_layout(self.start_date as int)) is None,
            r matches Some(s) ==> s@ == recipe_text(*self, initial_indent as nat),
    {
        match start_label(self.start_date) {
            Some(start) => Some(self.pla_block(initial_indent, start.as_str())),
            None => None,
        }
    }

    /// The heading block of this recipe at nesting level `initial_indent`, with `start` as
    /// the text of its start.
    pub fn pla_block(&self, initial_indent: usize, start: &str) -> (r: String)
        requires
            initial_indent < usize::MAX / 2,
        ensures
            r@ == recipe_block_text(*self, initial_indent as nat, start@),
    {
        let pad = get_space_indent(initial_indent + 1);
        let mut out = get_space_indent(initial_indent);
        out.append("[");
        out.append(decimal_text(self.id as u64).as_str());
        out.append("] ");
        out.append(self.name.as_str());
        out.append("\n");
        out.append(pad.as_str());
        out.append("start ");
        out.append(start);
        out.append("\n");
        out.append(pad.as_str());
        out.append("color ");
        out.append(self.color.as_str());
        out.append("\n");
        out.append("\n");
        out
    }
}

/// The text without its last character, if it has one.
pub open spec fn without_last(s: Seq<char>) -> Seq<char> {
    if s.len() == 0 {
        s
    } else {
        s.drop_last()
    }
}

/// The text without its last character.
fn without_last_char(s: &String) -> (r: String)
    requires
        s@.len() > 0,
    ensures
        r@ == s@.drop_last(),
{
    let n = s.as_str().unicode_len();
    let head = s.as_str().substring_char(0, n - 1);
    let r = head.to_owned();
    assert(r@ =~= s@.drop_last());
    r
}

impl ProductionSchedule {
    /// The whole schedule as PLA text: each recipe's heading followed by its phases, without
    /// the final newline. `None` when some start is out of the calendar's range.
    pub fn get_string_in_pla_format(&self) -> (r: Option<String>)
        ensures
            r is None <==> !labels_exist(self.recipes@),
            r matches Some(s) ==> s@ == without_last(recipes_text(self.recipes@)),
    {
        let mut out = String::new();
        let mut k: usize = 0;
        while k < self.recipes.len()
            invariant
                k <= self.recipes@.len(),
                labels_exist(self.recipes@.subrange(0, k as int)),
                out@ == recipes_text(self.recipes@.subrange(0, k as int)),
            decreases self.recipes@.len() - k,
        {
            let recipe = &self.recipes[k];
            assert(self.recipes@.subrange(0, k + 1).drop_last() =~= self.recipes@.subrange(0, k as int));
            let head = match recipe.get_string_in_pla_format(1) {
                Some(h) => h,
                None => {
                    assert(!labels_exist(self.recipes@)) by {
                        assert(self.recipes@[k as int] == recipe);
                    }
                    return None;
                },
            };
            out.append(head.as_str());
            let ghost before = out@;
            let mut j: usize = 0;
            while j < recipe.phases.len()
                invariant
                    k < self.recipes@.len(),
                    recipe == self.recipes@[k as int],
                    j <= recipe.phases@.len(),
                    forall|l: int|
                        0 <= l < j ==> formatted_of(
                            (#[trigger] recipe.phases@[l]).start_date as int,
                            start_layout(recipe.phases@[l].start_date as int),
                        ) is Some,
                    out@ == before + phases_text(recipe.phases@.subrange(0, j as int), 1),
                decreases recipe.phases@.len() - j,
            {
                assert(recipe.phases@.subrange(0, j + 1).drop_last() =~= recipe.phases@.subrange(0, j as int));
                let text = match recipe.phases[j].get_string_in_pla_format(1) {
                    Some(t) => t,
                    None => {
                        assert(!labels_exist(self.recipes@)) by {
                            assert(self.recipes@[k as int].phases@[j as int] == recipe.phases@[j as int]);
                        }
                        return None;
                    },
                };
                out.append(text.as_str());
                j = j + 1;
            }
            assert(recipe.phases@.subrange(0, j as int) =~= recipe.phases@);
            proof {
                let upto = self.recipes@.subrange(0, k + 1);
                assert forall|l: int| 0 <= l < upto.len() implies {
                    &&& formatted_of((#[trigger] upto[l]).start_date as int, start_layout(upto[l].start_date as int)) is Some
                    &&& forall|m: int|
                        0 <= m < upto[l].phases@.len() ==> formatted_of(
                            (#[trigger] upto[l].phases@[m]).start_date as int,
                            start_layout(upto[l].phases@[m].start_date as int),
                        ) is Some
                } by {
                    if l < k {
                        assert(upto[l] == self.recipes@.subrange(0, k as int)[l]);
                    }
                }
            }
            k = k + 1;
        }
        assert(self.recipes@.subrange(0, k as int) =~= self.recipes@);
        if out.as_str().is_empty() {
            return Some(out);
        }
        Some(without_last_char(&out))
    }
}

} // verus!
