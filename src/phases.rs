use vstd::prelude::*;

use crate::duration::{duration_of, parse_duration, seconds_of, SECONDS_PER_DAY};
use crate::resources::Resource;
use crate::resources::ResourceType;

verus! {

/// The static definition of a kind of production step.
#[derive(Clone, Debug, PartialEq)]
pub struct ProductionPhaseTemplate {
    pub description: String,
    pub id: String,
    /// A hint for presentation; scheduling follows the order of a recipe's phases.
    pub order: usize,
    pub resources_needed: Vec<ResourceType>,
    pub color_hex: String,
    /// The duration expression of the phase when a recipe gives none.
    pub default_duration: String,
}

impl ProductionPhaseTemplate {
    /// The default duration, in seconds, when the template's duration expression is one.
    pub fn default_duration(&self) -> (r: Option<i64>)
        ensures
            seconds_of(r) == duration_of(self.default_duration@),
    {
        parse_duration(self.default_duration.as_str())
    }
}

/// A recipe's reference to a template, with optional overrides: an empty description or
/// duration string means none was given.
#[derive(Clone, Debug)]
pub struct PhaseInstanceSpec {
    pub description: String,
    pub template: String,
    pub duration_string: String,
}

/// The duration that an override string gives, if any.
pub open spec fn override_of(s: Seq<char>) -> Option<int> {
    if s.len() == 0 {
        None
    } else {
        duration_of(s)
    }
}

/// The duration of a phase: its own when given and readable, else the template's when
/// readable, else one day.
pub open spec fn resolved_duration(spec_duration: Seq<char>, template_duration: Seq<char>) -> int {
    match override_of(spec_duration) {
        Some(d) => d,
        None => match duration_of(template_duration) {
            Some(d) => d,
            None => SECONDS_PER_DAY as int,
        },
    }
}

/// The description of a phase: its own when not empty, else the template's.
pub open spec fn resolved_description(spec_description: Seq<char>, template_description: Seq<char>) -> Seq<char> {
    if spec_description.len() == 0 {
        template_description
    } else {
        spec_description
    }
}

impl PhaseInstanceSpec {
    /// The overriding duration, in seconds, if one is given and readable.
    pub fn duration(&self) -> (r: Option<i64>)
        ensures
            seconds_of(r) == override_of(self.duration_string@),
    {
        if self.duration_string.as_str().is_empty() {
            None
        } else {
            parse_duration(self.duration_string.as_str())
        }
    }

    /// The duration of this phase under `template`, in seconds.
    pub fn resolve_duration(&self, template: &ProductionPhaseTemplate) -> (r: i64)
        ensures
            r == resolved_duration(self.duration_string@, template.default_duration@),
            r >= 0,
    {
        match self.duration() {
            Some(d) => d,
            None => match template.default_duration() {
                Some(d) => d,
                None => SECONDS_PER_DAY,
            },
        }
    }

    /// The description of this phase under `template`.
    pub fn resolve_description(&self, template: &ProductionPhaseTemplate) -> (r: String)
        ensures
            r@ == resolved_description(self.description@, template.description@),
    {
        if self.description.as_str().is_empty() {
            template.description.clone()
        } else {
            self.description.clone()
        }
    }
}

/// Ids in strictly increasing order.
pub open spec fn strictly_increasing(s: Seq<usize>) -> bool {
    forall|i: int, j: int| 0 <= i < j < s.len() ==> s[i] < s[j]
}

/// A scheduled occurrence of a phase within a recipe. Times are in seconds.
#[derive(Clone, Debug, PartialEq)]
pub struct PhaseInstance {
    pub id: usize,
    pub description: String,
    pub color_hex: String,
    pub duration: i64,
    /// Ids of the phases declared to follow this one, in increasing order.
    pub dependencies: Vec<usize>,
    pub start_date: i64,
    pub resources_used: Vec<Resource>,
}

impl PhaseInstance {
    /// A phase instance with no dependencies.
    pub fn new(
        id: usize,
        description: String,
        color_hex: String,
        duration: i64,
        start_date: i64,
        resources: Vec<Resource>,
    ) -> (r: PhaseInstance)
        ensures
            r.id == id,
            r.description == description,
            r.color_hex == color_hex,
            r.duration == duration,
            r.start_date == start_date,
            r.resources_used == resources,
            r.dependencies@ == Seq::<usize>::empty(),
    {
        PhaseInstance {
            id,
            description,
            color_hex,
            duration,
            dependencies: Vec::new(),
            start_date,
            resources_used: resources,
        }
    }

    /// Add `dep` to the dependencies, keeping them increasing and without repeats.
    pub fn add_dependency(&mut self, dep: usize)
        requires
            strictly_increasing(old(self).dependencies@),
        ensures
            strictly_increasing(final(self).dependencies@),
            forall|x: usize|
                final(self).dependencies@.contains(x) <==> (old(self).dependencies@.contains(x) || x == dep),
            old(self).dependencies@.len() == 0 ==> final(self).dependencies@ == seq![dep],
            final(self).id == old(self).id,
            final(self).description == old(self).description,
            final(self).color_hex == old(self).color_hex,
            final(self).duration == old(self).duration,
            final(self).start_date == old(self).start_date,
            final(self).resources_used == old(self).resources_used,
    {
        let mut p: usize = 0;
        while p < self.dependencies.len() && self.dependencies[p] < dep
            invariant
                self == old(self),
                strictly_increasing(self.dependencies@),
                p <= self.dependencies@.len(),
                forall|j: int| 0 <= j < p ==> #[trigger] self.dependencies@[j] < dep,
            decreases self.dependencies@.len() - p,
        {
            p = p + 1;
        }
        if p < self.dependencies.len() && self.dependencies[p] == dep {
            return;
        }
        let ghost before = self.dependencies@;
        self.dependencies.insert(p, dep);
        proof {
            let after = self.dependencies@;
            assert(after =~= before.insert(p as int, dep));
            if before.len() == 0 {
                assert(after =~= seq![dep]);
            }
            assert forall|x: usize| after.contains(x) <==> (before.contains(x) || x == dep) by {
                if after.contains(x) {
                    let w = choose|w: int| 0 <= w < after.len() && after[w] == x;
                    if w > p {
                        assert(before[w - 1] == x);
                    }
                }
                if before.contains(x) {
                    let w = choose|w: int| 0 <= w < before.len() && before[w] == x;
                    if w < p {
                        assert(after[w] == x);
                    } else {
                        assert(after[w + 1] == x);
                    }
                }
                if x == dep {
                    assert(after[p as int] == x);
                }
            }
            assert forall|a: int, b: int| 0 <= a < b < after.len() implies after[a] < after[b] by {
                if a < p && b > p {
                    assert(after[b] == before[b - 1]);
                    assert(before[b - 1] >= dep);
                }
                if a == p && b > p {
                    assert(after[b] == before[b - 1]);
                    assert(before[p as int] > dep);
                    if b - 1 > p {
                        assert(before[p as int] < before[b - 1]);
                    }
                }
                if a > p {
                    assert(after[a] == before[a - 1]);
                    assert(after[b] == before[b - 1]);
                }
            }
        }
    }
}

} // verus!
