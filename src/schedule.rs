use vstd::prelude::*;

use crate::calendar::{parse_start, start_of};
use crate::duration::{duration_of, seconds_of, SECONDS_PER_DAY};
use crate::phases::{
    resolved_description, resolved_duration, strictly_increasing, PhaseInstance, PhaseInstanceSpec,
    ProductionPhaseTemplate,
};
use crate::recipes::{Recipe, RecipeSpec};
use crate::resources::{allocates, earliest_released, reserved_from, PossiblyAllocatedResource, Resource, ResourceTracker, ResourceType};

verus! {

/// Why a schedule could not be built.
#[derive(Clone, Debug)]
pub enum ScheduleError {
    /// A phase refers to a template id that no template has.
    UnknownTemplate(String),
    /// A phase needs a kind of resource of which none is declared: the kind and the
    /// phase's description.
    NoResourceOfKind(ResourceType, String),
    /// No resource of the kind could be reserved once the start had been settled: the
    /// kind and the phase's description.
    AllocationFailed(ResourceType, String),
    /// Two declared resources share an id.
    DuplicateResourceId(usize),
    /// Neither the recipe nor the timeline gives a readable start.
    UnreadableStartDate(String),
    /// An instant or an id would not fit its integer type.
    OutOfRange,
}

/// The start of a phase that needs the kinds `kinds`, asked for at `cursor`: each kind in
/// turn pushes the start to the earliest instant at which a resource of it can be had,
/// asked for at the start as pushed so far. `None` when some kind has no resource at all.
pub open spec fn pushed_start(t: ResourceTracker, kinds: Seq<ResourceType>, cursor: int) -> Option<int>
    decreases kinds.len(),
{
    if kinds.len() == 0 {
        Some(cursor)
    } else {
        match pushed_start(t, kinds.drop_last(), cursor) {
            None => None,
            Some(c) => match t.earliest_start(kinds.last()@, c) {
                None => None,
                Some(e) => Some(if e > c { e } else { c }),
            },
        }
    }
}

/// A pushed start is never before the instant asked for.
pub proof fn lemma_pushed_start_not_earlier(t: ResourceTracker, kinds: Seq<ResourceType>, cursor: int)
    ensures
        pushed_start(t, kinds, cursor) matches Some(s) ==> s >= cursor,
    decreases kinds.len(),
{
    if kinds.len() > 0 {
        lemma_pushed_start_not_earlier(t, kinds.drop_last(), cursor);
    }
}

/// Kinds that are pairwise different.
pub open spec fn distinct_kinds(kinds: Seq<ResourceType>) -> bool {
    forall|i: int, j: int| 0 <= i < j < kinds.len() ==> kinds[i]@ != kinds[j]@
}

/// The earliest release among reserved resources is the release of one of them.
proof fn lemma_earliest_released_witness(reserved: Seq<PossiblyAllocatedResource>, k: (nat, Seq<char>), c: int, e: int)
    requires
        earliest_released(reserved, k, c) == Some(e),
    ensures
        exists|l: int|
            0 <= l < reserved.len() && reserved[l].resource.resource_type@ == k && reserved[l].free_date <= e,
    decreases reserved.len(),
{
    let rest = reserved.drop_last();
    let last = reserved.last();
    if last.resource.resource_type@ == k && reserved_from(c, last.free_date as int) == e {
        assert(reserved[reserved.len() - 1] == last);
    } else {
        lemma_earliest_released_witness(rest, k, c, e);
        let l = choose|l: int| 0 <= l < rest.len() && rest[l].resource.resource_type@ == k && rest[l].free_date <= e;
        assert(reserved[l] == rest[l]);
    }
}

/// A resource that can be reserved from one instant on can be reserved from any later one.
proof fn lemma_can_reserve_later(t: ResourceTracker, k: (nat, Seq<char>), a: int, b: int)
    requires
        t.can_reserve(k, a),
        a <= b,
    ensures
        t.can_reserve(k, b),
{
    if !t.has_free(k) {
        let w = choose|w: int| t.is_released_by(k, a, w);
        assert(t.is_released_by(k, b, w));
    }
}

/// At a pushed start, a resource of every kind asked for can be reserved.
proof fn lemma_pushed_start_reservable(t: ResourceTracker, kinds: Seq<ResourceType>, cursor: int, s: int)
    requires
        pushed_start(t, kinds, cursor) == Some(s),
    ensures
        forall|j: int| 0 <= j < kinds.len() ==> t.can_reserve(#[trigger] kinds[j]@, s),
    decreases kinds.len(),
{
    if kinds.len() > 0 {
        let prefix = kinds.drop_last();
        let c = pushed_start(t, prefix, cursor)->Some_0;
        lemma_pushed_start_reservable(t, prefix, cursor, c);
        let k = kinds.last()@;
        let e = t.earliest_start(k, c)->Some_0;
        if !t.has_free(k) {
            lemma_earliest_released_witness(t.reserved(), k, c, e);
            let l = choose|l: int|
                0 <= l < t.reserved().len() && t.reserved()[l].resource.resource_type@ == k && t.reserved()[l].free_date <= e;
            assert(t.is_released_by(k, s, l));
        }
        assert forall|j: int| 0 <= j < kinds.len() implies t.can_reserve(#[trigger] kinds[j]@, s) by {
            if j < kinds.len() - 1 {
                assert(kinds[j] == prefix[j]);
                lemma_can_reserve_later(t, kinds[j]@, c, s);
            }
        }
    }
}

/// A tracked kind has an earliest start.
proof fn lemma_tracked_kind_has_start(t: ResourceTracker, k: (nat, Seq<char>), c: int)
    requires
        t.has_kind(k),
    ensures
        t.earliest_start(k, c) is Some,
{
    if !t.has_free(k) {
        lemma_released_exists(t.reserved(), k, c);
    }
}

proof fn lemma_released_exists(reserved: Seq<PossiblyAllocatedResource>, k: (nat, Seq<char>), c: int)
    requires
        exists|j: int| 0 <= j < reserved.len() && reserved[j].resource.resource_type@ == k,
    ensures
        earliest_released(reserved, k, c) is Some,
    decreases reserved.len(),
{
    let rest = reserved.drop_last();
    if reserved.last().resource.resource_type@ != k {
        let j = choose|j: int| 0 <= j < reserved.len() && reserved[j].resource.resource_type@ == k;
        assert(rest[j] == reserved[j]);
        lemma_released_exists(rest, k, c);
    }
}

/// When every kind asked for is tracked, the phase has a start.
pub proof fn lemma_tracked_kinds_have_start(t: ResourceTracker, kinds: Seq<ResourceType>, cursor: int)
    requires
        forall|j: int| 0 <= j < kinds.len() ==> t.has_kind(#[trigger] kinds[j]@),
    ensures
        pushed_start(t, kinds, cursor) is Some,
    decreases kinds.len(),
{
    if kinds.len() > 0 {
        let prefix = kinds.drop_last();
        assert forall|j: int| 0 <= j < prefix.len() implies t.has_kind(#[trigger] prefix[j]@) by {
            assert(prefix[j] == kinds[j]);
        }
        lemma_tracked_kinds_have_start(t, prefix, cursor);
        let c = pushed_start(t, prefix, cursor)->Some_0;
        assert(t.has_kind(kinds[kinds.len() - 1]@));
        lemma_tracked_kind_has_start(t, kinds.last()@, c);
    }
}

/// Every template needs pairwise different kinds, each of them tracked.
pub open spec fn kinds_ready(t: ResourceTracker, templates: Seq<ProductionPhaseTemplate>) -> bool {
    forall|i: int|
        0 <= i < templates.len() ==> {
            &&& distinct_kinds((#[trigger] templates[i]).resources_needed@)
            &&& forall|j: int|
                0 <= j < templates[i].resources_needed@.len() ==> t.has_kind(
                    #[trigger] templates[i].resources_needed@[j]@,
                )
        }
}

/// The trackers `ts` lead from one to the next by reserving, in turn, one resource of each
/// kind of `kinds` from `start` until `end`, handing out `used`.
pub open spec fn reserves_in_turn(
    ts: Seq<ResourceTracker>,
    kinds: Seq<ResourceType>,
    start: int,
    end: i64,
    used: Seq<Resource>,
) -> bool {
    &&& ts.len() == kinds.len() + 1
    &&& used.len() == kinds.len()
    &&& forall|j: int| 0 <= j < kinds.len() ==> allocates(#[trigger] ts[j], ts[j + 1], kinds[j]@, start, end, Some(used[j]))
}

/// `after` is `before` once a phase needing `kinds` has reserved `used` from `start` until
/// `end`.
pub open spec fn phase_reserves(
    before: ResourceTracker,
    after: ResourceTracker,
    kinds: Seq<ResourceType>,
    start: int,
    end: i64,
    used: Seq<Resource>,
) -> bool {
    exists|ts: Seq<ResourceTracker>|
        #![trigger reserves_in_turn(ts, kinds, start, end, used)]
        reserves_in_turn(ts, kinds, start, end, used) && ts[0] == before && ts[kinds.len() as int] == after
}

/// Settle the start of a phase that needs `kinds`, asked for at `cursor`, and reserve one
/// resource of each kind from that start for `duration` seconds. Returns the start and
/// the resources, in the order of `kinds`.
pub fn schedule_phase(
    tracker: &mut ResourceTracker,
    kinds: &Vec<ResourceType>,
    cursor: i64,
    duration: i64,
    description: &String,
) -> (r: Result<(i64, Vec<Resource>), ScheduleError>)
    requires
        old(tracker).wf(),
        duration >= 0,
    ensures
        final(tracker).wf(),
        pushed_start(*old(tracker), kinds@, cursor as int) is None <==> r matches Err(
            ScheduleError::NoResourceOfKind(_, _),
        ),
        (pushed_start(*old(tracker), kinds@, cursor as int) matches Some(s) && s + duration > i64::MAX) <==> r matches Err(
            ScheduleError::OutOfRange,
        ),
        r matches Err(ScheduleError::NoResourceOfKind(_, _)) ==> *final(tracker) == *old(tracker),
        r matches Err(ScheduleError::OutOfRange) ==> *final(tracker) == *old(tracker),
        r matches Err(e) ==> e matches ScheduleError::NoResourceOfKind(_, _) || e matches ScheduleError::OutOfRange
            || e matches ScheduleError::AllocationFailed(_, _),
        distinct_kinds(kinds@) ==> !(r matches Err(ScheduleError::AllocationFailed(_, _))),
        forall|k: (nat, Seq<char>)| #[trigger] old(tracker).has_kind(k) ==> final(tracker).has_kind(k),
        forall|x: Resource| #[trigger] final(tracker).holds(x) <==> old(tracker).holds(x),
        forall|b: int|
            #[trigger] old(tracker).releases_by(b) && (pushed_start(*old(tracker), kinds@, cursor as int) matches Some(
                s,
            ) && s + duration <= b) ==> final(tracker).releases_by(b),
        r matches Ok((start, used)) ==> {
            &&& pushed_start(*old(tracker), kinds@, cursor as int) == Some(start as int)
            &&& forall|i: int| 0 <= i < kinds@.len() ==> old(tracker).holds(#[trigger] used@[i])
            &&& phase_reserves(*old(tracker), *final(tracker), kinds@, start as int, (start + duration) as i64, used@)
            &&& start >= cursor
            &&& start + duration <= i64::MAX
            &&& used@.len() == kinds@.len()
            &&& forall|i: int| 0 <= i < kinds@.len() ==> (#[trigger] used@[i]).resource_type@ == kinds@[i]@
        },
{
    let mut start = cursor;
    let mut i: usize = 0;
    while i < kinds.len()
        invariant
            *tracker == *old(tracker),
            tracker.wf(),
            i <= kinds@.len(),
            pushed_start(*tracker, kinds@.subrange(0, i as int), cursor as int) == Some(start as int),
        decreases kinds@.len() - i,
    {
        assert(kinds@.subrange(0, i + 1).drop_last() =~= kinds@.subrange(0, i as int));
        match tracker.next_available_resource_date_for_type(&kinds[i], start) {
            None => {
                proof {
                    lemma_none_stays_none(*tracker, kinds@, cursor as int, i + 1);
                }
                return Err(ScheduleError::NoResourceOfKind(kinds[i].copy_kind(), description.clone()));
            },
            Some(t) => {
                if t > start {
                    start = t;
                }
            },
        }
        i = i + 1;
    }
    assert(kinds@.subrange(0, i as int) =~= kinds@);
    proof {
        lemma_pushed_start_not_earlier(*tracker, kinds@, cursor as int);
    }
    if start > i64::MAX - duration {
        return Err(ScheduleError::OutOfRange);
    }
    proof {
        lemma_pushed_start_reservable(*tracker, kinds@, cursor as int, start as int);
    }
    let mut used: Vec<Resource> = Vec::new();
    let ghost mut ts: Seq<ResourceTracker> = seq![*tracker];
    let mut j: usize = 0;
    while j < kinds.len()
        invariant
            j <= kinds@.len(),
            tracker.wf(),
            pushed_start(*old(tracker), kinds@, cursor as int) == Some(start as int),
            start >= cursor,
            duration >= 0,
            start + duration <= i64::MAX,
            used@.len() == j,
            forall|l: int| 0 <= l < j ==> (#[trigger] used@[l]).resource_type@ == kinds@[l]@,
            distinct_kinds(kinds@) ==> forall|l: int| j <= l < kinds@.len() ==> tracker.can_reserve(#[trigger] kinds@[l]@, start as int),
            forall|k: (nat, Seq<char>)| #[trigger] old(tracker).has_kind(k) ==> tracker.has_kind(k),
            forall|x: Resource| #[trigger] tracker.holds(x) <==> old(tracker).holds(x),
            forall|l: int| 0 <= l < j ==> old(tracker).holds(#[trigger] used@[l]),
            forall|b: int| #[trigger] old(tracker).releases_by(b) && start + duration <= b ==> tracker.releases_by(b),
            ts.len() == j + 1,
            ts[0] == *old(tracker),
            ts[j as int] == *tracker,
            forall|l: int|
                0 <= l < j ==> allocates(#[trigger] ts[l], ts[l + 1], kinds@[l]@, start as int, (start + duration) as i64, Some(used@[l])),
        decreases kinds@.len() - j,
    {
        let ghost tracker_before = *tracker;
        match tracker.allocate_resource_of_type_for_duration(&kinds[j], start, duration) {
            None => {
                return Err(ScheduleError::AllocationFailed(kinds[j].copy_kind(), description.clone()));
            },
            Some(res) => {
                proof {
                    assert(old(tracker).holds(res));
                }
                let ghost before = used@;
                let ghost ts_before = ts;
                used.push(res);
                proof {
                    ts = ts.push(*tracker);
                }
                assert forall|l: int| 0 <= l < j + 1 implies old(tracker).holds(#[trigger] used@[l]) by {
                    if l < j {
                        assert(used@[l] == before[l]);
                    }
                }
                assert forall|l: int| 0 <= l < j + 1 implies allocates(
                    #[trigger] ts[l],
                    ts[l + 1],
                    kinds@[l]@,
                    start as int,
                    (start + duration) as i64,
                    Some(used@[l]),
                ) by {
                    if l < j {
                        assert(used@[l] == before[l]);
                        assert(ts[l] == ts_before[l]);
                        assert(ts[l + 1] == ts_before[l + 1]);
                    } else {
                        assert(ts[l] == tracker_before);
                    }
                }
            },
        }
        j = j + 1;
    }
    assert(reserves_in_turn(ts, kinds@, start as int, (start + duration) as i64, used@));
    Ok((start, used))
}

/// Once some kind has no resource at all, every longer list of kinds has no start.
proof fn lemma_none_stays_none(t: ResourceTracker, kinds: Seq<ResourceType>, cursor: int, n: int)
    requires
        0 < n <= kinds.len(),
        pushed_start(t, kinds.subrange(0, n), cursor) is None,
    ensures
        pushed_start(t, kinds, cursor) is None,
    decreases kinds.len() - n,
{
    if n < kinds.len() {
        assert(kinds.subrange(0, n + 1).drop_last() =~= kinds.subrange(0, n));
        lemma_none_stays_none(t, kinds, cursor, n + 1);
    } else {
        assert(kinds.subrange(0, n) =~= kinds);
    }
}

/// `i` is the first template whose id is `id`.
pub open spec fn is_template_for(templates: Seq<ProductionPhaseTemplate>, id: Seq<char>, i: int) -> bool {
    &&& 0 <= i < templates.len()
    &&& templates[i].id@ == id
    &&& forall|j: int| 0 <= j < i ==> #[trigger] templates[j].id@ != id
}

/// Whether some template has the id `id`.
pub open spec fn has_template(templates: Seq<ProductionPhaseTemplate>, id: Seq<char>) -> bool {
    exists|i: int| 0 <= i < templates.len() && templates[i].id@ == id
}

/// Whether every phase of `specs` refers to a template that exists.
pub open spec fn all_templates_known(templates: Seq<ProductionPhaseTemplate>, specs: Seq<PhaseInstanceSpec>) -> bool {
    forall|k: int| 0 <= k < specs.len() ==> has_template(templates, #[trigger] specs[k].template@)
}

/// The first template whose id is `id`, if any.
pub fn find_template(templates: &Vec<ProductionPhaseTemplate>, id: &String) -> (r: Option<usize>)
    ensures
        r matches Some(i) ==> is_template_for(templates@, id@, i as int),
        r is None <==> !has_template(templates@, id@),
{
    let mut i: usize = 0;
    while i < templates.len()
        invariant
            i <= templates@.len(),
            forall|j: int| 0 <= j < i ==> #[trigger] templates@[j].id@ != id@,
        decreases templates@.len() - i,
    {
        if templates[i].id.eq(id) {
            return Some(i);
        }
        i = i + 1;
    }
    None
}

/// Phase `p` is the phase that `spec` describes under `template`, with id `id` and asked
/// for at `cursor`: it takes its fields from the spec and the template, starts no
/// earlier than `cursor` (exactly at `cursor` when it needs no resources) and holds one
/// resource of each kind that the template needs.
pub open spec fn phase_follows(
    p: PhaseInstance,
    spec: PhaseInstanceSpec,
    template: ProductionPhaseTemplate,
    color: Seq<char>,
    id: int,
    cursor: int,
) -> bool {
    &&& p.id == id
    &&& p.description@ == resolved_description(spec.description@, template.description@)
    &&& p.color_hex@ == color
    &&& p.duration == resolved_duration(spec.duration_string@, template.default_duration@)
    &&& p.start_date >= cursor
    &&& (template.resources_needed@.len() == 0 ==> p.start_date == cursor)
    &&& p.start_date + p.duration <= i64::MAX
    &&& p.resources_used@.len() == template.resources_needed@.len()
    &&& forall|r: int|
        0 <= r < p.resources_used@.len() ==> (#[trigger] p.resources_used@[r]).resource_type@
            == template.resources_needed@[r]@
}

/// The instant at which phase `k` is asked for: the recipe's start for the first phase,
/// the end of the previous phase for the others.
pub open spec fn cursor_at(phases: Seq<PhaseInstance>, start: int, k: int) -> int {
    if k == 0 {
        start
    } else {
        phases[k - 1].start_date + phases[k - 1].duration
    }
}

/// The first `n` phases are those that `specs` describe, in order, with consecutive ids
/// from `first_id`, each asked for when the previous one ends.
pub open spec fn phases_scheduled(
    phases: Seq<PhaseInstance>,
    n: int,
    templates: Seq<ProductionPhaseTemplate>,
    specs: Seq<PhaseInstanceSpec>,
    color: Seq<char>,
    start: int,
    first_id: int,
) -> bool {
    &&& n <= phases.len()
    &&& n <= specs.len()
    &&& forall|k: int, i: int|
        0 <= k < n && #[trigger] is_template_for(templates, specs[k].template@, i) ==> phase_follows(
            phases[k],
            specs[k],
            templates[i],
            color,
            first_id + k,
            cursor_at(phases, start, k),
        )
}

/// Each phase but the last depends on exactly the phase that follows it; the last has
/// no dependency.
pub open spec fn phases_linked(phases: Seq<PhaseInstance>) -> bool {
    forall|k: int|
        0 <= k < phases.len() ==> (#[trigger] phases[k]).dependencies@ == if k + 1 < phases.len() {
            seq![phases[k + 1].id]
        } else {
            Seq::<usize>::empty()
        }
}

/// `a` and `b` agree in every field but their dependencies.
pub open spec fn same_but_dependencies(a: PhaseInstance, b: PhaseInstance) -> bool {
    &&& a.id == b.id
    &&& a.description == b.description
    &&& a.color_hex == b.color_hex
    &&& a.duration == b.duration
    &&& a.start_date == b.start_date
    &&& a.resources_used == b.resources_used
}

/// Make each phase depend on the phase that follows it, walking from the last phase back
/// to the first.
pub fn link_dependencies(phases: Vec<PhaseInstance>) -> (r: Vec<PhaseInstance>)
    requires
        forall|k: int| 0 <= k < phases@.len() ==> (#[trigger] phases@[k]).dependencies@.len() == 0,
    ensures
        r@.len() == phases@.len(),
        forall|k: int| 0 <= k < r@.len() ==> same_but_dependencies(#[trigger] r@[k], phases@[k]),
        phases_linked(r@),
{
    let ghost orig = phases@;
    let n = phases.len();
    let mut rest = phases;
    let mut reversed: Vec<PhaseInstance> = Vec::new();
    let mut next_id: Option<usize> = None;
    while rest.len() > 0
        invariant
            n == orig.len(),
            rest@ == orig.subrange(0, rest@.len() as int),
            reversed@.len() + rest@.len() == n,
            forall|k: int| 0 <= k < orig.len() ==> (#[trigger] orig[k]).dependencies@.len() == 0,
            forall|m: int|
                0 <= m < reversed@.len() ==> same_but_dependencies(#[trigger] reversed@[m], orig[n - 1 - m]),
            forall|m: int|
                0 <= m < reversed@.len() ==> (#[trigger] reversed@[m]).dependencies@ == if m == 0 {
                    Seq::<usize>::empty()
                } else {
                    seq![orig[n - m].id]
                },
            next_id == if reversed@.len() == 0 {
                None::<usize>
            } else {
                Some(orig[n - reversed@.len()].id)
            },
        decreases rest@.len(),
    {
        let ghost m = reversed@.len();
        let mut p = match rest.pop() {
            Some(p) => p,
            None => {
                return reversed;
            },
        };
        assert(rest@ =~= orig.subrange(0, rest@.len() as int));
        assert(p == orig[n - 1 - m]);
        match next_id {
            Some(d) => {
                p.add_dependency(d);
            },
            None => {},
        }
        next_id = Some(p.id);
        reversed.push(p);
    }
    let mut r: Vec<PhaseInstance> = Vec::new();
    while reversed.len() > 0
        invariant
            n == orig.len(),
            r@.len() + reversed@.len() == n,
            forall|m: int|
                0 <= m < reversed@.len() ==> same_but_dependencies(#[trigger] reversed@[m], orig[n - 1 - m]),
            forall|m: int|
                0 <= m < reversed@.len() ==> (#[trigger] reversed@[m]).dependencies@ == if m == 0 {
                    Seq::<usize>::empty()
                } else {
                    seq![orig[n - m].id]
                },
            forall|k: int| 0 <= k < r@.len() ==> same_but_dependencies(#[trigger] r@[k], orig[k]),
            forall|k: int|
                0 <= k < r@.len() ==> (#[trigger] r@[k]).dependencies@ == if k + 1 < n {
                    seq![orig[k + 1].id]
                } else {
                    Seq::<usize>::empty()
                },
        decreases reversed@.len(),
    {
        let p = match reversed.pop() {
            Some(p) => p,
            None => {
                return r;
            },
        };
        r.push(p);
    }
    assert forall|k: int| 0 <= k < r@.len() implies (#[trigger] r@[k]).dependencies@ == if k + 1 < r@.len() {
        seq![r@[k + 1].id]
    } else {
        Seq::<usize>::empty()
    } by {
        if k + 1 < r@.len() {
            assert(same_but_dependencies(r@[k + 1], orig[k + 1]));
        }
    }
    r
}

/// The first template whose id is `id`.
pub open spec fn template_of(templates: Seq<ProductionPhaseTemplate>, id: Seq<char>) -> ProductionPhaseTemplate {
    templates[choose|i: int| is_template_for(templates, id, i)]
}

/// The total of the durations that `specs` resolve to under their templates.
pub open spec fn specs_duration(templates: Seq<ProductionPhaseTemplate>, specs: Seq<PhaseInstanceSpec>) -> int
    decreases specs.len(),
{
    if specs.len() == 0 {
        0
    } else {
        specs_duration(templates, specs.drop_last()) + resolved_duration(
            specs.last().duration_string@,
            template_of(templates, specs.last().template@).default_duration@,
        )
    }
}

/// The latest of `floor` and every instant at which a reservation ends.
pub open spec fn latest_release(reserved: Seq<PossiblyAllocatedResource>, floor: int) -> int
    decreases reserved.len(),
{
    if reserved.len() == 0 {
        floor
    } else {
        let rest = latest_release(reserved.drop_last(), floor);
        if reserved.last().free_date > rest {
            reserved.last().free_date as int
        } else {
            rest
        }
    }
}

proof fn lemma_latest_release_bounds(reserved: Seq<PossiblyAllocatedResource>, floor: int)
    ensures
        floor <= latest_release(reserved, floor),
        forall|j: int| 0 <= j < reserved.len() ==> #[trigger] reserved[j].free_date <= latest_release(reserved, floor),
    decreases reserved.len(),
{
    if reserved.len() > 0 {
        let rest = reserved.drop_last();
        lemma_latest_release_bounds(rest, floor);
        assert forall|j: int| 0 <= j < reserved.len() implies #[trigger] reserved[j].free_date <= latest_release(
            reserved,
            floor,
        ) by {
            if j < rest.len() {
                assert(reserved[j] == rest[j]);
            }
        }
    }
}

proof fn lemma_specs_duration_grows(templates: Seq<ProductionPhaseTemplate>, specs: Seq<PhaseInstanceSpec>, k: int)
    requires
        0 <= k <= specs.len(),
    ensures
        0 <= specs_duration(templates, specs.subrange(0, k)) <= specs_duration(templates, specs),
    decreases specs.len() - k,
{
    if k < specs.len() {
        lemma_specs_duration_grows(templates, specs, k + 1);
        assert(specs.subrange(0, k + 1).drop_last() =~= specs.subrange(0, k));
    } else {
        assert(specs.subrange(0, k) =~= specs);
    }
    lemma_specs_duration_nonnegative(templates, specs.subrange(0, k));
}

proof fn lemma_specs_duration_nonnegative(templates: Seq<ProductionPhaseTemplate>, specs: Seq<PhaseInstanceSpec>)
    ensures
        specs_duration(templates, specs) >= 0,
    decreases specs.len(),
{
    if specs.len() > 0 {
        lemma_specs_duration_nonnegative(templates, specs.drop_last());
    }
}

/// Only the first template with an id is the first template with that id.
proof fn lemma_template_unique(templates: Seq<ProductionPhaseTemplate>, id: Seq<char>, i: int)
    requires
        is_template_for(templates, id, i),
    ensures
        template_of(templates, id) == templates[i],
{
    let c = choose|c: int| is_template_for(templates, id, c);
    if c < i {
        assert(templates[c].id@ != id);
    } else if c > i {
        assert(templates[i].id@ != id);
    }
}

/// An earliest release asked for no later than `b`, among reservations that end by `b`,
/// is no later than `b`.
proof fn lemma_release_bounded(reserved: Seq<PossiblyAllocatedResource>, k: (nat, Seq<char>), c: int, b: int)
    requires
        c <= b,
        forall|j: int| 0 <= j < reserved.len() ==> #[trigger] reserved[j].free_date <= b,
    ensures
        earliest_released(reserved, k, c) matches Some(e) ==> e <= b,
    decreases reserved.len(),
{
    if reserved.len() > 0 {
        let rest = reserved.drop_last();
        assert forall|j: int| 0 <= j < rest.len() implies #[trigger] rest[j].free_date <= b by {
            assert(rest[j] == reserved[j]);
        }
        lemma_release_bounded(rest, k, c, b);
        assert(reserved[reserved.len() - 1].free_date <= b);
    }
}

/// A phase asked for no later than `b`, when every reservation ends by `b`, starts no
/// later than `b`.
pub proof fn lemma_pushed_start_bounded(t: ResourceTracker, kinds: Seq<ResourceType>, cursor: int, b: int)
    requires
        cursor <= b,
        t.releases_by(b),
    ensures
        pushed_start(t, kinds, cursor) matches Some(s) ==> s <= b,
    decreases kinds.len(),
{
    if kinds.len() > 0 {
        lemma_pushed_start_bounded(t, kinds.drop_last(), cursor, b);
        match pushed_start(t, kinds.drop_last(), cursor) {
            Some(c) => {
                lemma_release_bounded(t.reserved(), kinds.last()@, c, b);
            },
            None => {},
        }
    }
}

/// The trackers `ts` lead from phase to phase: phase `k` starts where the kinds of its
/// template push it from its cursor in `ts[k]`, and its reservations lead to `ts[k + 1]`.
pub open spec fn phases_in_turn(
    ts: Seq<ResourceTracker>,
    phases: Seq<PhaseInstance>,
    templates: Seq<ProductionPhaseTemplate>,
    specs: Seq<PhaseInstanceSpec>,
    start: int,
) -> bool {
    &&& ts.len() == phases.len() + 1
    &&& forall|k: int|
        0 <= k < phases.len() ==> {
            &&& pushed_start(
                ts[k],
                template_of(templates, specs[k].template@).resources_needed@,
                cursor_at(phases, start, k),
            ) == Some((#[trigger] phases[k]).start_date as int)
            &&& phase_reserves(
                ts[k],
                ts[k + 1],
                template_of(templates, specs[k].template@).resources_needed@,
                phases[k].start_date as int,
                (phases[k].start_date + phases[k].duration) as i64,
                phases[k].resources_used@,
            )
        }
}

/// `after` is `before` once the phases of a recipe, asked for from `start` on, have been
/// scheduled in turn.
pub open spec fn phases_from(
    before: ResourceTracker,
    after: ResourceTracker,
    phases: Seq<PhaseInstance>,
    templates: Seq<ProductionPhaseTemplate>,
    specs: Seq<PhaseInstanceSpec>,
    start: int,
) -> bool {
    exists|ts: Seq<ResourceTracker>|
        #![trigger phases_in_turn(ts, phases, templates, specs, start)]
        phases_in_turn(ts, phases, templates, specs, start) && ts[0] == before && ts[phases.len() as int] == after
}

/// Build the phases of a recipe, in the order of its phase specs, from `start` on. Ids are
/// taken one at a time after `*last_id`, which is left at the last id taken. Every template
/// reference is checked before any phase is scheduled.
#[verifier::rlimit(40)]
pub fn build_phases(
    tracker: &mut ResourceTracker,
    last_id: &mut usize,
    templates: &Vec<ProductionPhaseTemplate>,
    recipe_spec: &RecipeSpec,
    start: i64,
) -> (r: Result<Vec<PhaseInstance>, ScheduleError>)
    requires
        old(tracker).wf(),
    ensures
        final(tracker).wf(),
        r matches Err(ScheduleError::UnknownTemplate(_)) <==> !all_templates_known(
            templates@,
            recipe_spec.phase_specs@,
        ),
        r matches Err(e) ==> !(e matches ScheduleError::DuplicateResourceId(_)) && !(e matches ScheduleError::UnreadableStartDate(_)),
        all_templates_known(templates@, recipe_spec.phase_specs@) && kinds_ready(*old(tracker), templates@) ==> (r is Ok
            || r matches Err(ScheduleError::OutOfRange)),
        forall|k: (nat, Seq<char>)| #[trigger] old(tracker).has_kind(k) ==> final(tracker).has_kind(k),
        forall|x: Resource| #[trigger] final(tracker).holds(x) <==> old(tracker).holds(x),
        all_templates_known(templates@, recipe_spec.phase_specs@) && *old(last_id) + recipe_spec.phase_specs@.len()
            <= usize::MAX && latest_release(old(tracker).reserved(), start as int) + specs_duration(
            templates@,
            recipe_spec.phase_specs@,
        ) <= i64::MAX ==> !(r matches Err(ScheduleError::OutOfRange)),
        all_templates_known(templates@, recipe_spec.phase_specs@) && kinds_ready(*old(tracker), templates@)
            && *old(last_id) + recipe_spec.phase_specs@.len() <= usize::MAX && latest_release(
            old(tracker).reserved(),
            start as int,
        ) + specs_duration(templates@, recipe_spec.phase_specs@) <= i64::MAX ==> r is Ok,
        r is Ok ==> final(tracker).releases_by(
            latest_release(old(tracker).reserved(), start as int) + specs_duration(templates@, recipe_spec.phase_specs@),
        ),
        r matches Ok(phases) ==> {
            &&& phases@.len() == recipe_spec.phase_specs@.len()
            &&& phases_from(*old(tracker), *final(tracker), phases@, templates@, recipe_spec.phase_specs@, start as int)
            &&& forall|k: int, i: int|
                0 <= k < phases@.len() && 0 <= i < phases@[k].resources_used@.len() ==> old(tracker).holds(
                    #[trigger] phases@[k].resources_used@[i],
                )
            &&& phases_scheduled(
                phases@,
                phases@.len() as int,
                templates@,
                recipe_spec.phase_specs@,
                recipe_spec.color_hex@,
                start as int,
                *old(last_id) + 1,
            )
            &&& phases_linked(phases@)
            &&& *final(last_id) == *old(last_id) + phases@.len()
        },
{
    let specs = &recipe_spec.phase_specs;
    let mut k: usize = 0;
    while k < specs.len()
        invariant
            *tracker == *old(tracker),
            tracker.wf(),
            specs == &recipe_spec.phase_specs,
            k <= specs@.len(),
            forall|l: int| 0 <= l < k ==> has_template(templates@, #[trigger] specs@[l].template@),
        decreases specs@.len() - k,
    {
        if find_template(templates, &specs[k].template).is_none() {
            return Err(ScheduleError::UnknownTemplate(specs[k].template.clone()));
        }
        k = k + 1;
    }
    let ghost first_id = *last_id + 1;
    let ghost bound = latest_release(tracker.reserved(), start as int);
    let ghost mut ts: Seq<ResourceTracker> = seq![*tracker];
    proof {
        lemma_latest_release_bounds(tracker.reserved(), start as int);
        assert(specs@.subrange(0, 0) =~= Seq::<PhaseInstanceSpec>::empty());
    }
    let mut phases: Vec<PhaseInstance> = Vec::new();
    let mut cursor = start;
    let mut k: usize = 0;
    while k < specs.len()
        invariant
            tracker.wf(),
            all_templates_known(templates@, specs@),
            specs == &recipe_spec.phase_specs,
            k <= specs@.len(),
            phases@.len() == k,
            first_id == *old(last_id) + 1,
            *last_id == *old(last_id) + k,
            cursor == cursor_at(phases@, start as int, k as int),
            phases_scheduled(phases@, k as int, templates@, specs@, recipe_spec.color_hex@, start as int, first_id),
            forall|l: int| 0 <= l < k ==> (#[trigger] phases@[l]).dependencies@.len() == 0,
            forall|q: (nat, Seq<char>)| #[trigger] old(tracker).has_kind(q) ==> tracker.has_kind(q),
            kinds_ready(*old(tracker), templates@) ==> kinds_ready(*tracker, templates@),
            forall|x: Resource| #[trigger] tracker.holds(x) <==> old(tracker).holds(x),
            forall|l: int, i: int|
                0 <= l < k && 0 <= i < phases@[l].resources_used@.len() ==> old(tracker).holds(
                    #[trigger] phases@[l].resources_used@[i],
                ),
            cursor <= bound + specs_duration(templates@, specs@.subrange(0, k as int)),
            tracker.releases_by(bound + specs_duration(templates@, specs@.subrange(0, k as int))),
            bound == latest_release(old(tracker).reserved(), start as int),
            phases_in_turn(ts, phases@, templates@, specs@, start as int),
            ts[0] == *old(tracker),
            ts[k as int] == *tracker,
        decreases specs@.len() - k,
    {
        let spec = &specs[k];
        assert(has_template(templates@, specs@[k as int].template@));
        let ti = match find_template(templates, &spec.template) {
            Some(ti) => ti,
            None => {
                return Err(ScheduleError::UnknownTemplate(spec.template.clone()));
            },
        };
        let template = &templates[ti];
        if *last_id == usize::MAX {
            return Err(ScheduleError::OutOfRange);
        }
        *last_id = *last_id + 1;
        let id = *last_id;
        let duration = spec.resolve_duration(template);
        let description = spec.resolve_description(template);
        proof {
            if kinds_ready(*tracker, templates@) {
                assert(distinct_kinds(templates@[ti as int].resources_needed@));
                lemma_tracked_kinds_have_start(*tracker, template.resources_needed@, cursor as int);
            }
        }
        let ghost tracker_before = *tracker;
        let ghost sum_before = specs_duration(templates@, specs@.subrange(0, k as int));
        proof {
            lemma_specs_duration_grows(templates@, specs@, k as int);
            lemma_specs_duration_grows(templates@, specs@, k + 1);
            assert(specs@.subrange(0, k + 1).drop_last() =~= specs@.subrange(0, k as int));
            lemma_template_unique(templates@, specs@[k as int].template@, ti as int);
            lemma_pushed_start_bounded(*tracker, template.resources_needed@, cursor as int, bound + sum_before);
            lemma_pushed_start_not_earlier(*tracker, template.resources_needed@, cursor as int);
        }
        let (phase_start, used) = match schedule_phase(
            tracker,
            &template.resources_needed,
            cursor,
            duration,
            &description,
        ) {
            Ok(x) => x,
            Err(e) => {
                return Err(e);
            },
        };
        proof {
            if kinds_ready(tracker_before, templates@) {
                assert forall|i: int| 0 <= i < templates@.len() implies {
                    &&& distinct_kinds((#[trigger] templates@[i]).resources_needed@)
                    &&& forall|j: int|
                        0 <= j < templates@[i].resources_needed@.len() ==> tracker.has_kind(
                            #[trigger] templates@[i].resources_needed@[j]@,
                        )
                } by {
                    assert forall|j: int| 0 <= j < templates@[i].resources_needed@.len() implies tracker.has_kind(
                        #[trigger] templates@[i].resources_needed@[j]@,
                    ) by {
                        assert(tracker_before.has_kind(templates@[i].resources_needed@[j]@));
                    }
                }
            }
        }
        proof {
            if template.resources_needed@.len() == 0 {
                assert(template.resources_needed@ =~= Seq::<ResourceType>::empty());
            }
        }
        proof {
            let b1 = bound + specs_duration(templates@, specs@.subrange(0, k + 1));
            assert(tracker_before.releases_by(b1)) by {
                assert forall|j: int| 0 <= j < tracker_before.reserved().len() implies #[trigger] tracker_before.reserved()[j].free_date
                    <= b1 by {
                    assert(tracker_before.reserved()[j].free_date <= bound + sum_before);
                }
            }
        }
        let ghost before = phases@;
        let ghost used_view = used@;
        let ghost ts_before = ts;
        phases.push(PhaseInstance::new(id, description, recipe_spec.color_hex.clone(), duration, phase_start, used));
        proof {
            ts = ts.push(*tracker);
            assert forall|l: int| 0 <= l < k + 1 implies {
                &&& pushed_start(
                    ts[l],
                    template_of(templates@, specs@[l].template@).resources_needed@,
                    cursor_at(phases@, start as int, l),
                ) == Some((#[trigger] phases@[l]).start_date as int)
                &&& phase_reserves(
                    ts[l],
                    ts[l + 1],
                    template_of(templates@, specs@[l].template@).resources_needed@,
                    phases@[l].start_date as int,
                    (phases@[l].start_date + phases@[l].duration) as i64,
                    phases@[l].resources_used@,
                )
            } by {
                if l < k {
                    assert(phases@[l] == before[l]);
                    assert(cursor_at(phases@, start as int, l) == cursor_at(before, start as int, l));
                    assert(ts[l] == ts_before[l]);
                    assert(ts[l + 1] == ts_before[l + 1]);
                } else {
                    assert(ts[l] == tracker_before);
                }
            }
        }
        proof {
            assert forall|l: int, i: int|
                0 <= l < k + 1 && 0 <= i < phases@[l].resources_used@.len() implies old(tracker).holds(
                #[trigger] phases@[l].resources_used@[i],
            ) by {
                if l < k {
                    assert(phases@[l] == before[l]);
                    assert(old(tracker).holds(before[l].resources_used@[i]));
                } else {
                    assert(phases@[l].resources_used@ == used_view);
                    assert(tracker_before.holds(used_view[i]));
                    assert(old(tracker).holds(used_view[i]));
                }
            }
        }
        proof {
            assert forall|l: int, i: int|
                0 <= l < k + 1 && #[trigger] is_template_for(templates@, specs@[l].template@, i) implies phase_follows(
                phases@[l],
                specs@[l],
                templates@[i],
                recipe_spec.color_hex@,
                first_id + l,
                cursor_at(phases@, start as int, l),
            ) by {
                assert(phases@[l] == if l < k { before[l] } else { phases@[k as int] });
                if l < k {
                    assert(cursor_at(phases@, start as int, l) == cursor_at(before, start as int, l));
                } else {
                    if i != ti {
                        if i < ti {
                            assert(templates@[i].id@ != specs@[l].template@);
                        } else {
                            assert(templates@[ti as int].id@ != specs@[l].template@);
                        }
                    }
                }
            }
        }
        cursor = phase_start + duration;
        k = k + 1;
    }
    assert(specs@.subrange(0, k as int) =~= specs@);
    let linked = link_dependencies(phases);
    proof {
        assert forall|l: int| 0 <= l < linked@.len() implies {
            &&& pushed_start(
                ts[l],
                template_of(templates@, specs@[l].template@).resources_needed@,
                cursor_at(linked@, start as int, l),
            ) == Some((#[trigger] linked@[l]).start_date as int)
            &&& phase_reserves(
                ts[l],
                ts[l + 1],
                template_of(templates@, specs@[l].template@).resources_needed@,
                linked@[l].start_date as int,
                (linked@[l].start_date + linked@[l].duration) as i64,
                linked@[l].resources_used@,
            )
        } by {
            assert(same_but_dependencies(linked@[l], phases@[l]));
            assert(phases_in_turn(ts, phases@, templates@, specs@, start as int));
            assert(pushed_start(
                ts[l],
                template_of(templates@, specs@[l].template@).resources_needed@,
                cursor_at(phases@, start as int, l),
            ) == Some(phases@[l].start_date as int));
            if l > 0 {
                assert(same_but_dependencies(linked@[l - 1], phases@[l - 1]));
            }
        }
        assert(phases_in_turn(ts, linked@, templates@, specs@, start as int));
    }
    Ok(linked)
}

/// The overall timeline of a production schedule: how it is counted, and the start that
/// recipes without one of their own take.
#[derive(Clone, Debug)]
pub struct ProductionTimeline {
    pub configuration: String,
    pub start: String,
}

impl ProductionTimeline {
    /// The timeline's start, in seconds, if its start text is readable.
    pub fn start_date(&self) -> (r: Option<i64>)
        ensures
            seconds_of(r) == start_of(self.start@),
    {
        parse_start(self.start.as_str())
    }
}

/// The start of a recipe: its own start when it has a readable one, else the timeline's.
pub open spec fn recipe_start(spec: RecipeSpec, timeline_start: Option<int>) -> Option<int> {
    match spec.start_string {
        Some(s) => match start_of(s@) {
            Some(t) => Some(t),
            None => timeline_start,
        },
        None => timeline_start,
    }
}

/// Whether `x` is one of the declared resources.
pub open spec fn is_declared(resources: Seq<Resource>, x: Resource) -> bool {
    exists|i: int| 0 <= i < resources.len() && resources[i] == x
}

/// Whether some declared resource is of kind `k`.
pub open spec fn kind_declared(resources: Seq<Resource>, k: (nat, Seq<char>)) -> bool {
    exists|i: int| 0 <= i < resources.len() && resources[i].resource_type@ == k
}

/// Every kind that the template of some phase of some recipe needs is declared.
pub open spec fn needed_kinds_declared(
    resources: Seq<Resource>,
    templates: Seq<ProductionPhaseTemplate>,
    specs: Seq<RecipeSpec>,
) -> bool {
    forall|k: int, p: int, j: int|
        0 <= k < specs.len() && 0 <= p < specs[k].phase_specs@.len() && 0 <= j < template_of(
            templates,
            specs[k].phase_specs@[p].template@,
        ).resources_needed@.len() ==> kind_declared(
            resources,
            (#[trigger] template_of(templates, specs[k].phase_specs@[p].template@).resources_needed@[j])@,
        )
}

/// Whether the declared resources have pairwise distinct ids.
pub open spec fn ids_distinct(resources: Seq<Resource>) -> bool {
    forall|i: int, j: int| 0 <= i < j < resources.len() ==> resources[i].id != resources[j].id
}

/// Whether every phase of every recipe refers to a template that exists.
pub open spec fn every_template_known(templates: Seq<ProductionPhaseTemplate>, specs: Seq<RecipeSpec>) -> bool {
    forall|k: int| 0 <= k < specs.len() ==> all_templates_known(templates, #[trigger] specs[k].phase_specs@)
}

/// Every template needs pairwise different kinds, each of them declared.
pub open spec fn kinds_declared(resources: Seq<Resource>, templates: Seq<ProductionPhaseTemplate>) -> bool {
    forall|i: int|
        0 <= i < templates.len() ==> {
            &&& distinct_kinds((#[trigger] templates[i]).resources_needed@)
            &&& forall|j: int|
                0 <= j < templates[i].resources_needed@.len() ==> exists|l: int|
                    0 <= l < resources.len() && resources[l].resource_type@ == (
                    #[trigger] templates[i].resources_needed@[j])@
        }
}

/// Recipe `r` is the recipe that `spec` describes, started at its resolved start.
pub open spec fn recipe_follows(
    r: Recipe,
    spec: RecipeSpec,
    templates: Seq<ProductionPhaseTemplate>,
    timeline_start: Option<int>,
) -> bool {
    &&& r.name == spec.name
    &&& r.color@ == spec.color_hex@
    &&& recipe_start(spec, timeline_start) == Some(r.start_date as int)
    &&& r.phases@.len() == spec.phase_specs@.len()
    &&& phases_scheduled(
        r.phases@,
        r.phases@.len() as int,
        templates,
        spec.phase_specs@,
        spec.color_hex@,
        r.start_date as int,
        r.id + 1,
    )
    &&& phases_linked(r.phases@)
}

/// The recipes are those that `specs` describe, in order; ids are handed out from 1 on,
/// to each recipe and then to each of its phases.
pub open spec fn recipes_built(
    recipes: Seq<Recipe>,
    templates: Seq<ProductionPhaseTemplate>,
    specs: Seq<RecipeSpec>,
    timeline_start: Option<int>,
) -> bool {
    &&& recipes.len() == specs.len()
    &&& forall|k: int|
        0 <= k < recipes.len() ==> recipe_follows(#[trigger] recipes[k], specs[k], templates, timeline_start)
    &&& recipes.len() > 0 ==> recipes[0].id == 1
    &&& forall|k: int|
        0 <= k < recipes.len() - 1 ==> #[trigger] recipes[k + 1].id == recipes[k].id + recipes[k].phases@.len() + 1
}

/// The latest start among the recipes whose start is readable.
pub open spec fn latest_start(specs: Seq<RecipeSpec>, timeline_start: Option<int>) -> int
    decreases specs.len(),
{
    if specs.len() == 0 {
        i64::MIN as int
    } else {
        let rest = latest_start(specs.drop_last(), timeline_start);
        match recipe_start(specs.last(), timeline_start) {
            Some(t) => if t > rest {
                t
            } else {
                rest
            },
            None => rest,
        }
    }
}

/// The total of the resolved durations of every phase of every recipe.
pub open spec fn all_duration(templates: Seq<ProductionPhaseTemplate>, specs: Seq<RecipeSpec>) -> int
    decreases specs.len(),
{
    if specs.len() == 0 {
        0
    } else {
        all_duration(templates, specs.drop_last()) + specs_duration(templates, specs.last().phase_specs@)
    }
}

/// The number of ids that the recipes take: one per recipe and one per phase.
pub open spec fn id_count(specs: Seq<RecipeSpec>) -> int
    decreases specs.len(),
{
    if specs.len() == 0 {
        0
    } else {
        id_count(specs.drop_last()) + 1 + specs.last().phase_specs@.len()
    }
}

proof fn lemma_latest_start_bounds(specs: Seq<RecipeSpec>, timeline_start: Option<int>)
    ensures
        forall|k: int|
            0 <= k < specs.len() ==> (recipe_start(#[trigger] specs[k], timeline_start) matches Some(t) ==> t
                <= latest_start(specs, timeline_start)),
    decreases specs.len(),
{
    if specs.len() > 0 {
        let rest = specs.drop_last();
        lemma_latest_start_bounds(rest, timeline_start);
        assert forall|k: int| 0 <= k < specs.len() implies (recipe_start(#[trigger] specs[k], timeline_start) matches Some(
            t,
        ) ==> t <= latest_start(specs, timeline_start)) by {
            if k < rest.len() {
                assert(specs[k] == rest[k]);
            }
        }
    }
}

proof fn lemma_recipe_sums_grow(templates: Seq<ProductionPhaseTemplate>, specs: Seq<RecipeSpec>, k: int)
    requires
        0 <= k <= specs.len(),
    ensures
        0 <= all_duration(templates, specs.subrange(0, k)) <= all_duration(templates, specs),
        0 <= id_count(specs.subrange(0, k)) <= id_count(specs),
    decreases specs.len() - k,
{
    if k < specs.len() {
        lemma_recipe_sums_grow(templates, specs, k + 1);
        assert(specs.subrange(0, k + 1).drop_last() =~= specs.subrange(0, k));
        lemma_specs_duration_nonnegative(templates, specs[k].phase_specs@);
    } else {
        assert(specs.subrange(0, k) =~= specs);
    }
    lemma_recipe_sums_nonnegative(templates, specs.subrange(0, k));
}

proof fn lemma_recipe_sums_nonnegative(templates: Seq<ProductionPhaseTemplate>, specs: Seq<RecipeSpec>)
    ensures
        all_duration(templates, specs) >= 0,
        id_count(specs) >= 0,
    decreases specs.len(),
{
    if specs.len() > 0 {
        lemma_recipe_sums_nonnegative(templates, specs.drop_last());
        lemma_specs_duration_nonnegative(templates, specs.last().phase_specs@);
    }
}

/// When every reservation ends by `b` and `floor <= b`, the latest release is by `b`.
proof fn lemma_latest_release_at_most(reserved: Seq<PossiblyAllocatedResource>, floor: int, b: int)
    requires
        floor <= b,
        forall|j: int| 0 <= j < reserved.len() ==> #[trigger] reserved[j].free_date <= b,
    ensures
        latest_release(reserved, floor) <= b,
    decreases reserved.len(),
{
    if reserved.len() > 0 {
        let rest = reserved.drop_last();
        assert forall|j: int| 0 <= j < rest.len() implies #[trigger] rest[j].free_date <= b by {
            assert(rest[j] == reserved[j]);
        }
        lemma_latest_release_at_most(rest, floor, b);
        assert(reserved[reserved.len() - 1].free_date <= b);
    }
}

/// The trackers `ts` lead from recipe to recipe: the phases of recipe `k` are scheduled in
/// turn from `ts[k]`, leading to `ts[k + 1]`.
pub open spec fn recipes_in_turn(
    ts: Seq<ResourceTracker>,
    recipes: Seq<Recipe>,
    templates: Seq<ProductionPhaseTemplate>,
    specs: Seq<RecipeSpec>,
) -> bool {
    &&& ts.len() == recipes.len() + 1
    &&& forall|k: int|
        0 <= k < recipes.len() ==> phases_from(
            ts[k],
            ts[k + 1],
            (#[trigger] recipes[k]).phases@,
            templates,
            specs[k].phase_specs@,
            recipes[k].start_date as int,
        )
}

/// `after` is `before` once the recipes have been scheduled one after another, in order.
pub open spec fn recipes_from(
    before: ResourceTracker,
    after: ResourceTracker,
    recipes: Seq<Recipe>,
    templates: Seq<ProductionPhaseTemplate>,
    specs: Seq<RecipeSpec>,
) -> bool {
    exists|ts: Seq<ResourceTracker>|
        #![trigger recipes_in_turn(ts, recipes, templates, specs)]
        recipes_in_turn(ts, recipes, templates, specs) && ts[0] == before && ts[recipes.len() as int] == after
}

/// A production plan: phase templates, resources and recipes, and the schedule built
/// from them.
pub struct ProductionSchedule {
    pub name: String,
    pub id: usize,
    pub timeline: ProductionTimeline,
    pub phase_templates: Vec<ProductionPhaseTemplate>,
    /// The declared resources, kept as declared; the tracker holds their state.
    pub resources: Vec<Resource>,
    /// The recipes as last built.
    pub recipes: Vec<Recipe>,
    pub recipe_specs: Vec<RecipeSpec>,
    /// The last id handed out to a recipe or a phase.
    pub last_id_used: usize,
    pub tracker: ResourceTracker,
}

impl ProductionSchedule {
    /// A plan that has not been scheduled yet: it has no recipes until `init` runs.
    pub fn new(
        name: String,
        id: usize,
        timeline: ProductionTimeline,
        phase_templates: Vec<ProductionPhaseTemplate>,
        resources: Vec<Resource>,
        recipe_specs: Vec<RecipeSpec>,
    ) -> (r: ProductionSchedule)
        ensures
            r.name == name,
            r.id == id,
            r.timeline == timeline,
            r.phase_templates == phase_templates,
            r.resources@ == resources@,
            r.recipe_specs == recipe_specs,
            r.recipes@ == Seq::<Recipe>::empty(),
            r.last_id_used == 0,
            r.tracker.free() == Seq::<Resource>::empty(),
            r.tracker.reserved() == Seq::<PossiblyAllocatedResource>::empty(),
    {
        ProductionSchedule {
            name,
            id,
            timeline,
            phase_templates,
            resources,
            recipes: Vec::new(),
            recipe_specs,
            last_id_used: 0,
            tracker: ResourceTracker::new(),
        }
    }

    /// A copy of the declared resources, in the order they were declared.
    pub fn resources(&self) -> (r: Vec<Resource>)
        ensures
            r@ == self.resources@,
    {
        let mut r: Vec<Resource> = Vec::new();
        let mut i: usize = 0;
        while i < self.resources.len()
            invariant
                i <= self.resources@.len(),
                r@ == self.resources@.subrange(0, i as int),
            decreases self.resources@.len() - i,
        {
            r.push(self.resources[i].copy_resource());
            assert(r@ =~= self.resources@.subrange(0, i + 1));
            i = i + 1;
        }
        assert(self.resources@.subrange(0, i as int) =~= self.resources@);
        r
    }

    /// The first template whose id is `id`.
    pub fn get_phase_by_id(&self, id: &String) -> (r: Option<&ProductionPhaseTemplate>)
        ensures
            r is None <==> !has_template(self.phase_templates@, id@),
            r matches Some(t) ==> exists|i: int|
                is_template_for(self.phase_templates@, id@, i) && *t == self.phase_templates@[i],
    {
        match find_template(&self.phase_templates, id) {
            Some(i) => Some(&self.phase_templates[i]),
            None => None,
        }
    }

    /// A copy of the first declared resource whose id is `id`.
    pub fn get_resource_by_id(&self, id: usize) -> (r: Option<Resource>)
        ensures
            r is None <==> forall|i: int| 0 <= i < self.resources@.len() ==> self.resources@[i].id != id,
            r matches Some(res) ==> exists|i: int|
                0 <= i < self.resources@.len() && self.resources@[i] == res && res.id == id && forall|j: int|
                    0 <= j < i ==> #[trigger] self.resources@[j].id != id,
    {
        let mut i: usize = 0;
        while i < self.resources.len()
            invariant
                i <= self.resources@.len(),
                forall|j: int| 0 <= j < i ==> #[trigger] self.resources@[j].id != id,
            decreases self.resources@.len() - i,
        {
            if self.resources[i].id == id {
                return Some(self.resources[i].copy_resource());
            }
            i = i + 1;
        }
        None
    }

    /// A copy of the first declared resource of the given kind.
    pub fn get_available_resource_by_type(&self, resource_type: &ResourceType) -> (r: Option<Resource>)
        ensures
            r is None <==> forall|i: int|
                0 <= i < self.resources@.len() ==> self.resources@[i].resource_type@ != resource_type@,
            r matches Some(res) ==> exists|i: int|
                0 <= i < self.resources@.len() && self.resources@[i] == res && res.resource_type@ == resource_type@
                    && forall|j: int| 0 <= j < i ==> #[trigger] self.resources@[j].resource_type@ != resource_type@,
    {
        let mut i: usize = 0;
        while i < self.resources.len()
            invariant
                i <= self.resources@.len(),
                forall|j: int| 0 <= j < i ==> #[trigger] self.resources@[j].resource_type@ != resource_type@,
            decreases self.resources@.len() - i,
        {
            if self.resources[i].resource_type.same_as(resource_type) {
                return Some(self.resources[i].copy_resource());
            }
            i = i + 1;
        }
        None
    }

    /// The first built recipe whose name is `name`.
    pub fn get_recipe_by_name(&self, name: &String) -> (r: Option<&Recipe>)
        ensures
            r is None <==> forall|i: int| 0 <= i < self.recipes@.len() ==> self.recipes@[i].name@ != name@,
            r matches Some(rec) ==> exists|i: int|
                0 <= i < self.recipes@.len() && self.recipes@[i] == *rec && rec.name@ == name@ && forall|j: int|
                    0 <= j < i ==> #[trigger] self.recipes@[j].name@ != name@,
    {
        let mut i: usize = 0;
        while i < self.recipes.len()
            invariant
                i <= self.recipes@.len(),
                forall|j: int| 0 <= j < i ==> #[trigger] self.recipes@[j].name@ != name@,
            decreases self.recipes@.len() - i,
        {
            if self.recipes[i].name.eq(name) {
                return Some(&self.recipes[i]);
            }
            i = i + 1;
        }
        None
    }

    /// The built recipes, in the order of their specs.
    pub fn get_recipe_iterator(&self) -> (r: &[Recipe])
        ensures
            r@ == self.recipes@,
    {
        self.recipes.as_slice()
    }

    /// Build the schedule: track every declared resource, settle each recipe's start, and
    /// schedule the recipes in order, each phase in order. The checks on templates, on
    /// resource ids and on starts come first, in that order, before anything is scheduled.
    pub fn init(&mut self) -> (r: Result<(), ScheduleError>)
        ensures
            final(self).name == old(self).name,
            final(self).id == old(self).id,
            final(self).timeline == old(self).timeline,
            final(self).phase_templates == old(self).phase_templates,
            final(self).resources@ == old(self).resources@,
            r matches Err(ScheduleError::UnknownTemplate(_)) <==> !every_template_known(
                old(self).phase_templates@,
                old(self).recipe_specs@,
            ),
            every_template_known(old(self).phase_templates@, old(self).recipe_specs@) ==> (r matches Err(
                ScheduleError::DuplicateResourceId(_),
            ) <==> !ids_distinct(old(self).resources@)),
            every_template_known(old(self).phase_templates@, old(self).recipe_specs@) && ids_distinct(
                old(self).resources@,
            ) ==> (r matches Err(ScheduleError::UnreadableStartDate(_)) <==> exists|k: int|
                0 <= k < old(self).recipe_specs@.len() && recipe_start(
                    #[trigger] old(self).recipe_specs@[k],
                    start_of(old(self).timeline.start@),
                ) is None),
            r is Ok ==> recipes_built(
                final(self).recipes@,
                old(self).phase_templates@,
                old(self).recipe_specs@,
                start_of(old(self).timeline.start@),
            ),
            every_template_known(old(self).phase_templates@, old(self).recipe_specs@) && ids_distinct(
                old(self).resources@,
            ) && (forall|k: int|
                0 <= k < old(self).recipe_specs@.len() ==> recipe_start(
                    #[trigger] old(self).recipe_specs@[k],
                    start_of(old(self).timeline.start@),
                ) is Some) && kinds_declared(old(self).resources@, old(self).phase_templates@) ==> (r is Ok
                || r matches Err(ScheduleError::OutOfRange)),
            every_template_known(old(self).phase_templates@, old(self).recipe_specs@) && ids_distinct(
                old(self).resources@,
            ) && (forall|k: int|
                0 <= k < old(self).recipe_specs@.len() ==> recipe_start(
                    #[trigger] old(self).recipe_specs@[k],
                    start_of(old(self).timeline.start@),
                ) is Some) && kinds_declared(old(self).resources@, old(self).phase_templates@) && id_count(
                old(self).recipe_specs@,
            ) <= usize::MAX && latest_start(old(self).recipe_specs@, start_of(old(self).timeline.start@))
                + all_duration(old(self).phase_templates@, old(self).recipe_specs@) <= i64::MAX ==> r is Ok,
            final(self).recipe_specs == old(self).recipe_specs,
            r is Ok ==> needed_kinds_declared(old(self).resources@, old(self).phase_templates@, old(self).recipe_specs@),
            r is Ok ==> exists|t: ResourceTracker|
                t.free() == old(self).resources@ && t.reserved() == Seq::<PossiblyAllocatedResource>::empty() && #[trigger] recipes_from(
                    t,
                    final(self).tracker,
                    final(self).recipes@,
                    old(self).phase_templates@,
                    old(self).recipe_specs@,
                ),
            r is Ok ==> forall|x: Resource| #[trigger] final(self).tracker.holds(x) <==> is_declared(old(self).resources@, x),
            r is Ok ==> forall|k: int, p: int, i: int|
                0 <= k < final(self).recipes@.len() && 0 <= p < final(self).recipes@[k].phases@.len() && 0 <= i
                    < final(self).recipes@[k].phases@[p].resources_used@.len() ==> is_declared(
                    old(self).resources@,
                    #[trigger] final(self).recipes@[k].phases@[p].resources_used@[i],
                ),
    {
        let mut k: usize = 0;
        while k < self.recipe_specs.len()
            invariant
                *self == *old(self),
                k <= self.recipe_specs@.len(),
                forall|l: int|
                    0 <= l < k ==> all_templates_known(self.phase_templates@, #[trigger] self.recipe_specs@[l].phase_specs@),
            decreases self.recipe_specs@.len() - k,
        {
            let specs = &self.recipe_specs[k].phase_specs;
            let mut m: usize = 0;
            while m < specs.len()
                invariant
                    *self == *old(self),
                    k < self.recipe_specs@.len(),
                    specs == &self.recipe_specs@[k as int].phase_specs,
                    m <= specs@.len(),
                    forall|l: int| 0 <= l < m ==> has_template(self.phase_templates@, #[trigger] specs@[l].template@),
                decreases specs@.len() - m,
            {
                if find_template(&self.phase_templates, &specs[m].template).is_none() {
                    return Err(ScheduleError::UnknownTemplate(specs[m].template.clone()));
                }
                m = m + 1;
            }
            k = k + 1;
        }
        let mut tracker = ResourceTracker::new();
        let mut i: usize = 0;
        while i < self.resources.len()
            invariant
                *self == *old(self),
                every_template_known(self.phase_templates@, self.recipe_specs@),
                i <= self.resources@.len(),
                tracker.wf(),
                tracker.reserved() == Seq::<PossiblyAllocatedResource>::empty(),
                tracker.free() == self.resources@.subrange(0, i as int),
                ids_distinct(self.resources@.subrange(0, i as int)),
            decreases self.resources@.len() - i,
        {
            let res = &self.resources[i];
            if tracker.is_tracked(res.id) {
                proof {
                    let w = choose|w: int| 0 <= w < tracker.free().len() && tracker.free()[w].id == res.id;
                    assert(self.resources@[w] == tracker.free()[w]);
                }
                return Err(ScheduleError::DuplicateResourceId(res.id));
            }
            proof {
                assert forall|w: int| 0 <= w < i implies #[trigger] self.resources@[w].id != res.id by {
                    assert(tracker.free()[w] == self.resources@[w]);
                }
            }
            tracker.track_resource(res.copy_resource());
            assert(tracker.free() =~= self.resources@.subrange(0, i + 1));
            i = i + 1;
        }
        assert(self.resources@.subrange(0, i as int) =~= self.resources@);
        let timeline_start = self.timeline.start_date();
        let mut starts: Vec<i64> = Vec::new();
        let mut k: usize = 0;
        while k < self.recipe_specs.len()
            invariant
                *self == *old(self),
                every_template_known(self.phase_templates@, self.recipe_specs@),
                ids_distinct(self.resources@),
                seconds_of(timeline_start) == start_of(self.timeline.start@),
                k <= self.recipe_specs@.len(),
                starts@.len() == k,
                forall|l: int|
                    0 <= l < k ==> recipe_start(#[trigger] self.recipe_specs@[l], start_of(self.timeline.start@))
                        == Some(starts@[l] as int),
            decreases self.recipe_specs@.len() - k,
        {
            let spec = &self.recipe_specs[k];
            let start = match spec.start_date() {
                Some(t) => t,
                None => match timeline_start {
                    Some(t) => t,
                    None => {
                        return Err(ScheduleError::UnreadableStartDate(spec.name.clone()));
                    },
                },
            };
            starts.push(start);
            k = k + 1;
        }
        proof {
            if kinds_declared(self.resources@, self.phase_templates@) {
                assert forall|i: int| 0 <= i < self.phase_templates@.len() implies {
                    &&& distinct_kinds((#[trigger] self.phase_templates@[i]).resources_needed@)
                    &&& forall|j: int|
                        0 <= j < self.phase_templates@[i].resources_needed@.len() ==> tracker.has_kind(
                            #[trigger] self.phase_templates@[i].resources_needed@[j]@,
                        )
                } by {
                    assert forall|j: int| 0 <= j < self.phase_templates@[i].resources_needed@.len() implies tracker.has_kind(
                        #[trigger] self.phase_templates@[i].resources_needed@[j]@,
                    ) by {
                        let q = self.phase_templates@[i].resources_needed@[j];
                        let l = choose|l: int| 0 <= l < self.resources@.len() && self.resources@[l].resource_type@ == q@;
                        assert(tracker.free()[l] == self.resources@[l]);
                    }
                }
            }
        }
        let ghost fresh = tracker;
        assert forall|x: Resource| #[trigger] fresh.holds(x) <==> is_declared(self.resources@, x) by {
            if exists|i: int| 0 <= i < self.resources@.len() && self.resources@[i] == x {
                let i = choose|i: int| 0 <= i < self.resources@.len() && self.resources@[i] == x;
                assert(tracker.free()[i] == x);
            }
        }
        self.tracker = tracker;
        self.last_id_used = 0;
        self.recipes = Vec::new();
        let r = self.rebuild_recipes_from_specs(&starts);
        proof {
            if r is Ok {
                assert forall|k: int, p: int, i: int|
                    0 <= k < self.recipes@.len() && 0 <= p < self.recipes@[k].phases@.len() && 0 <= i
                        < self.recipes@[k].phases@[p].resources_used@.len() implies is_declared(
                        self.resources@,
                        #[trigger] self.recipes@[k].phases@[p].resources_used@[i],
                    ) by {
                    assert(fresh.holds(self.recipes@[k].phases@[p].resources_used@[i]));
                }
            }
            assert(self.resources@ == old(self).resources@);
            if r is Ok {
                assert(recipes_from(fresh, self.tracker, self.recipes@, self.phase_templates@, self.recipe_specs@));
            }
            if r is Ok {
                let specs = self.recipe_specs@;
                let templates = self.phase_templates@;
                assert forall|k: int, p: int, j: int|
                    0 <= k < specs.len() && 0 <= p < specs[k].phase_specs@.len() && 0 <= j < template_of(
                        templates,
                        specs[k].phase_specs@[p].template@,
                    ).resources_needed@.len() implies kind_declared(
                    self.resources@,
                    (#[trigger] template_of(templates, specs[k].phase_specs@[p].template@).resources_needed@[j])@,
                ) by {
                    let recipe = self.recipes@[k];
                    assert(recipe_follows(recipe, specs[k], templates, start_of(self.timeline.start@)));
                    assert(all_templates_known(templates, specs[k].phase_specs@));
                    assert(has_template(templates, specs[k].phase_specs@[p].template@));
                    let i = lemma_template_found(templates, specs[k].phase_specs@[p].template@);
                    lemma_template_unique(templates, specs[k].phase_specs@[p].template@, i);
                    assert(phase_follows(
                        recipe.phases@[p],
                        specs[k].phase_specs@[p],
                        templates[i],
                        specs[k].color_hex@,
                        recipe.id + 1 + p,
                        cursor_at(recipe.phases@, recipe.start_date as int, p),
                    ));
                    let used = recipe.phases@[p].resources_used@[j];
                    assert(used.resource_type@ == templates[i].resources_needed@[j]@);
                    assert(is_declared(self.resources@, self.recipes@[k].phases@[p].resources_used@[j]));
                    let l = choose|l: int| 0 <= l < self.resources@.len() && self.resources@[l] == used;
                    assert(self.resources@[l].resource_type@ == templates[i].resources_needed@[j]@);
                }
            }
        }
        r
    }

    /// Schedule every recipe in order, the i-th from `starts[i]`, into a fresh list of
    /// recipes.
    fn rebuild_recipes_from_specs(&mut self, starts: &Vec<i64>) -> (r: Result<(), ScheduleError>)
        requires
            old(self).tracker.wf(),
            old(self).tracker.reserved() == Seq::<PossiblyAllocatedResource>::empty(),
            old(self).last_id_used == 0,
            every_template_known(old(self).phase_templates@, old(self).recipe_specs@),
            starts@.len() == old(self).recipe_specs@.len(),
            forall|l: int|
                0 <= l < starts@.len() ==> recipe_start(
                    #[trigger] old(self).recipe_specs@[l],
                    start_of(old(self).timeline.start@),
                ) == Some(starts@[l] as int),
        ensures
            kinds_ready(old(self).tracker, old(self).phase_templates@) ==> (r is Ok || r matches Err(
                ScheduleError::OutOfRange,
            )),
            final(self).name == old(self).name,
            final(self).id == old(self).id,
            final(self).timeline == old(self).timeline,
            final(self).phase_templates == old(self).phase_templates,
            final(self).recipe_specs == old(self).recipe_specs,
            final(self).resources@ == old(self).resources@,
            r matches Err(e) ==> !(e matches ScheduleError::UnknownTemplate(_)) && !(e matches ScheduleError::DuplicateResourceId(_))
                && !(e matches ScheduleError::UnreadableStartDate(_)),
            id_count(old(self).recipe_specs@) <= usize::MAX && latest_start(
                old(self).recipe_specs@,
                start_of(old(self).timeline.start@),
            ) + all_duration(old(self).phase_templates@, old(self).recipe_specs@) <= i64::MAX ==> !(r matches Err(
                ScheduleError::OutOfRange,
            )),
            forall|x: Resource| #[trigger] final(self).tracker.holds(x) <==> old(self).tracker.holds(x),
            r is Ok ==> recipes_from(
                old(self).tracker,
                final(self).tracker,
                final(self).recipes@,
                old(self).phase_templates@,
                old(self).recipe_specs@,
            ),
            r is Ok ==> forall|k: int, p: int, i: int|
                0 <= k < final(self).recipes@.len() && 0 <= p < final(self).recipes@[k].phases@.len() && 0 <= i
                    < final(self).recipes@[k].phases@[p].resources_used@.len() ==> old(self).tracker.holds(
                    #[trigger] final(self).recipes@[k].phases@[p].resources_used@[i],
                ),
            r is Ok ==> recipes_built(
                final(self).recipes@,
                old(self).phase_templates@,
                old(self).recipe_specs@,
                start_of(old(self).timeline.start@),
            ),
    {
        let mut recipes: Vec<Recipe> = Vec::new();
        let ghost latest = latest_start(self.recipe_specs@, start_of(self.timeline.start@));
        let ghost mut rts: Seq<ResourceTracker> = seq![self.tracker];
        proof {
            assert(self.recipe_specs@.subrange(0, 0) =~= Seq::<RecipeSpec>::empty());
        }
        let mut k: usize = 0;
        while k < self.recipe_specs.len()
            invariant
                self.name == old(self).name,
                self.id == old(self).id,
                self.timeline == old(self).timeline,
                self.phase_templates == old(self).phase_templates,
                self.recipe_specs == old(self).recipe_specs,
                self.resources == old(self).resources,
                self.recipes == old(self).recipes,
                self.tracker.wf(),
                kinds_ready(old(self).tracker, self.phase_templates@) ==> kinds_ready(self.tracker, self.phase_templates@),
                every_template_known(self.phase_templates@, self.recipe_specs@),
                starts@.len() == self.recipe_specs@.len(),
                forall|l: int|
                    0 <= l < starts@.len() ==> recipe_start(
                        #[trigger] self.recipe_specs@[l],
                        start_of(self.timeline.start@),
                    ) == Some(starts@[l] as int),
                k <= self.recipe_specs@.len(),
                recipes@.len() == k,
                k == 0 ==> self.last_id_used == 0,
                k > 0 ==> self.last_id_used == recipes@[k - 1].id + recipes@[k - 1].phases@.len(),
                recipes_built(
                    recipes@,
                    self.phase_templates@,
                    self.recipe_specs@.subrange(0, k as int),
                    start_of(self.timeline.start@),
                ),
                self.last_id_used == id_count(self.recipe_specs@.subrange(0, k as int)),
                latest == latest_start(self.recipe_specs@, start_of(self.timeline.start@)),
                self.tracker.releases_by(latest + all_duration(self.phase_templates@, self.recipe_specs@.subrange(0, k as int))),
                forall|x: Resource| #[trigger] self.tracker.holds(x) <==> old(self).tracker.holds(x),
                recipes_in_turn(rts, recipes@, self.phase_templates@, self.recipe_specs@),
                rts[0] == old(self).tracker,
                rts[k as int] == self.tracker,
                forall|l: int, p: int, i: int|
                    0 <= l < k && 0 <= p < recipes@[l].phases@.len() && 0 <= i < recipes@[l].phases@[p].resources_used@.len()
                        ==> old(self).tracker.holds(#[trigger] recipes@[l].phases@[p].resources_used@[i]),
            decreases self.recipe_specs@.len() - k,
        {
            let ghost done = all_duration(self.phase_templates@, self.recipe_specs@.subrange(0, k as int));
            proof {
                lemma_recipe_sums_grow(self.phase_templates@, self.recipe_specs@, k as int);
                lemma_recipe_sums_grow(self.phase_templates@, self.recipe_specs@, k + 1);
                assert(self.recipe_specs@.subrange(0, k + 1).drop_last() =~= self.recipe_specs@.subrange(0, k as int));
                lemma_latest_start_bounds(self.recipe_specs@, start_of(self.timeline.start@));
                assert(recipe_start(self.recipe_specs@[k as int], start_of(self.timeline.start@)) == Some(starts@[k as int] as int));
                lemma_latest_release_at_most(self.tracker.reserved(), starts@[k as int] as int, latest + done);
                lemma_specs_duration_nonnegative(self.phase_templates@, self.recipe_specs@[k as int].phase_specs@);
            }
            if self.last_id_used == usize::MAX {
                return Err(ScheduleError::OutOfRange);
            }
            self.last_id_used = self.last_id_used + 1;
            let id = self.last_id_used;
            let spec = &self.recipe_specs[k];
            assert(all_templates_known(self.phase_templates@, self.recipe_specs@[k as int].phase_specs@));
            let ghost tracker_before = self.tracker;
            let phases = match build_phases(
                &mut self.tracker,
                &mut self.last_id_used,
                &self.phase_templates,
                spec,
                starts[k],
            ) {
                Ok(p) => p,
                Err(e) => {
                    return Err(e);
                },
            };
            proof {
                if kinds_ready(tracker_before, self.phase_templates@) {
                    assert forall|i: int| 0 <= i < self.phase_templates@.len() implies {
                        &&& distinct_kinds((#[trigger] self.phase_templates@[i]).resources_needed@)
                        &&& forall|j: int|
                            0 <= j < self.phase_templates@[i].resources_needed@.len() ==> self.tracker.has_kind(
                                #[trigger] self.phase_templates@[i].resources_needed@[j]@,
                            )
                    } by {
                        assert forall|j: int| 0 <= j < self.phase_templates@[i].resources_needed@.len() implies self.tracker.has_kind(
                            #[trigger] self.phase_templates@[i].resources_needed@[j]@,
                        ) by {
                            assert(tracker_before.has_kind(self.phase_templates@[i].resources_needed@[j]@));
                        }
                    }
                }
            }
            proof {
                let b1 = latest + all_duration(self.phase_templates@, self.recipe_specs@.subrange(0, k + 1));
                assert forall|j: int| 0 <= j < self.tracker.reserved().len() implies #[trigger] self.tracker.reserved()[j].free_date
                    <= b1 by {
                    assert(self.tracker.releases_by(
                        latest_release(tracker_before.reserved(), starts@[k as int] as int) + specs_duration(
                            self.phase_templates@,
                            self.recipe_specs@[k as int].phase_specs@,
                        ),
                    ));
                }
            }
            let ghost before = recipes@;
            let ghost new_phases = phases@;
            let ghost rts_before = rts;
            proof {
                rts = rts.push(self.tracker);
            }
            recipes.push(
                Recipe {
                    id,
                    name: spec.name.clone(),
                    color: spec.color_hex.clone(),
                    start_date: starts[k],
                    phases,
                },
            );
            proof {
                let specs_k = self.recipe_specs@.subrange(0, k + 1);
                assert forall|l: int| 0 <= l < recipes@.len() implies recipe_follows(
                    #[trigger] recipes@[l],
                    specs_k[l],
                    self.phase_templates@,
                    start_of(self.timeline.start@),
                ) by {
                    if l < k {
                        assert(recipes@[l] == before[l]);
                        assert(specs_k[l] == self.recipe_specs@.subrange(0, k as int)[l]);
                    }
                }
                assert forall|l: int| 0 <= l < recipes@.len() implies phases_from(
                    rts[l],
                    rts[l + 1],
                    (#[trigger] recipes@[l]).phases@,
                    self.phase_templates@,
                    self.recipe_specs@[l].phase_specs@,
                    recipes@[l].start_date as int,
                ) by {
                    if l < k {
                        assert(recipes@[l] == before[l]);
                        assert(rts[l] == rts_before[l]);
                        assert(rts[l + 1] == rts_before[l + 1]);
                    } else {
                        assert(rts[l] == tracker_before);
                        assert(recipes@[l].phases@ == new_phases);
                    }
                }
                assert forall|l: int, p: int, i: int|
                    0 <= l < k + 1 && 0 <= p < recipes@[l].phases@.len() && 0 <= i < recipes@[l].phases@[p].resources_used@.len()
                        implies old(self).tracker.holds(#[trigger] recipes@[l].phases@[p].resources_used@[i]) by {
                    if l < k {
                        assert(recipes@[l] == before[l]);
                        assert(old(self).tracker.holds(before[l].phases@[p].resources_used@[i]));
                    } else {
                        assert(recipes@[l].phases@ == new_phases);
                        assert(tracker_before.holds(new_phases[p].resources_used@[i]));
                        assert(old(self).tracker.holds(new_phases[p].resources_used@[i]));
                    }
                }
                assert forall|l: int| 0 <= l < recipes@.len() - 1 implies #[trigger] recipes@[l + 1].id
                    == recipes@[l].id + recipes@[l].phases@.len() + 1 by {
                    if l + 1 < k {
                        assert(recipes@[l] == before[l]);
                        assert(recipes@[l + 1] == before[l + 1]);
                    }
                }
            }
            k = k + 1;
        }
        assert(self.recipe_specs@.subrange(0, k as int) =~= self.recipe_specs@);
        self.recipes = recipes;
        Ok(())
    }
}

/// A phase without a duration of its own takes the template's default duration when that
/// is readable, and exactly one day otherwise.
pub proof fn lemma_duration_without_override(spec_duration: Seq<char>, template_duration: Seq<char>)
    requires
        spec_duration.len() == 0,
    ensures
        resolved_duration(spec_duration, template_duration) == match duration_of(template_duration) {
            Some(d) => d,
            None => SECONDS_PER_DAY as int,
        },
{
}

/// A phase without a description of its own takes the template's description unchanged.
pub proof fn lemma_description_without_override(spec_description: Seq<char>, template_description: Seq<char>)
    requires
        spec_description.len() == 0,
    ensures
        resolved_description(spec_description, template_description) == template_description,
{
}

/// The sum of the durations of the first `k` phases.
pub open spec fn total_duration(phases: Seq<PhaseInstance>, k: int) -> int
    decreases k,
{
    if k <= 0 {
        0
    } else {
        total_duration(phases, k - 1) + phases[k - 1].duration
    }
}

/// Whether no phase of `specs` needs a resource.
pub open spec fn needs_no_resources(templates: Seq<ProductionPhaseTemplate>, specs: Seq<PhaseInstanceSpec>) -> bool {
    forall|k: int, i: int|
        0 <= k < specs.len() && #[trigger] is_template_for(templates, specs[k].template@, i)
            ==> templates[i].resources_needed@.len() == 0
}

/// In a recipe whose phases need no resources, so that nothing contends for them, the
/// k-th phase starts at the recipe's start plus the durations of the phases before it,
/// and each phase depends on exactly the phase after it, the last on none.
pub proof fn lemma_uncontended_phases_run_back_to_back(
    phases: Seq<PhaseInstance>,
    templates: Seq<ProductionPhaseTemplate>,
    specs: Seq<PhaseInstanceSpec>,
    color: Seq<char>,
    start: int,
    first_id: int,
)
    requires
        phases.len() == specs.len(),
        all_templates_known(templates, specs),
        needs_no_resources(templates, specs),
        phases_scheduled(phases, phases.len() as int, templates, specs, color, start, first_id),
        phases_linked(phases),
    ensures
        forall|k: int| 0 <= k < phases.len() ==> (#[trigger] phases[k]).start_date == start + total_duration(phases, k),
        forall|k: int| 0 <= k < phases.len() - 1 ==> (#[trigger] phases[k]).dependencies@ == seq![phases[k + 1].id],
        phases.len() > 0 ==> phases[phases.len() - 1].dependencies@.len() == 0,
{
    assert forall|k: int| 0 <= k < phases.len() implies (#[trigger] phases[k]).start_date == start + total_duration(
        phases,
        k,
    ) by {
        lemma_back_to_back(phases, templates, specs, color, start, first_id, k);
    }
}

proof fn lemma_back_to_back(
    phases: Seq<PhaseInstance>,
    templates: Seq<ProductionPhaseTemplate>,
    specs: Seq<PhaseInstanceSpec>,
    color: Seq<char>,
    start: int,
    first_id: int,
    k: int,
)
    requires
        0 <= k < phases.len(),
        phases.len() == specs.len(),
        all_templates_known(templates, specs),
        needs_no_resources(templates, specs),
        phases_scheduled(phases, phases.len() as int, templates, specs, color, start, first_id),
    ensures
        phases[k].start_date == start + total_duration(phases, k),
    decreases k,
{
    let i = lemma_template_found(templates, specs[k].template@);
    assert(phase_follows(phases[k], specs[k], templates[i], color, first_id + k, cursor_at(phases, start, k)));
    if k > 0 {
        lemma_back_to_back(phases, templates, specs, color, start, first_id, k - 1);
    }
}

/// A template id that some template has has a first template.
proof fn lemma_template_found(templates: Seq<ProductionPhaseTemplate>, id: Seq<char>) -> (i: int)
    requires
        has_template(templates, id),
    ensures
        is_template_for(templates, id, i),
    decreases templates.len(),
{
    if templates[0].id@ == id {
        0
    } else {
        let rest = templates.drop_first();
        let w = choose|w: int| 0 <= w < templates.len() && templates[w].id@ == id;
        assert(rest[w - 1].id@ == id);
        let j = lemma_template_found(rest, id);
        assert forall|l: int| 0 <= l < j + 1 implies #[trigger] templates[l].id@ != id by {
            if l > 0 {
                assert(templates[l] == rest[l - 1]);
            }
        }
        j + 1
    }
}

/// Phases of one recipe never overlap: a later phase starts no earlier than an earlier
/// one ends, whatever resources they share.
pub proof fn lemma_phases_do_not_overlap(
    phases: Seq<PhaseInstance>,
    templates: Seq<ProductionPhaseTemplate>,
    specs: Seq<PhaseInstanceSpec>,
    color: Seq<char>,
    start: int,
    first_id: int,
    a: int,
    b: int,
)
    requires
        0 <= a < b < phases.len(),
        phases.len() == specs.len(),
        all_templates_known(templates, specs),
        phases_scheduled(phases, phases.len() as int, templates, specs, color, start, first_id),
    ensures
        phases[b].start_date >= phases[a].start_date + phases[a].duration,
    decreases b - a,
{
    let i = lemma_template_found(templates, specs[b].template@);
    assert(phase_follows(phases[b], specs[b], templates[i], color, first_id + b, cursor_at(phases, start, b)));
    if b - 1 > a {
        lemma_phases_do_not_overlap(phases, templates, specs, color, start, first_id, a, b - 1);
        let j = lemma_template_found(templates, specs[b - 1].template@);
        assert(phase_follows(phases[b - 1], specs[b - 1], templates[j], color, first_id + b - 1, cursor_at(phases, start, b - 1)));
    }
}

/// With no resource of kind `k` tracked, the earliest start for `k` is none at all.
proof fn lemma_no_kind_no_release(reserved: Seq<PossiblyAllocatedResource>, k: (nat, Seq<char>), start: int)
    requires
        forall|j: int| 0 <= j < reserved.len() ==> (#[trigger] reserved[j]).resource.resource_type@ != k,
    ensures
        earliest_released(reserved, k, start) is None,
    decreases reserved.len(),
{
    if reserved.len() > 0 {
        let rest = reserved.drop_last();
        assert forall|j: int| 0 <= j < rest.len() implies (#[trigger] rest[j]).resource.resource_type@ != k by {
            assert(rest[j] == reserved[j]);
        }
        lemma_no_kind_no_release(rest, k, start);
    }
}

/// A phase that needs a kind of which no resource is tracked gets no start: scheduling
/// it aborts instead of going on.
pub proof fn lemma_missing_kind_aborts(t: ResourceTracker, kinds: Seq<ResourceType>, cursor: int, i: int)
    requires
        0 <= i < kinds.len(),
        !t.has_kind(kinds[i]@),
    ensures
        pushed_start(t, kinds, cursor) is None,
{
    let k = kinds[i]@;
    lemma_no_kind_no_release(t.reserved(), k, cursor);
    let prefix = kinds.subrange(0, i + 1);
    assert(prefix.drop_last() =~= kinds.subrange(0, i));
    match pushed_start(t, kinds.subrange(0, i), cursor) {
        Some(c) => {
            lemma_no_kind_no_release(t.reserved(), k, c);
        },
        None => {},
    }
    lemma_none_stays_none(t, kinds, cursor, i + 1);
}

/// Among reserved resources of which exactly the one at `j` is of kind `k`, the earliest
/// release is that one's.
proof fn lemma_single_release(reserved: Seq<PossiblyAllocatedResource>, k: (nat, Seq<char>), c: int, j: int)
    requires
        0 <= j < reserved.len(),
        reserved[j].resource.resource_type@ == k,
        forall|l: int| 0 <= l < reserved.len() && l != j ==> (#[trigger] reserved[l]).resource.resource_type@ != k,
    ensures
        earliest_released(reserved, k, c) == Some(reserved_from(c, reserved[j].free_date as int)),
    decreases reserved.len(),
{
    let rest = reserved.drop_last();
    if j == reserved.len() - 1 {
        assert forall|l: int| 0 <= l < rest.len() implies (#[trigger] rest[l]).resource.resource_type@ != k by {
            assert(rest[l] == reserved[l]);
        }
        lemma_no_kind_no_release(rest, k, c);
    } else {
        assert forall|l: int| 0 <= l < rest.len() && l != j implies (#[trigger] rest[l]).resource.resource_type@ != k by {
            assert(rest[l] == reserved[l]);
        }
        lemma_single_release(rest, k, c, j);
    }
}

/// When the only resource of kind `k` is reserved until `e`, a phase that needs `k` is
/// pushed to start no earlier than `e`: the end of the phase that holds it.
pub proof fn lemma_single_instance_pushes_past_its_reservation(
    t: ResourceTracker,
    kinds: Seq<ResourceType>,
    cursor: int,
    i: int,
    j: int,
)
    requires
        0 <= i < kinds.len(),
        !t.has_free(kinds[i]@),
        0 <= j < t.reserved().len(),
        t.reserved()[j].resource.resource_type@ == kinds[i]@,
        forall|l: int|
            0 <= l < t.reserved().len() && l != j ==> (#[trigger] t.reserved()[l]).resource.resource_type@ != kinds[i]@,
    ensures
        pushed_start(t, kinds, cursor) matches Some(s) ==> s >= t.reserved()[j].free_date,
    decreases kinds.len(),
{
    let prefix = kinds.drop_last();
    match pushed_start(t, prefix, cursor) {
        Some(c) => {
            if i == kinds.len() - 1 {
                lemma_single_release(t.reserved(), kinds[i]@, c, j);
            } else {
                assert(prefix[i] == kinds[i]);
                lemma_single_instance_pushes_past_its_reservation(t, prefix, cursor, i, j);
            }
        },
        None => {},
    }
}

/// When a resource of every kind asked for is free, nothing contends for them and the
/// phase starts exactly when it is asked for.
pub proof fn lemma_free_kinds_push_nothing(t: ResourceTracker, kinds: Seq<ResourceType>, cursor: int)
    requires
        forall|j: int| 0 <= j < kinds.len() ==> t.has_free(#[trigger] kinds[j]@),
    ensures
        pushed_start(t, kinds, cursor) == Some(cursor),
    decreases kinds.len(),
{
    if kinds.len() > 0 {
        let prefix = kinds.drop_last();
        assert forall|j: int| 0 <= j < prefix.len() implies t.has_free(#[trigger] prefix[j]@) by {
            assert(prefix[j] == kinds[j]);
        }
        lemma_free_kinds_push_nothing(t, prefix, cursor);
        assert(t.has_free(kinds[kinds.len() - 1]@));
    }
}

/// When, at each phase of a recipe, a resource of every kind that phase needs is free, so
/// that nothing contends for them, the k-th phase starts at the recipe's start plus the
/// durations of the phases before it.
pub proof fn lemma_free_phases_run_back_to_back(
    ts: Seq<ResourceTracker>,
    phases: Seq<PhaseInstance>,
    templates: Seq<ProductionPhaseTemplate>,
    specs: Seq<PhaseInstanceSpec>,
    start: int,
)
    requires
        phases_in_turn(ts, phases, templates, specs, start),
        forall|k: int, j: int|
            0 <= k < phases.len() && 0 <= j < template_of(templates, specs[k].template@).resources_needed@.len()
                ==> ts[k].has_free(#[trigger] template_of(templates, specs[k].template@).resources_needed@[j]@),
    ensures
        forall|k: int| 0 <= k < phases.len() ==> (#[trigger] phases[k]).start_date == start + total_duration(phases, k),
{
    assert forall|k: int| 0 <= k < phases.len() implies (#[trigger] phases[k]).start_date == start + total_duration(
        phases,
        k,
    ) by {
        lemma_free_back_to_back(ts, phases, templates, specs, start, k);
    }
}

proof fn lemma_free_back_to_back(
    ts: Seq<ResourceTracker>,
    phases: Seq<PhaseInstance>,
    templates: Seq<ProductionPhaseTemplate>,
    specs: Seq<PhaseInstanceSpec>,
    start: int,
    k: int,
)
    requires
        0 <= k < phases.len(),
        phases_in_turn(ts, phases, templates, specs, start),
        forall|k: int, j: int|
            0 <= k < phases.len() && 0 <= j < template_of(templates, specs[k].template@).resources_needed@.len()
                ==> ts[k].has_free(#[trigger] template_of(templates, specs[k].template@).resources_needed@[j]@),
    ensures
        phases[k].start_date == start + total_duration(phases, k),
    decreases k,
{
    let kinds = template_of(templates, specs[k].template@).resources_needed@;
    assert forall|j: int| 0 <= j < kinds.len() implies ts[k].has_free(#[trigger] kinds[j]@) by {}
    lemma_free_kinds_push_nothing(ts[k], kinds, cursor_at(phases, start, k));
    assert(pushed_start(ts[k], kinds, cursor_at(phases, start, k)) == Some(phases[k].start_date as int));
    if k > 0 {
        lemma_free_back_to_back(ts, phases, templates, specs, start, k - 1);
    }
}

} // verus!
