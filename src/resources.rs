use vstd::prelude::*;
use vstd::string::StrSliceExecFns;

use crate::text::{lower_of, lowercase, same_text};

verus! {

/// Tag of each well-known resource kind, as it appears in a kind's view.
pub open spec fn tag_fermentor() -> nat { 0 }
pub open spec fn tag_kettle() -> nat { 1 }
pub open spec fn tag_mash_tun() -> nat { 2 }
pub open spec fn tag_lauter_tun() -> nat { 3 }
pub open spec fn tag_keg() -> nat { 4 }
pub open spec fn tag_kegerator() -> nat { 5 }
pub open spec fn tag_other() -> nat { 6 }

/// Type of a particular resource.
#[derive(Clone, Debug)]
pub enum ResourceType {
    /// A unit for storage during fermentation.
    Fermentor,
    /// A resource for heating water and boiling sweet wort.
    Kettle,
    /// A place to convert raw grain into sweet wort.
    MashTun,
    /// A place for separating the liquid and solid components of a mash.
    LauterTun,
    /// A place for carbonating, aging, and serving beer.
    Keg,
    /// A place to put kegs in order to refrigerate.
    Kegerator,
    /// A kind that is not among the well-known ones, named by its string.
    Other(String),
}

/// A kind is seen as its tag and, for `Other`, its name.
impl View for ResourceType {
    type V = (nat, Seq<char>);

    open spec fn view(&self) -> (nat, Seq<char>) {
        match self {
            ResourceType::Fermentor => (tag_fermentor(), Seq::empty()),
            ResourceType::Kettle => (tag_kettle(), Seq::empty()),
            ResourceType::MashTun => (tag_mash_tun(), Seq::empty()),
            ResourceType::LauterTun => (tag_lauter_tun(), Seq::empty()),
            ResourceType::Keg => (tag_keg(), Seq::empty()),
            ResourceType::Kegerator => (tag_kegerator(), Seq::empty()),
            ResourceType::Other(s) => (tag_other(), s@),
        }
    }
}

/// The serialized name of each well-known kind.
pub open spec fn known_name(tag: nat) -> Seq<char> {
    if tag == tag_fermentor() {
        "fermentor"@
    } else if tag == tag_kettle() {
        "kettle"@
    } else if tag == tag_mash_tun() {
        "mashtun"@
    } else if tag == tag_lauter_tun() {
        "lautertun"@
    } else if tag == tag_keg() {
        "keg"@
    } else {
        "kegerator"@
    }
}

/// The tag of the well-known kind whose name is exactly `s`, if any.
pub open spec fn known_tag(s: Seq<char>) -> Option<nat> {
    if s == known_name(tag_fermentor()) {
        Some(tag_fermentor())
    } else if s == known_name(tag_kettle()) {
        Some(tag_kettle())
    } else if s == known_name(tag_mash_tun()) {
        Some(tag_mash_tun())
    } else if s == known_name(tag_lauter_tun()) {
        Some(tag_lauter_tun())
    } else if s == known_name(tag_keg()) {
        Some(tag_keg())
    } else if s == known_name(tag_kegerator()) {
        Some(tag_kegerator())
    } else {
        None
    }
}

/// The tag of the well-known kind that a name stands for, case aside: the name itself is a
/// well-known name, or its lower-case form is. A well-known name is its own lower-case
/// form, so this is the kind whose name the lower-case form is.
pub open spec fn known_tag_of_name(s: Seq<char>) -> Option<nat> {
    match known_tag(s) {
        Some(t) => Some(t),
        None => known_tag(lower_of(s)),
    }
}

/// The kind that a name stands for: the well-known kind whose name it is, case aside, or
/// else `Other` carrying the name exactly.
pub open spec fn kind_of_name(s: Seq<char>) -> (nat, Seq<char>) {
    match known_tag_of_name(s) {
        Some(t) => (t, Seq::empty()),
        None => (tag_other(), s),
    }
}

/// The tag of the well-known kind whose name is exactly `s`, if any.
fn known_tag_of(s: &str) -> (r: Option<u8>)
    ensures
        match r {
            Some(t) => known_tag(s@) == Some(t as nat),
            None => known_tag(s@) is None,
        },
{
    if same_text(s, "fermentor") {
        Some(0)
    } else if same_text(s, "kettle") {
        Some(1)
    } else if same_text(s, "mashtun") {
        Some(2)
    } else if same_text(s, "lautertun") {
        Some(3)
    } else if same_text(s, "keg") {
        Some(4)
    } else if same_text(s, "kegerator") {
        Some(5)
    } else {
        None
    }
}

/// The tag of the well-known kind that a name stands for, case aside.
fn known_tag_of_text(s: &str) -> (r: Option<u8>)
    ensures
        match r {
            Some(t) => known_tag_of_name(s@) == Some(t as nat),
            None => known_tag_of_name(s@) is None,
        },
{
    match known_tag_of(s) {
        Some(t) => Some(t),
        None => {
            let lower = lowercase(s);
            known_tag_of(lower.as_str())
        },
    }
}

/// The well-known kind with tag `t`.
pub open spec fn kind_of_tag(t: nat) -> ResourceType {
    if t == tag_fermentor() {
        ResourceType::Fermentor
    } else if t == tag_kettle() {
        ResourceType::Kettle
    } else if t == tag_mash_tun() {
        ResourceType::MashTun
    } else if t == tag_lauter_tun() {
        ResourceType::LauterTun
    } else if t == tag_keg() {
        ResourceType::Keg
    } else {
        ResourceType::Kegerator
    }
}

/// The well-known kind with tag `t`.
fn make_kind(t: u8) -> (r: ResourceType)
    requires
        (t as nat) < tag_other(),
    ensures
        r == kind_of_tag(t as nat),
        r@ == (t as nat, Seq::<char>::empty()),
{
    if t == 0 {
        ResourceType::Fermentor
    } else if t == 1 {
        ResourceType::Kettle
    } else if t == 2 {
        ResourceType::MashTun
    } else if t == 3 {
        ResourceType::LauterTun
    } else if t == 4 {
        ResourceType::Keg
    } else {
        ResourceType::Kegerator
    }
}

/// The name under which a kind is written out.
pub open spec fn name_of_kind(k: (nat, Seq<char>)) -> Seq<char> {
    if k.0 == tag_other() {
        k.1
    } else {
        known_name(k.0)
    }
}

/// A kind as the library builds it: a well-known tag, or `Other` with a name that is
/// not one of the well-known names.
pub open spec fn canonical_kind(k: (nat, Seq<char>)) -> bool {
    if k.0 == tag_other() {
        kind_of_name(k.1).0 == tag_other()
    } else {
        k.0 < tag_other() && k.1 == Seq::<char>::empty()
    }
}

impl ResourceType {
    /// The kind that a name stands for. The well-known names are matched regardless of
    /// case; any other name gives `Other` with the name unchanged.
    pub fn from_name(s: &str) -> (r: ResourceType)
        ensures
            r@ == kind_of_name(s@),
    {
        match known_tag_of_text(s) {
            Some(t) => make_kind(t),
            None => ResourceType::Other(s.to_owned()),
        }
    }

    /// The name under which this kind is written out.
    pub fn name(&self) -> (r: String)
        ensures
            r@ == name_of_kind(self@),
    {
        match self {
            ResourceType::Fermentor => "fermentor".to_owned(),
            ResourceType::Kettle => "kettle".to_owned(),
            ResourceType::MashTun => "mashtun".to_owned(),
            ResourceType::LauterTun => "lautertun".to_owned(),
            ResourceType::Keg => "keg".to_owned(),
            ResourceType::Kegerator => "kegerator".to_owned(),
            ResourceType::Other(s) => s.clone(),
        }
    }

    /// Whether two kinds are the same: the same well-known kind, or both `Other` with
    /// equal names.
    pub fn same_as(&self, other: &ResourceType) -> (r: bool)
        ensures
            r == (self@ == other@),
    {
        if self.tag() != other.tag() {
            return false;
        }
        match (self, other) {
            (ResourceType::Other(a), ResourceType::Other(b)) => a.eq(b),
            _ => true,
        }
    }

    /// The tag of this kind.
    fn tag(&self) -> (r: u8)
        ensures
            r as nat == self@.0,
    {
        match self {
            ResourceType::Fermentor => 0,
            ResourceType::Kettle => 1,
            ResourceType::MashTun => 2,
            ResourceType::LauterTun => 3,
            ResourceType::Keg => 4,
            ResourceType::Kegerator => 5,
            ResourceType::Other(_) => 6,
        }
    }

    /// A copy of this kind.
    pub fn copy_kind(&self) -> (r: ResourceType)
        ensures
            r == *self,
    {
        match self {
            ResourceType::Fermentor => ResourceType::Fermentor,
            ResourceType::Kettle => ResourceType::Kettle,
            ResourceType::MashTun => ResourceType::MashTun,
            ResourceType::LauterTun => ResourceType::LauterTun,
            ResourceType::Keg => ResourceType::Keg,
            ResourceType::Kegerator => ResourceType::Kegerator,
            ResourceType::Other(s) => ResourceType::Other(s.clone()),
        }
    }
}

/// The kind that an owned name stands for, as `from_name` reads it, keeping the name
/// itself for `Other`.
pub open spec fn kind_from_string(s: String) -> ResourceType {
    match known_tag_of_name(s@) {
        Some(t) => kind_of_tag(t),
        None => ResourceType::Other(s),
    }
}

impl From<String> for ResourceType {
    fn from(res: String) -> (r: ResourceType) {
        match known_tag_of_text(res.as_str()) {
            Some(t) => make_kind(t),
            None => ResourceType::Other(res),
        }
    }
}

impl vstd::std_specs::convert::FromSpecImpl<String> for ResourceType {
    open spec fn obeys_from_spec() -> bool {
        true
    }

    open spec fn from_spec(v: String) -> ResourceType {
        kind_from_string(v)
    }
}

impl PartialEq for ResourceType {
    fn eq(&self, other: &ResourceType) -> (r: bool) {
        self.same_as(other)
    }
}

impl vstd::std_specs::cmp::PartialEqSpecImpl for ResourceType {
    open spec fn obeys_eq_spec() -> bool {
        true
    }

    open spec fn eq_spec(&self, other: &ResourceType) -> bool {
        self@ == other@
    }
}

/// A piece of equipment that must be used in order to produce a recipe.
#[derive(Clone, Debug, PartialEq)]
pub struct Resource {
    pub id: usize,
    pub name: String,
    pub resource_type: ResourceType,
    /// Kept as declared; scheduling does not read it.
    pub capacity_str: String,
}

impl Resource {
    /// A copy of this resource.
    pub fn copy_resource(&self) -> (r: Resource)
        ensures
            r == *self,
    {
        Resource {
            id: self.id,
            name: self.name.clone(),
            resource_type: self.resource_type.copy_kind(),
            capacity_str: self.capacity_str.clone(),
        }
    }
}

/// A reserved resource together with the instant, in seconds, at which it is free again.
#[derive(Clone, Debug)]
pub struct PossiblyAllocatedResource {
    pub resource: Resource,
    pub free_date: i64,
}

/// The earliest instant at or after `start` at which a resource that is free again at
/// `free_date` can be reserved.
pub open spec fn reserved_from(start: int, free_date: int) -> int {
    if free_date > start { free_date } else { start }
}

/// The earliest instant at or after `start` at which one of the reserved resources of
/// kind `k` is free again; `None` when none of them is of kind `k`.
pub open spec fn earliest_released(reserved: Seq<PossiblyAllocatedResource>, k: (nat, Seq<char>), start: int) -> Option<int>
    decreases reserved.len(),
{
    if reserved.len() == 0 {
        None
    } else {
        let rest = earliest_released(reserved.drop_last(), k, start);
        let last = reserved.last();
        if last.resource.resource_type@ != k {
            rest
        } else {
            let from = reserved_from(start, last.free_date as int);
            match rest {
                Some(t) => Some(if from < t { from } else { t }),
                None => Some(from),
            }
        }
    }
}

/// `after` is `before` once a resource of kind `k` has been asked for from `start` until
/// `end`, with `r` handed out: the first free one of that kind, moved to the reservations;
/// else the first reserved one of that kind that is free again by `start`, its reservation
/// renewed; else nothing, and nothing changes.
pub open spec fn allocates(
    before: ResourceTracker,
    after: ResourceTracker,
    k: (nat, Seq<char>),
    start: int,
    end: i64,
    r: Option<Resource>,
) -> bool {
    &&& (r is Some <==> before.can_reserve(k, start))
    &&& (r is None ==> after == before)
    &&& forall|i: int|
        #[trigger] before.is_first_free(k, i) ==> {
            &&& r == Some(before.free()[i])
            &&& after.free() == before.free().remove(i)
            &&& after.reserved() == before.reserved().push(
                (PossiblyAllocatedResource { resource: before.free()[i], free_date: end }),
            )
        }
    &&& !before.has_free(k) ==> forall|j: int|
        #[trigger] before.is_first_released(k, start, j) ==> {
            &&& r == Some(before.reserved()[j].resource)
            &&& after.free() == before.free()
            &&& after.reserved() == before.reserved().update(
                j,
                (PossiblyAllocatedResource { resource: before.reserved()[j].resource, free_date: end }),
            )
        }
}

/// Keeps every declared resource either free or reserved until a given instant, and
/// answers when a resource of a kind can be had.
pub struct ResourceTracker {
    free_resources: Vec<Resource>,
    allocated_resources: Vec<PossiblyAllocatedResource>,
}

impl ResourceTracker {
    /// The resources that have never been reserved, in the order they were tracked.
    pub closed spec fn free(&self) -> Seq<Resource> {
        self.free_resources@
    }

    /// The reserved resources, each with the instant at which it is free again.
    pub closed spec fn reserved(&self) -> Seq<PossiblyAllocatedResource> {
        self.allocated_resources@
    }

    /// No resource id is held twice, in either collection or across both.
    pub open spec fn wf(&self) -> bool {
        &&& forall|i: int, j: int|
            0 <= i < j < self.free().len() ==> #[trigger] self.free()[i].id != #[trigger] self.free()[j].id
        &&& forall|i: int, j: int|
            0 <= i < j < self.reserved().len() ==> #[trigger] self.reserved()[i].resource.id
                != #[trigger] self.reserved()[j].resource.id
        &&& forall|i: int, j: int|
            0 <= i < self.free().len() && 0 <= j < self.reserved().len() ==> #[trigger] self.free()[i].id
                != #[trigger] self.reserved()[j].resource.id
    }

    /// Whether a resource with this id is tracked.
    pub open spec fn tracks(&self, id: usize) -> bool {
        (exists|i: int| 0 <= i < self.free().len() && self.free()[i].id == id) || (exists|j: int|
            0 <= j < self.reserved().len() && self.reserved()[j].resource.id == id)
    }

    /// Whether any resource of kind `k` is tracked.
    pub open spec fn has_kind(&self, k: (nat, Seq<char>)) -> bool {
        (exists|i: int| 0 <= i < self.free().len() && self.free()[i].resource_type@ == k) || (exists|
            j: int,
        | 0 <= j < self.reserved().len() && self.reserved()[j].resource.resource_type@ == k)
    }

    /// `i` is the first free resource of kind `k`.
    pub open spec fn is_first_free(&self, k: (nat, Seq<char>), i: int) -> bool {
        &&& 0 <= i < self.free().len()
        &&& self.free()[i].resource_type@ == k
        &&& forall|j: int| 0 <= j < i ==> #[trigger] self.free()[j].resource_type@ != k
    }

    /// Whether some free resource is of kind `k`.
    pub open spec fn has_free(&self, k: (nat, Seq<char>)) -> bool {
        exists|i: int| 0 <= i < self.free().len() && self.free()[i].resource_type@ == k
    }

    /// A reserved resource of kind `k` that is free again by `start`.
    pub open spec fn is_released_by(&self, k: (nat, Seq<char>), start: int, j: int) -> bool {
        &&& 0 <= j < self.reserved().len()
        &&& self.reserved()[j].resource.resource_type@ == k
        &&& self.reserved()[j].free_date <= start
    }

    /// `j` is the first reserved resource of kind `k` that is free again by `start`.
    pub open spec fn is_first_released(&self, k: (nat, Seq<char>), start: int, j: int) -> bool {
        &&& self.is_released_by(k, start, j)
        &&& forall|l: int| 0 <= l < j ==> !#[trigger] self.is_released_by(k, start, l)
    }

    /// The earliest instant at or after `start` at which a resource of kind `k` can be
    /// reserved: `start` itself when one is free, else the first instant at which a reserved
    /// one is free again. `None` when no resource of kind `k` is tracked.
    pub open spec fn earliest_start(&self, k: (nat, Seq<char>), start: int) -> Option<int> {
        if self.has_free(k) {
            Some(start)
        } else {
            earliest_released(self.reserved(), k, start)
        }
    }

    /// Whether the resource `res` is tracked, free or reserved.
    pub open spec fn holds(&self, res: Resource) -> bool {
        (exists|i: int| 0 <= i < self.free().len() && self.free()[i] == res) || (exists|j: int|
            0 <= j < self.reserved().len() && self.reserved()[j].resource == res)
    }

    /// Every reservation ends by `b`.
    pub open spec fn releases_by(&self, b: int) -> bool {
        forall|j: int| 0 <= j < self.reserved().len() ==> #[trigger] self.reserved()[j].free_date <= b
    }

    /// Whether a resource of kind `k` can be reserved from `start` on.
    pub open spec fn can_reserve(&self, k: (nat, Seq<char>), start: int) -> bool {
        self.has_free(k) || exists|j: int| self.is_released_by(k, start, j)
    }

    /// An empty tracker.
    pub fn new() -> (r: ResourceTracker)
        ensures
            r.free() == Seq::<Resource>::empty(),
            r.reserved() == Seq::<PossiblyAllocatedResource>::empty(),
            r.wf(),
    {
        ResourceTracker { free_resources: Vec::new(), allocated_resources: Vec::new() }
    }

    /// Track a resource, as free. Its id must not be tracked already.
    pub fn track_resource(&mut self, res: Resource)
        requires
            old(self).wf(),
            !old(self).tracks(res.id),
        ensures
            final(self).free() == old(self).free().push(res),
            final(self).reserved() == old(self).reserved(),
            final(self).wf(),
    {
        self.free_resources.push(res);
        assert(forall|i: int| 0 <= i < old(self).free().len() ==> self.free()[i] == old(self).free()[i]);
    }

    /// Whether a resource with this id is tracked.
    pub fn is_tracked(&self, id: usize) -> (r: bool)
        ensures
            r == self.tracks(id),
    {
        let mut i: usize = 0;
        while i < self.free_resources.len()
            invariant
                i <= self.free().len(),
                forall|l: int| 0 <= l < i ==> #[trigger] self.free()[l].id != id,
            decreases self.free().len() - i,
        {
            if self.free_resources[i].id == id {
                return true;
            }
            i = i + 1;
        }
        let mut j: usize = 0;
        while j < self.allocated_resources.len()
            invariant
                j <= self.reserved().len(),
                forall|l: int| 0 <= l < self.free().len() ==> #[trigger] self.free()[l].id != id,
                forall|l: int| 0 <= l < j ==> #[trigger] self.reserved()[l].resource.id != id,
            decreases self.reserved().len() - j,
        {
            if self.allocated_resources[j].resource.id == id {
                return true;
            }
            j = j + 1;
        }
        false
    }

    /// The earliest instant at or after `start` at which a resource of the given kind can
    /// be reserved; `None` when no resource of that kind is tracked at all.
    pub fn next_available_resource_date_for_type(&self, resource_type: &ResourceType, start: i64) -> (r:
        Option<i64>)
        ensures
            r is None <==> self.earliest_start(resource_type@, start as int) is None,
            r matches Some(t) ==> self.earliest_start(resource_type@, start as int) == Some(t as int),
            self.earliest_start(resource_type@, start as int) is None <==> !self.has_kind(resource_type@),
    {
        let mut i: usize = 0;
        while i < self.free_resources.len()
            invariant
                i <= self.free().len(),
                forall|l: int| 0 <= l < i ==> #[trigger] self.free()[l].resource_type@ != resource_type@,
            decreases self.free().len() - i,
        {
            if self.free_resources[i].resource_type.same_as(resource_type) {
                return Some(start);
            }
            i = i + 1;
        }
        let mut best: Option<i64> = None;
        let mut j: usize = 0;
        while j < self.allocated_resources.len()
            invariant
                j <= self.reserved().len(),
                !self.has_free(resource_type@),
                best is None <==> earliest_released(self.reserved().subrange(0, j as int), resource_type@, start as int)
                    is None,
                best matches Some(t) ==> earliest_released(self.reserved().subrange(0, j as int), resource_type@, start as int)
                    == Some(t as int),
                earliest_released(self.reserved().subrange(0, j as int), resource_type@, start as int) matches Some(t)
                    ==> start <= t <= i64::MAX,
                earliest_released(self.reserved().subrange(0, j as int), resource_type@, start as int) is None
                    <==> forall|l: int| 0 <= l < j ==> #[trigger] self.reserved()[l].resource.resource_type@ != resource_type@,
            decreases self.reserved().len() - j,
        {
            let entry = &self.allocated_resources[j];
            assert(self.reserved().subrange(0, j + 1).drop_last() =~= self.reserved().subrange(0, j as int));
            if entry.resource.resource_type.same_as(resource_type) {
                let from = if entry.free_date > start { entry.free_date } else { start };
                best = match best {
                    Some(t) => if from < t { Some(from) } else { Some(t) },
                    None => Some(from),
                };
            }
            j = j + 1;
        }
        assert(self.reserved().subrange(0, j as int) =~= self.reserved());
        best
    }

    /// Reserve a resource of the given kind from `start_date` for `duration` seconds: the
    /// first free one of that kind if there is one, else the first reserved one of that kind
    /// that is free again by `start_date`. Returns the resource reserved, or `None`, with
    /// nothing changed, when no resource of that kind can be had from `start_date` on.
    pub fn allocate_resource_of_type_for_duration(
        &mut self,
        resource_type: &ResourceType,
        start_date: i64,
        duration: i64,
    ) -> (r: Option<Resource>)
        requires
            old(self).wf(),
            0 <= duration,
            start_date + duration <= i64::MAX,
        ensures
            final(self).wf(),
            r is Some <==> old(self).can_reserve(resource_type@, start_date as int),
            r matches Some(res) ==> res.resource_type@ == resource_type@,
            forall|k: (nat, Seq<char>), s: int|
                k != resource_type@ && #[trigger] old(self).can_reserve(k, s) ==> final(self).can_reserve(k, s),
            forall|k: (nat, Seq<char>)| #[trigger] old(self).has_kind(k) ==> final(self).has_kind(k),
            forall|res: Resource| #[trigger] final(self).holds(res) <==> old(self).holds(res),
            r matches Some(res) ==> old(self).holds(res),
            forall|b: int| #[trigger] old(self).releases_by(b) && start_date + duration <= b ==> final(self).releases_by(b),
            allocates(*old(self), *final(self), resource_type@, start_date as int, (start_date + duration) as i64, r),
    {
        let end = start_date + duration;
        let mut i: usize = 0;
        while i < self.free_resources.len()
            invariant
                self == old(self),
                old(self).wf(),
                0 <= duration,
                start_date + duration <= i64::MAX,
                end == start_date + duration,
                i <= self.free().len(),
                forall|l: int| 0 <= l < i ==> #[trigger] self.free()[l].resource_type@ != resource_type@,
            decreases self.free().len() - i,
        {
            if self.free_resources[i].resource_type.same_as(resource_type) {
                assert(self.is_first_free(resource_type@, i as int));
                let res = self.free_resources.remove(i);
                let copy = res.copy_resource();
                self.allocated_resources.push(PossiblyAllocatedResource { resource: copy, free_date: end });
                proof {
                    assert forall|a: int, b: int| 0 <= a < self.free().len() && 0 <= b < self.reserved().len()
                        implies #[trigger] self.free()[a].id != #[trigger] self.reserved()[b].resource.id by {
                        let oa = if a < i { a } else { a + 1 };
                        assert(self.free()[a] == old(self).free()[oa]);
                        if b < old(self).reserved().len() {
                            assert(self.reserved()[b] == old(self).reserved()[b]);
                            assert(old(self).free()[oa].id != old(self).reserved()[b].resource.id);
                        } else {
                            assert(self.reserved()[b].resource == old(self).free()[i as int]);
                            assert(old(self).free()[oa].id != old(self).free()[i as int].id);
                        }
                    }
                    assert forall|a: int, b: int| 0 <= a < b < self.free().len()
                        implies #[trigger] self.free()[a].id != #[trigger] self.free()[b].id by {
                        let oa = if a < i { a } else { a + 1 };
                        let ob = if b < i { b } else { b + 1 };
                        assert(self.free()[a] == old(self).free()[oa]);
                        assert(self.free()[b] == old(self).free()[ob]);
                        assert(old(self).free()[oa].id != old(self).free()[ob].id);
                    }
                    assert forall|a: int, b: int| 0 <= a < b < self.reserved().len()
                        implies #[trigger] self.reserved()[a].resource.id != #[trigger] self.reserved()[b].resource.id by {
                        assert(self.reserved()[a] == old(self).reserved()[a]);
                        if b < old(self).reserved().len() {
                            assert(self.reserved()[b] == old(self).reserved()[b]);
                            assert(old(self).reserved()[a].resource.id != old(self).reserved()[b].resource.id);
                        } else {
                            assert(self.reserved()[b].resource == old(self).free()[i as int]);
                            assert(old(self).free()[i as int].id != old(self).reserved()[a].resource.id);
                        }
                    }
                    assert forall|f: int| #[trigger] old(self).is_first_free(resource_type@, f) implies f == i by {
                        if f < i {
                        } else if f > i {
                            assert(old(self).free()[i as int].resource_type@ == resource_type@);
                        }
                    }
                }
                proof {
                    assert forall|k: (nat, Seq<char>), s: int|
                        k != resource_type@ && #[trigger] old(self).can_reserve(k, s) implies self.can_reserve(k, s) by {
                        if old(self).has_free(k) {
                            let w = choose|w: int| 0 <= w < old(self).free().len() && old(self).free()[w].resource_type@ == k;
                            let nw = if w < i { w } else { w - 1 };
                            assert(w != i);
                            assert(self.free()[nw] == old(self).free()[w]);
                        } else {
                            let w = choose|w: int| old(self).is_released_by(k, s, w);
                            assert(self.reserved()[w] == old(self).reserved()[w]);
                            assert(self.is_released_by(k, s, w));
                        }
                    }
                    assert forall|k: (nat, Seq<char>)| #[trigger] old(self).has_kind(k) implies self.has_kind(k) by {
                        if exists|w: int| 0 <= w < old(self).free().len() && old(self).free()[w].resource_type@ == k {
                            let w = choose|w: int| 0 <= w < old(self).free().len() && old(self).free()[w].resource_type@ == k;
                            if w == i {
                                let last = self.reserved().len() - 1;
                                assert(self.reserved()[last].resource == old(self).free()[w]);
                            } else {
                                let nw = if w < i { w } else { w - 1 };
                                assert(self.free()[nw] == old(self).free()[w]);
                            }
                        } else {
                            let w = choose|w: int|
                                0 <= w < old(self).reserved().len() && old(self).reserved()[w].resource.resource_type@ == k;
                            assert(self.reserved()[w] == old(self).reserved()[w]);
                        }
                    }
                }
                proof {
                    assert forall|x: Resource| #[trigger] self.holds(x) <==> old(self).holds(x) by {
                        if exists|w: int| 0 <= w < self.free().len() && self.free()[w] == x {
                            let w = choose|w: int| 0 <= w < self.free().len() && self.free()[w] == x;
                            let ow = if w < i { w } else { w + 1 };
                            assert(old(self).free()[ow] == x);
                        }
                        if exists|w: int| 0 <= w < self.reserved().len() && self.reserved()[w].resource == x {
                            let w = choose|w: int| 0 <= w < self.reserved().len() && self.reserved()[w].resource == x;
                            if w < old(self).reserved().len() {
                                assert(old(self).reserved()[w].resource == x);
                            } else {
                                assert(old(self).free()[i as int] == x);
                            }
                        }
                        if exists|w: int| 0 <= w < old(self).free().len() && old(self).free()[w] == x {
                            let w = choose|w: int| 0 <= w < old(self).free().len() && old(self).free()[w] == x;
                            if w == i {
                                let last = self.reserved().len() - 1;
                                assert(self.reserved()[last].resource == x);
                            } else {
                                let nw = if w < i { w } else { w - 1 };
                                assert(self.free()[nw] == x);
                            }
                        }
                        if exists|w: int| 0 <= w < old(self).reserved().len() && old(self).reserved()[w].resource == x {
                            let w = choose|w: int| 0 <= w < old(self).reserved().len() && old(self).reserved()[w].resource == x;
                            assert(self.reserved()[w].resource == x);
                        }
                    }
                    assert(old(self).free()[i as int] == res);
                    assert forall|b: int| #[trigger] old(self).releases_by(b) && start_date + duration <= b implies self.releases_by(b) by {
                        assert forall|j: int| 0 <= j < self.reserved().len() implies #[trigger] self.reserved()[j].free_date <= b by {
                            if j < old(self).reserved().len() {
                                assert(self.reserved()[j] == old(self).reserved()[j]);
                            }
                        }
                    }
                }
                return Some(res);
            }
            i = i + 1;
        }
        assert(!old(self).has_free(resource_type@));
        let mut j: usize = 0;
        while j < self.allocated_resources.len()
            invariant
                self == old(self),
                old(self).wf(),
                0 <= duration,
                start_date + duration <= i64::MAX,
                end == start_date + duration,
                j <= self.reserved().len(),
                !self.has_free(resource_type@),
                forall|l: int| 0 <= l < j ==> !#[trigger] self.is_released_by(resource_type@, start_date as int, l),
            decreases self.reserved().len() - j,
        {
            let entry = &self.allocated_resources[j];
            if entry.resource.resource_type.same_as(resource_type) && entry.free_date <= start_date {
                assert(self.is_first_released(resource_type@, start_date as int, j as int));
                let res = entry.resource.copy_resource();
                let copy = res.copy_resource();
                self.allocated_resources.set(j, PossiblyAllocatedResource { resource: copy, free_date: end });
                proof {
                    assert forall|a: int, b: int| 0 <= a < self.free().len() && 0 <= b < self.reserved().len()
                        implies #[trigger] self.free()[a].id != #[trigger] self.reserved()[b].resource.id by {
                        assert(self.reserved()[b].resource.id == old(self).reserved()[b].resource.id);
                        assert(self.free()[a] == old(self).free()[a]);
                        assert(old(self).free()[a].id != old(self).reserved()[b].resource.id);
                    }
                    assert forall|a: int, b: int| 0 <= a < b < self.reserved().len()
                        implies #[trigger] self.reserved()[a].resource.id != #[trigger] self.reserved()[b].resource.id by {
                        assert(self.reserved()[a].resource.id == old(self).reserved()[a].resource.id);
                        assert(self.reserved()[b].resource.id == old(self).reserved()[b].resource.id);
                        assert(old(self).reserved()[a].resource.id != old(self).reserved()[b].resource.id);
                    }
                    assert forall|f: int| #[trigger] old(self).is_first_released(resource_type@, start_date as int, f)
                        implies f == j by {
                        if f > j {
                            assert(old(self).is_released_by(resource_type@, start_date as int, j as int));
                        }
                    }
                }
                proof {
                    assert forall|k: (nat, Seq<char>), s: int|
                        k != resource_type@ && #[trigger] old(self).can_reserve(k, s) implies self.can_reserve(k, s) by {
                        if old(self).has_free(k) {
                            let w = choose|w: int| 0 <= w < old(self).free().len() && old(self).free()[w].resource_type@ == k;
                            assert(self.free()[w] == old(self).free()[w]);
                        } else {
                            let w = choose|w: int| old(self).is_released_by(k, s, w);
                            assert(w != j);
                            assert(self.reserved()[w] == old(self).reserved()[w]);
                            assert(self.is_released_by(k, s, w));
                        }
                    }
                    assert forall|k: (nat, Seq<char>)| #[trigger] old(self).has_kind(k) implies self.has_kind(k) by {
                        if exists|w: int| 0 <= w < old(self).free().len() && old(self).free()[w].resource_type@ == k {
                            let w = choose|w: int| 0 <= w < old(self).free().len() && old(self).free()[w].resource_type@ == k;
                            assert(self.free()[w] == old(self).free()[w]);
                        } else {
                            let w = choose|w: int|
                                0 <= w < old(self).reserved().len() && old(self).reserved()[w].resource.resource_type@ == k;
                            assert(self.reserved()[w].resource.resource_type@ == old(self).reserved()[w].resource.resource_type@);
                        }
                    }
                }
                proof {
                    assert forall|x: Resource| #[trigger] self.holds(x) <==> old(self).holds(x) by {
                        if exists|w: int| 0 <= w < self.free().len() && self.free()[w] == x {
                            let w = choose|w: int| 0 <= w < self.free().len() && self.free()[w] == x;
                            assert(old(self).free()[w] == x);
                        }
                        if exists|w: int| 0 <= w < self.reserved().len() && self.reserved()[w].resource == x {
                            let w = choose|w: int| 0 <= w < self.reserved().len() && self.reserved()[w].resource == x;
                            assert(old(self).reserved()[w].resource == x);
                        }
                        if exists|w: int| 0 <= w < old(self).free().len() && old(self).free()[w] == x {
                            let w = choose|w: int| 0 <= w < old(self).free().len() && old(self).free()[w] == x;
                            assert(self.free()[w] == x);
                        }
                        if exists|w: int| 0 <= w < old(self).reserved().len() && old(self).reserved()[w].resource == x {
                            let w = choose|w: int| 0 <= w < old(self).reserved().len() && old(self).reserved()[w].resource == x;
                            assert(self.reserved()[w].resource == x);
                        }
                    }
                    assert(old(self).reserved()[j as int].resource == res);
                    assert forall|b: int| #[trigger] old(self).releases_by(b) && start_date + duration <= b implies self.releases_by(b) by {
                        assert forall|l: int| 0 <= l < self.reserved().len() implies #[trigger] self.reserved()[l].free_date <= b by {
                            if l != j {
                                assert(self.reserved()[l] == old(self).reserved()[l]);
                            }
                        }
                    }
                }
                return Some(res);
            }
            j = j + 1;
        }
        None
    }
}

/// Looking a name up and writing the kind out again gives the name back, for every name
/// that is not one of the well-known ones.
pub proof fn lemma_unknown_name_round_trip(s: Seq<char>)
    requires
        kind_of_name(s).0 == tag_other(),
    ensures
        kind_of_name(s) == (tag_other(), s),
        name_of_kind(kind_of_name(s)) == s,
{
}

/// A well-known name is found as its own kind.
proof fn lemma_known_name_found(t: nat)
    requires
        t < tag_other(),
    ensures
        known_tag(known_name(t)) == Some(t),
{
    reveal_strlit("fermentor");
    reveal_strlit("kettle");
    reveal_strlit("mashtun");
    reveal_strlit("lautertun");
    reveal_strlit("keg");
    reveal_strlit("kegerator");
    let x = known_name(t);
    assert forall|u: nat| u < t implies known_name(u) != x by {
        let y = known_name(u);
        if x.len() == y.len() {
            assert(x[0] != y[0]);
        }
    }
}

/// Writing a kind out and looking the name up again gives the same kind.
pub proof fn lemma_kind_round_trip(k: (nat, Seq<char>))
    requires
        canonical_kind(k),
    ensures
        kind_of_name(name_of_kind(k)) == k,
{
    if k.0 != tag_other() {
        lemma_known_name_found(k.0);
    }
}

} // verus!
