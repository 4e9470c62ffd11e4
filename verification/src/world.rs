//! The world: entities, their archetypes and storage, relations, and the
//! build/spawn/despawn life cycle.

use vstd::prelude::*;
use crate::graph::MetaGraph;
use crate::accessor::{offset_of, AttrOffset, EntityAccessor, EntityRef};
use crate::archetype::{
    AliveEntry, distinct_names, strictly_sorted, ArchetypeId, Archetype, ArchetypeSchema, EntityAllocator,
    EntityId,
};
use crate::entity::EntityHandle;
use crate::interning::{InternedStr, StringInterner};
use crate::relations::{Relation, RelationGraph};
use crate::resonator::FieldMap;
use std::collections::HashMap;
use crate::serialization::{attrs_view, entities_view, entity_view, EntitySnapshot, SchemaSnapshot};
use crate::storage::{BufferMode, FieldIndex, FloatOffset, Storage};
use crate::typed_attrs::TypedAttr;
use crate::context::{CommandBuffer, SpawnRequest, WriteRequest};

verus! {

/// A named tick phase; phases run in the order they were added.
#[derive(Clone, Debug)]
pub struct Phase {
    pub name: String,
    pub order: u32,
}

/// Archetype indices `0..n`.
pub open spec fn index_range(n: nat) -> Seq<usize> {
    Seq::new(n, |i: int| i as usize)
}

/// What a build found odd about an archetype.
pub enum BuildWarning {
    /// Live entities but no resonators to run on them.
    EntityWithoutResonators { archetype_name: String, entity_count: usize },
    /// No live entities.
    EmptyArchetype { name: String },
}

/// A warning as (has entities, archetype name, entity count).
pub open spec fn warning_view(w: BuildWarning) -> (bool, Seq<char>, nat) {
    match w {
        BuildWarning::EntityWithoutResonators { archetype_name, entity_count } => (true, archetype_name@, entity_count as nat),
        BuildWarning::EmptyArchetype { name } => (false, name@, 0),
    }
}

/// Warnings for one archetype.
pub open spec fn warnings_for(a: Archetype) -> Seq<(bool, Seq<char>, nat)> {
    let alive = a.alive_entries_spec().len();
    if alive > 0 && a.resonator_types_spec().len() == 0 {
        seq![(true, a.name_spec(), alive)]
    } else if alive == 0 {
        seq![(false, a.name_spec(), 0nat)]
    } else {
        Seq::empty()
    }
}

/// Warnings for all archetypes, in order.
pub open spec fn all_warnings(archs: Seq<Archetype>) -> Seq<(bool, Seq<char>, nat)>
    decreases archs.len(),
{
    if archs.len() == 0 {
        Seq::empty()
    } else {
        all_warnings(archs.drop_last()) + warnings_for(archs.last())
    }
}

/// Summary of one archetype.
pub struct ArchetypeInfo {
    pub name: String,
    pub alive: usize,
    pub total_slots: usize,
    pub floats_per_entity: u16,
    pub resonator_count: usize,
}

/// Bits of the `f64` value `1.0`, the value of a set tag.
pub const ONE_BITS: u64 = 0x3FF0_0000_0000_0000;

/// Where a placed entity lives: archetype and slot.
#[derive(Clone, Copy, Debug, PartialEq, Eq, Structural)]
pub struct EntityLoc {
    pub archetype_idx: usize,
    pub inner_idx: usize,
}

/// An entity created but not yet placed in an archetype.
pub struct PendingEntity {
    pub entity_id: EntityId,
    pub name: InternedStr,
    pub schema: ArchetypeSchema,
    pub defaults: Vec<(FieldIndex, u64)>,
    pub resonator_types: Vec<String>,
}

impl PendingEntity {
    pub open spec fn wf(&self) -> bool {
        &&& self.schema.wf()
        &&& forall|k: int| 0 <= k < self.defaults@.len()
            ==> ((#[trigger] self.defaults@[k]).0.0 as int) < self.schema.field_names@.len()
    }
}

/// Value of field `f` after applying `defaults` in order to zeros.
pub open spec fn default_value(defaults: Seq<(FieldIndex, u64)>, f: int) -> u64
    decreases defaults.len(),
{
    if defaults.len() == 0 {
        0
    } else if defaults.last().0.0 as int == f {
        defaults.last().1
    } else {
        default_value(defaults.drop_last(), f)
    }
}

/// The value given for a field that no other entry of `defaults` names.
pub proof fn lemma_default_value_unique(defaults: Seq<(FieldIndex, u64)>, j: int)
    requires
        0 <= j < defaults.len(),
        forall|i: int| 0 <= i < defaults.len() && i != j ==> defaults[i].0 != defaults[j].0,
    ensures
        default_value(defaults, defaults[j].0.0 as int) == defaults[j].1,
    decreases defaults.len(),
{
    if j < defaults.len() - 1 {
        assert(defaults.last() == defaults[defaults.len() - 1]);
        lemma_default_value_unique(defaults.drop_last(), j);
    }
}

/// Whether some group of `groups` holds archetype `a`.
pub open spec fn in_some_group(groups: Seq<Vec<usize>>, a: usize) -> bool {
    exists|g: int| 0 <= g < groups.len() && (#[trigger] groups[g])@.contains(a)
}

/// The first phase with name `name`, given one at `q0`.
pub proof fn first_index_named(phases: Seq<(Seq<char>, u32)>, name: Seq<char>, q0: int) -> (q: int)
    requires
        0 <= q0 < phases.len(),
        phases[q0].0 == name,
    ensures
        0 <= q <= q0,
        phases[q].0 == name,
        forall|r: int| 0 <= r < q ==> #[trigger] phases[r].0 != phases[q].0,
    decreases q0,
{
    if exists|r: int| 0 <= r < q0 && #[trigger] phases[r].0 == name {
        let r = choose|r: int| 0 <= r < q0 && #[trigger] phases[r].0 == name;
        first_index_named(phases, name, r)
    } else {
        q0
    }
}

/// Whether two signatures are the same sequence.
pub fn same_signature(a: &Vec<InternedStr>, b: &Vec<InternedStr>) -> (r: bool)
    ensures
        r == (a@ == b@),
{
    if a.len() != b.len() {
        return false;
    }
    let n = a.len();
    let mut i: usize = 0;
    while i < n
        invariant
            n == a@.len(),
            n == b@.len(),
            i <= n,
            forall|j: int| 0 <= j < i ==> a@[j] == b@[j],
        decreases n - i,
    {
        if a[i].0 != b[i].0 {
            return false;
        }
        i = i + 1;
    }
    proof {
        assert(a@ =~= b@);
    }
    true
}

/// Grows `locs` with empty entries until position `idx` exists.
fn extend_locations(locs: &mut Vec<Option<EntityLoc>>, idx: usize)
    ensures
        final(locs)@.len() == if (idx as int) < old(locs)@.len() { old(locs)@.len() as int } else { idx + 1 },
        forall|q: int| 0 <= q < final(locs)@.len() ==> #[trigger] final(locs)@[q]
            == if q < old(locs)@.len() { old(locs)@[q] } else { None },
{
    while locs.len() <= idx
        invariant
            locs@.len() >= old(locs)@.len(),
            forall|q: int| 0 <= q < locs@.len() ==> #[trigger] locs@[q]
                == if q < old(locs)@.len() { old(locs)@[q] } else { None },
            locs@.len() <= if (idx as int) < old(locs)@.len() { old(locs)@.len() as int } else { idx + 1 },
        decreases idx + 1 - locs@.len(),
    {
        locs.push(None);
    }
}

/// The names of `types` that are registered, in order.
pub open spec fn registered_only(types: Seq<Seq<char>>, reg: Seq<Seq<char>>) -> Seq<Seq<char>> {
    types.filter(|t: Seq<char>| reg.contains(t))
}

/// The first queue entity before `k` with field set `sig` that names
/// resonator types.
pub open spec fn first_typed(ps: Seq<PendingEntity>, sigs: Seq<Seq<InternedStr>>, sig: Seq<InternedStr>, k: int) -> Option<int>
    decreases k,
{
    if k <= 0 {
        None
    } else {
        match first_typed(ps, sigs, sig, k - 1) {
            Some(i) => Some(i),
            None => if sigs[k - 1] == sig && ps[k - 1].resonator_types@.len() > 0 { Some(k - 1) } else { None },
        }
    }
}

/// Resonator types of an archetype with field set `sig` that had `base`
/// once the queue entities before `k` with that field set are placed in
/// it: `base` if it names any; else the registered ones among those named
/// by the first of the entities that names any; else none.
pub open spec fn types_after(base: Seq<Seq<char>>, ps: Seq<PendingEntity>, sigs: Seq<Seq<InternedStr>>, sig: Seq<InternedStr>, reg: Seq<Seq<char>>, k: int) -> Seq<Seq<char>> {
    if base.len() > 0 {
        base
    } else {
        match first_typed(ps, sigs, sig, k) {
            Some(i) => registered_only(strings_view(ps[i].resonator_types@), reg),
            None => Seq::empty(),
        }
    }
}

/// Some queue entity before `k` has field set `sig`.
pub open spec fn seen_sig(sigs: Seq<Seq<InternedStr>>, k: int, sig: Seq<InternedStr>) -> bool {
    exists|i: int| 0 <= i < k && #[trigger] sigs[i] == sig
}

/// No entity before `k` with field set `sig` means none names types.
pub proof fn lemma_first_typed_none(ps: Seq<PendingEntity>, sigs: Seq<Seq<InternedStr>>, sig: Seq<InternedStr>, k: int)
    requires
        forall|i: int| 0 <= i < k ==> #[trigger] sigs[i] != sig,
    ensures
        first_typed(ps, sigs, sig, k) is None,
    decreases k,
{
    if k > 0 {
        lemma_first_typed_none(ps, sigs, sig, k - 1);
    }
}

/// Sum of `vals[i]` over the positions `i < k` whose flag is not set.
pub open spec fn sum_unset(vals: Seq<int>, flags: Seq<bool>, k: int) -> int
    decreases k,
{
    if k <= 0 {
        0
    } else {
        sum_unset(vals, flags, k - 1) + if flags[k - 1] { 0 } else { vals[k - 1] }
    }
}

/// Setting flag `p` takes `vals[p]` off the sum.
pub proof fn lemma_sum_unset_set(vals: Seq<int>, flags: Seq<bool>, k: int, p: int)
    requires
        0 <= p < k <= flags.len(),
        !flags[p],
    ensures
        sum_unset(vals, flags.update(p, true), k) == sum_unset(vals, flags, k) - vals[p],
    decreases k,
{
    if k - 1 > p {
        lemma_sum_unset_set(vals, flags, k - 1, p);
    } else {
        lemma_sum_unset_same(vals, flags, flags.update(p, true), k - 1);
    }
}

/// The sum only reads the first `k` flags.
pub proof fn lemma_sum_unset_same(vals: Seq<int>, f1: Seq<bool>, f2: Seq<bool>, k: int)
    requires
        0 <= k <= f1.len(),
        k <= f2.len(),
        forall|i: int| 0 <= i < k ==> f1[i] == f2[i],
    ensures
        sum_unset(vals, f1, k) == sum_unset(vals, f2, k),
    decreases k,
{
    if k > 0 {
        lemma_sum_unset_same(vals, f1, f2, k - 1);
    }
}

/// An unset position counts in the sum of nonnegative values.
pub proof fn lemma_sum_unset_ge(vals: Seq<int>, flags: Seq<bool>, k: int, p: int)
    requires
        0 <= p < k <= flags.len(),
        k <= vals.len(),
        !flags[p],
        forall|i: int| 0 <= i < vals.len() ==> #[trigger] vals[i] >= 0,
    ensures
        sum_unset(vals, flags, k) >= vals[p],
    decreases k,
{
    lemma_sum_unset_nonneg(vals, flags, k - 1);
    if k - 1 > p {
        lemma_sum_unset_ge(vals, flags, k - 1, p);
    }
}

/// A sum of nonnegative values is nonnegative.
pub proof fn lemma_sum_unset_nonneg(vals: Seq<int>, flags: Seq<bool>, k: int)
    requires
        k <= flags.len(),
        k <= vals.len(),
        forall|i: int| 0 <= i < vals.len() ==> #[trigger] vals[i] >= 0,
    ensures
        sum_unset(vals, flags, k) >= 0,
    decreases k,
{
    if k > 0 {
        lemma_sum_unset_nonneg(vals, flags, k - 1);
    }
}

/// A count of unset flags is at most the number of positions.
pub proof fn lemma_sum_unset_ones(n: nat, flags: Seq<bool>, k: int)
    requires
        0 <= k <= flags.len(),
        k <= n,
    ensures
        0 <= sum_unset(ones(n), flags, k) <= k,
    decreases k,
{
    if k > 0 {
        lemma_sum_unset_ones(n, flags, k - 1);
    }
}

/// Number of float slots of each queued entity.
pub open spec fn widths(ps: Seq<PendingEntity>) -> Seq<int> {
    ps.map_values(|pe: PendingEntity| pe.schema.field_names@.len() as int)
}

/// One per queued entity.
pub open spec fn ones(n: nat) -> Seq<int> {
    Seq::new(n, |i: int| 1int)
}

/// Two strictly sorted lists with the same elements agree on their first
/// `k` places.
proof fn lemma_sorted_prefix(x: Seq<InternedStr>, y: Seq<InternedStr>, k: int)
    requires
        strictly_sorted(x),
        strictly_sorted(y),
        x.len() == y.len(),
        0 <= k <= x.len(),
        forall|e: InternedStr| x.contains(e) <==> y.contains(e),
    ensures
        forall|i: int| 0 <= i < k ==> x[i] == y[i],
    decreases k,
{
    if k > 0 {
        lemma_sorted_prefix(x, y, k - 1);
        let j = k - 1;
        if x[j] != y[j] {
            if x[j].0 < y[j].0 {
                assert(x.contains(x[j]));
                let m = choose|m: int| 0 <= m < y.len() && y[m] == x[j];
                if m < j {
                    assert(y[m] == x[m]);
                } else if m > j {
                    assert(y[j].0 < y[m].0);
                }
            } else {
                assert(y.contains(y[j]));
                let m = choose|m: int| 0 <= m < x.len() && x[m] == y[j];
                if m < j {
                    assert(x[m] == y[m]);
                } else if m > j {
                    assert(x[j].0 < x[m].0);
                }
            }
        }
    }
}

/// A schema has one signature.
pub proof fn lemma_signature_unique(x: Seq<InternedStr>, y: Seq<InternedStr>, schema: ArchetypeSchema)
    requires
        World::is_signature_of(x, schema),
        World::is_signature_of(y, schema),
    ensures
        x == y,
{
    lemma_sorted_prefix(x, y, x.len() as int);
    assert(x =~= y);
}

/// Two schemas with the same attribute names, in whatever order, have one
/// signature: a field set decides the archetype.
pub proof fn law_same_names_same_signature(x: Seq<InternedStr>, y: Seq<InternedStr>, s1: ArchetypeSchema, s2: ArchetypeSchema)
    requires
        World::is_signature_of(x, s1),
        World::is_signature_of(y, s2),
        s1.field_names@.len() == s2.field_names@.len(),
        forall|n: InternedStr| s1.field_names@.contains(n) <==> s2.field_names@.contains(n),
    ensures
        x == y,
{
    assert(World::is_signature_of(y, s1));
    lemma_signature_unique(x, y, s1);
}

/// Whether blocks `[o1, o1 + n1)` and `[o2, o2 + n2)` do not overlap.
pub open spec fn disjoint_blocks(o1: int, n1: int, o2: int, n2: int) -> bool {
    o1 + n1 <= o2 || o2 + n2 <= o1
}

pub struct World {
    interner: StringInterner,
    storage: Storage,
    archetypes: Vec<Archetype>,
    allocator: EntityAllocator,
    pending_entities: Vec<PendingEntity>,
    entity_locations: Vec<Option<EntityLoc>>,
    archetype_signatures: Vec<Vec<InternedStr>>,
    next_archetype_id: u32,
    built: bool,
    layout_version: u64,
    cached_entities: Vec<EntityHandle>,
    entities_dirty: bool,
    relations: RelationGraph,
    resonator_names: Vec<String>,
    phases: Vec<Phase>,
    archetype_phases: Vec<Option<String>>,
    prefab_registry: Vec<PrefabRegistration>,
    /// Graph metadata: an entity node per placed entity.
    pub meta_graph: MetaGraph,
}

/// A spawnable archetype registered by name: its attribute names and
/// default values, and the archetype with exactly those attributes once
/// one exists.
struct PrefabRegistration {
    archetype_name: String,
    attr_names: Vec<String>,
    attr_defaults: Vec<u64>,
    archetype_idx: Option<usize>,
}

/// Attribute names, default values and archetype of a registration.
pub type PrefabView = (Seq<Seq<char>>, Seq<u64>, Option<usize>);

/// Value given under `name`, the first pair naming it.
pub open spec fn lookup_named<T>(s: Seq<(Seq<char>, T)>, name: Seq<char>) -> Option<T>
    decreases s.len(),
{
    if s.len() == 0 {
        None
    } else if s[0].0 == name {
        Some(s[0].1)
    } else {
        lookup_named(s.drop_first(), name)
    }
}

pub proof fn lemma_lookup_named_at<T>(s: Seq<(Seq<char>, T)>, i: int, name: Seq<char>)
    requires
        0 <= i < s.len(),
        s[i].0 == name,
        forall|j: int| 0 <= j < i ==> s[j].0 != name,
    ensures
        lookup_named(s, name) == Some(s[i].1),
    decreases s.len(),
{
    if i > 0 {
        lemma_lookup_named_at(s.drop_first(), i - 1, name);
    }
}

pub proof fn lemma_lookup_named_none<T>(s: Seq<(Seq<char>, T)>, name: Seq<char>)
    requires
        forall|j: int| 0 <= j < s.len() ==> s[j].0 != name,
    ensures
        lookup_named(s, name) is None,
    decreases s.len(),
{
    if s.len() > 0 {
        lemma_lookup_named_none(s.drop_first(), name);
    }
}

/// Replacing the value of the first pair named `s[i].0` changes only what
/// that name looks up.
pub proof fn lemma_lookup_named_update<T>(s: Seq<(Seq<char>, T)>, i: int, v: T, n: Seq<char>)
    requires
        0 <= i < s.len(),
        forall|j: int| 0 <= j < i ==> s[j].0 != s[i].0,
    ensures
        lookup_named(s.update(i, (s[i].0, v)), n) == if n == s[i].0 { Some(v) } else { lookup_named(s, n) },
    decreases s.len(),
{
    let t = s.update(i, (s[i].0, v));
    if i > 0 {
        assert(t.drop_first() =~= s.drop_first().update(i - 1, (s[i].0, v)));
        assert(s.drop_first()[i - 1] == s[i]);
        assert forall|j: int| 0 <= j < i - 1 implies (#[trigger] s.drop_first()[j]).0 != s.drop_first()[i - 1].0 by {
            assert(s.drop_first()[j] == s[j + 1]);
        }
        lemma_lookup_named_update(s.drop_first(), i - 1, v, n);
        assert(t[0] == s[0]);
    } else {
        assert(t.drop_first() =~= s.drop_first());
    }
}

/// Appending a pair only adds a name not found before.
pub proof fn lemma_lookup_named_push<T>(s: Seq<(Seq<char>, T)>, x: (Seq<char>, T), n: Seq<char>)
    ensures
        lookup_named(s.push(x), n) == if lookup_named(s, n) is Some { lookup_named(s, n) } else if x.0 == n { Some(x.1) } else { None },
    decreases s.len(),
{
    if s.len() > 0 {
        assert(s.push(x).drop_first() =~= s.drop_first().push(x));
        assert(s.push(x)[0] == s[0]);
        lemma_lookup_named_push(s.drop_first(), x, n);
    } else {
        assert(s.push(x).drop_first() =~= s);
    }
}

/// The characters of each string.
pub open spec fn strings_view(v: Seq<String>) -> Seq<Seq<char>> {
    v.map_values(|n: String| n@)
}

/// An owned copy of `v`.
fn copy_strings(v: &Vec<String>) -> (r: Vec<String>)
    ensures
        strings_view(r@) == strings_view(v@),
{
    let mut r: Vec<String> = Vec::new();
    let n = v.len();
    let mut k: usize = 0;
    while k < n
        invariant
            n == v@.len(),
            k <= n,
            r@.len() == k,
            forall|j: int| 0 <= j < k ==> (#[trigger] r@[j])@ == v@[j]@,
        decreases n - k,
    {
        r.push(v[k].as_str().to_owned());
        k = k + 1;
    }
    proof {
        assert(strings_view(r@) =~= strings_view(v@));
    }
    r
}

/// The characters of each string slice.
pub open spec fn strs_view(v: Seq<&str>) -> Seq<Seq<char>> {
    v.map_values(|n: &str| n@)
}

/// Value given for `name` in `overrides`, else `d`.
pub open spec fn override_value(overrides: Seq<(Seq<char>, u64)>, name: Seq<char>, d: u64) -> u64 {
    match lookup_named(overrides, name) {
        Some(v) => v,
        None => d,
    }
}

/// The overrides as names and values.
pub open spec fn overrides_view(overrides: Seq<(String, u64)>) -> Seq<(Seq<char>, u64)> {
    overrides.map_values(|p: (String, u64)| (p.0@, p.1))
}

/// Whether `ids` are distinct and have exactly the elements of `sig`.
pub open spec fn matches_sig(ids: Seq<InternedStr>, sig: Seq<InternedStr>) -> bool {
    &&& ids.len() == sig.len()
    &&& distinct_names(ids)
    &&& forall|x: InternedStr| ids.contains(x) <==> sig.contains(x)
}

/// Ids of the names of `names` that `interner` holds, in order.
pub open spec fn interned_ids(names: Seq<Seq<char>>, interner: StringInterner) -> Seq<InternedStr>
    decreases names.len(),
{
    if names.len() == 0 {
        Seq::empty()
    } else {
        let rest = interned_ids(names.drop_last(), interner);
        match interner.find_spec(names.last()) {
            Some(id) => rest.push(id),
            None => rest,
        }
    }
}

/// Builds one entity: attributes are added one by one, then `done` queues
/// the entity for the next `build`.
pub struct EntityBuilder<'w> {
    pub world: &'w mut World,
    pub entity_id: EntityId,
    pub name: InternedStr,
    pub schema: ArchetypeSchema,
    pub defaults: Vec<(FieldIndex, u64)>,
    pub resonator_types: Vec<String>,
}

impl<'w> EntityBuilder<'w> {
    /// The pending entity this builder will queue.
    pub open spec fn pending_spec(&self) -> PendingEntity {
        PendingEntity {
            entity_id: self.entity_id,
            name: self.name,
            schema: self.schema,
            defaults: self.defaults,
            resonator_types: self.resonator_types,
        }
    }

    /// Whether the builder's entity can be queued in `w`: alive, not placed,
    /// not queued, with a consistent schema and defaults.
    pub open spec fn ready_in(&self, w: World) -> bool {
        &&& w.wf()
        &&& self.pending_spec().wf()
        &&& w.allocator_spec().is_alive_spec(self.entity_id)
        &&& w.unplaced(self.entity_id.index as int)
        &&& (self.name.0 as int) < w.names().names().len()
        &&& forall|p: int| 0 <= p < w.pending().len() ==> (#[trigger] w.pending()[p]).entity_id.index != self.entity_id.index
    }

    /// Adds float attribute `name` with `value` (the bits of an `f64`); a
    /// repeated name keeps its field and the later value wins.
    pub fn attr(self, name: &str, value: u64) -> (r: Self)
        requires
            self.ready_in(*old(self.world)),
            old(self.world).names().find_spec(name@) is None ==> old(self.world).names().names().len() < u32::MAX,
            self.schema.floats_per_entity < u16::MAX,
        ensures
            r.ready_in(*r.world),
            r.entity_id == self.entity_id,
            r.name == self.name,
            r.resonator_types@ == self.resonator_types@,
            ({
                let id = r.world.names().find_spec(name@).unwrap();
                &&& r.world.names().find_spec(name@) is Some
                &&& r.schema.find_spec(id) is Some
                &&& r.defaults@ == self.defaults@.push((r.schema.find_spec(id).unwrap(), value))
                &&& self.schema.field_names@.contains(id) ==> r.schema.field_names@ == self.schema.field_names@
                &&& !self.schema.field_names@.contains(id) ==> r.schema.field_names@ == self.schema.field_names@.push(id)
            }),
            r.world.archs() == old(self.world).archs(),
            r.world.locs() == old(self.world).locs(),
            r.world.pending() == old(self.world).pending(),
            r.world.allocator_spec() == old(self.world).allocator_spec(),
            r.world.store() == old(self.world).store(),
            old(self.world).names().names().len() <= r.world.names().names().len() <= old(self.world).names().names().len() + 1,
            r.world.prefabs_spec() == old(self.world).prefabs_spec(),
            r.world.layout_version_spec() == old(self.world).layout_version_spec(),
            r.world.names().names().subrange(0, old(self.world).names().names().len() as int) == old(self.world).names().names(),
            *final(r.world) == *final(self.world),
    {
        let EntityBuilder { world, entity_id, name: ename, mut schema, mut defaults, resonator_types } = self;
        proof {
            assert(*world == *old(self.world));
        }
        let id = world.interner.intern(name);
        proof {
            assert(world.names().names().subrange(0, old(self.world).names().names().len() as int) =~= old(self.world).names().names());
            assert(world.storage == old(self.world).storage);
            assert(world.names().wf());
            assert(world.archs() == old(self.world).archs());
            assert(world.locs() == old(self.world).locs());
            assert(world.allocator_spec() == old(self.world).allocator_spec());
            assert(world.pending() == old(self.world).pending());
            assert(world.sigs() == old(self.world).sigs());
            World::lemma_wf_new_names(*old(self.world), *world);
            assert(world.wf());
        }
        let field = schema.add_float(id);
        defaults.push((field, value));
        let r = EntityBuilder { world, entity_id, name: ename, schema, defaults, resonator_types };
        proof {
            assert(r.pending_spec().wf()) by {
                assert forall|k: int| 0 <= k < r.defaults@.len()
                    implies ((#[trigger] r.defaults@[k]).0.0 as int) < r.schema.field_names@.len() by {
                    if k < self.defaults@.len() {
                        assert(r.defaults@[k] == self.defaults@[k]);
                        assert(self.pending_spec().defaults@[k] == self.defaults@[k]);
                    } else {
                        r.schema.lemma_find_spec(id);
                    }
                }
            }
            let w = *r.world;
            assert(w.wf());
            assert(w.allocator_spec().is_alive_spec(r.entity_id));
            assert(w.unplaced(r.entity_id.index as int));
            assert(forall|p: int| 0 <= p < w.pending().len() ==> (#[trigger] w.pending()[p]).entity_id.index != r.entity_id.index) by {
                assert(w.pending() == old(self.world).pending());
            }
        }
        r
    }

    /// Adds attribute `A` with `value`.
    pub fn attr_typed<A: TypedAttr>(self, value: u64) -> (r: Self)
        requires
            self.ready_in(*old(self.world)),
            old(self.world).names().find_spec(A::NAME@) is None ==> old(self.world).names().names().len() < u32::MAX,
            self.schema.floats_per_entity < u16::MAX,
        ensures
            r.ready_in(*r.world),
            r.entity_id == self.entity_id,
            r.name == self.name,
            ({
                let id = r.world.names().find_spec(A::NAME@).unwrap();
                &&& r.world.names().find_spec(A::NAME@) is Some
                &&& r.schema.find_spec(id) is Some
                &&& r.defaults@ == self.defaults@.push((r.schema.find_spec(id).unwrap(), value))
            }),
            *final(r.world) == *final(self.world),
    {
        self.attr(A::NAME, value)
    }

    /// Adds tag `name`: the attribute set to one (the bits of `1.0`).
    pub fn tag(self, name: &str) -> (r: Self)
        requires
            self.ready_in(*old(self.world)),
            old(self.world).names().find_spec(name@) is None ==> old(self.world).names().names().len() < u32::MAX,
            self.schema.floats_per_entity < u16::MAX,
        ensures
            r.ready_in(*r.world),
            r.entity_id == self.entity_id,
            r.name == self.name,
            ({
                let id = r.world.names().find_spec(name@).unwrap();
                &&& r.world.names().find_spec(name@) is Some
                &&& r.schema.find_spec(id) is Some
                &&& r.defaults@ == self.defaults@.push((r.schema.find_spec(id).unwrap(), ONE_BITS))
            }),
            *final(r.world) == *final(self.world),
    {
        self.attr(name, ONE_BITS)
    }

    /// Adds tag `A`.
    pub fn tag_typed<A: TypedAttr>(self) -> (r: Self)
        requires
            self.ready_in(*old(self.world)),
            old(self.world).names().find_spec(A::NAME@) is None ==> old(self.world).names().names().len() < u32::MAX,
            self.schema.floats_per_entity < u16::MAX,
        ensures
            r.ready_in(*r.world),
            r.entity_id == self.entity_id,
            r.name == self.name,
            ({
                let id = r.world.names().find_spec(A::NAME@).unwrap();
                &&& r.world.names().find_spec(A::NAME@) is Some
                &&& r.schema.find_spec(id) is Some
                &&& r.defaults@ == self.defaults@.push((r.schema.find_spec(id).unwrap(), ONE_BITS))
            }),
            *final(r.world) == *final(self.world),
    {
        self.tag(A::NAME)
    }

    /// Attaches resonator type `kind_name` to the entity.
    pub fn resonator_type(self, kind_name: &str) -> (r: Self)
        requires
            self.ready_in(*old(self.world)),
        ensures
            r.ready_in(*r.world),
            r.entity_id == self.entity_id,
            r.name == self.name,
            r.schema == self.schema,
            r.defaults@ == self.defaults@,
            strings_view(r.resonator_types@) == strings_view(self.resonator_types@).push(kind_name@),
            *r.world == *old(self.world),
            *final(r.world) == *final(self.world),
    {
        let EntityBuilder { world, entity_id, name, schema, defaults, mut resonator_types } = self;
        resonator_types.push(kind_name.to_owned());
        let r = EntityBuilder { world, entity_id, name, schema, defaults, resonator_types };
        proof {
            assert(strings_view(r.resonator_types@) =~= strings_view(self.resonator_types@).push(kind_name@));
            assert forall|k: int| 0 <= k < r.defaults@.len()
                implies ((#[trigger] r.defaults@[k]).0.0 as int) < r.schema.field_names@.len() by {
                assert(self.pending_spec().defaults@[k] == r.defaults@[k]);
            }
        }
        r
    }

    /// Queues the entity for the next `build` and returns its handle.
    pub fn done(self) -> (h: EntityHandle)
        requires
            self.ready_in(*old(self.world)),
        ensures
            h == EntityHandle(self.entity_id),
            final(self.world).wf(),
            final(self.world).pending() == old(self.world).pending().push(self.pending_spec()),
            final(self.world).archs() == old(self.world).archs(),
            final(self.world).locs() == old(self.world).locs(),
            final(self.world).allocator_spec() == old(self.world).allocator_spec(),
            final(self.world).store() == old(self.world).store(),
            final(self.world).names() == old(self.world).names(),
            final(self.world).prefabs_spec() == old(self.world).prefabs_spec(),
            final(self.world).layout_version_spec() == old(self.world).layout_version_spec(),
    {
        let handle = EntityHandle(self.entity_id);
        let ghost pe = self.pending_spec();
        let EntityBuilder { world, entity_id, name, schema, defaults, resonator_types } = self;
        let pending = PendingEntity { entity_id, name, schema, defaults, resonator_types };
        world.pending_entities.push(pending);
        proof {
            let w = *world;
            assert(w.pending()[w.pending().len() - 1] == pe);
            assert(w.pending_wf()) by {
                assert forall|p: int| 0 <= p < w.pending().len() implies {
                    &&& (#[trigger] w.pending()[p]).wf()
                    &&& w.allocator_spec().is_alive_spec(w.pending()[p].entity_id)
                    &&& w.unplaced(w.pending()[p].entity_id.index as int)
                    &&& (w.pending()[p].name.0 as int) < w.names().names().len()
                } by {
                    if p < w.pending().len() - 1 {
                        assert(w.pending()[p] == old(self.world).pending()[p]);
                    }
                }
                assert forall|p: int, q: int| 0 <= p < q < w.pending().len()
                    implies w.pending()[p].entity_id.index != w.pending()[q].entity_id.index by {
                    assert(w.pending()[p] == old(self.world).pending()[p]);
                    if q < w.pending().len() - 1 {
                        assert(w.pending()[q] == old(self.world).pending()[q]);
                    }
                }
            }
        }
        handle
    }
}

impl World {
    pub closed spec fn archs(&self) -> Seq<Archetype> {
        self.archetypes@
    }

    pub closed spec fn locs(&self) -> Seq<Option<EntityLoc>> {
        self.entity_locations@
    }

    pub closed spec fn allocator_spec(&self) -> EntityAllocator {
        self.allocator
    }

    pub closed spec fn store(&self) -> Storage {
        self.storage
    }

    pub closed spec fn names(&self) -> StringInterner {
        self.interner
    }

    pub closed spec fn pending(&self) -> Seq<PendingEntity> {
        self.pending_entities@
    }

    pub closed spec fn sigs(&self) -> Seq<Seq<InternedStr>> {
        self.archetype_signatures@.map_values(|v: Vec<InternedStr>| v@)
    }

    pub closed spec fn layout_version_spec(&self) -> u64 {
        self.layout_version
    }

    /// Number of float slots per entity of archetype `a`.
    pub open spec fn width(&self, a: int) -> int {
        self.archs()[a].schema_spec().floats_per_entity as int
    }

    /// Float block start of slot `i` of archetype `a`.
    pub open spec fn block(&self, a: int, i: int) -> int {
        self.archs()[a].offset_seq()[i].0 as int
    }

    /// Whether `(a, i)` names a slot.
    pub open spec fn is_slot(&self, a: int, i: int) -> bool {
        0 <= a < self.archs().len() && 0 <= i < self.archs()[a].slot_count_spec()
    }

    /// Whether `sig` is the sorted field list of `schema`.
    pub open spec fn is_signature_of(sig: Seq<InternedStr>, schema: ArchetypeSchema) -> bool {
        &&& strictly_sorted(sig)
        &&& sig.len() == schema.field_names@.len()
        &&& forall|x: InternedStr| sig.contains(x) <==> schema.field_names@.contains(x)
    }

    pub closed spec fn next_archetype_id_spec(&self) -> nat {
        self.next_archetype_id as nat
    }

    pub open spec fn archetypes_wf(&self) -> bool {
        &&& self.sigs().len() == self.archs().len()
        &&& self.next_archetype_id_spec() == self.archs().len()
        &&& forall|a: int| 0 <= a < self.archs().len() ==> {
            &&& (#[trigger] self.archs()[a]).wf()
            &&& self.archs()[a].id_spec() == ArchetypeId(a as u32)
            &&& Self::is_signature_of(self.sigs()[a], self.archs()[a].schema_spec())
        }
        &&& forall|a: int, b: int| 0 <= a < b < self.archs().len() ==> self.sigs()[a] != self.sigs()[b]
    }

    pub open spec fn blocks_wf(&self) -> bool {
        &&& forall|a: int, i: int| self.is_slot(a, i)
            ==> (#[trigger] self.archs()[a].offset_seq()[i]).0 + self.width(a) <= self.store().front().len()
        &&& forall|a: int, i: int, b: int, j: int|
            self.is_slot(a, i) && self.is_slot(b, j) && (a != b || i != j)
            ==> disjoint_blocks(
                (#[trigger] self.archs()[a].offset_seq()[i]).0 as int, self.width(a),
                (#[trigger] self.archs()[b].offset_seq()[j]).0 as int, self.width(b))
    }

    pub open spec fn locations_wf(&self) -> bool {
        &&& forall|k: int| 0 <= k < self.locs().len() && (#[trigger] self.locs()[k]) is Some ==> {
            let loc = self.locs()[k].unwrap();
            &&& self.is_slot(loc.archetype_idx as int, loc.inner_idx as int)
            &&& self.archs()[loc.archetype_idx as int].is_alive_spec(loc.inner_idx as int)
            &&& self.archs()[loc.archetype_idx as int].entity_seq()[loc.inner_idx as int].index == k
        }
        &&& forall|a: int, i: int| self.is_slot(a, i) && self.archs()[a].is_alive_spec(i) ==> {
            let e = #[trigger] self.archs()[a].entity_seq()[i];
            &&& (e.index as int) < self.locs().len()
            &&& self.locs()[e.index as int] == Some(EntityLoc { archetype_idx: a as usize, inner_idx: i as usize })
            &&& self.allocator_spec().is_alive_spec(e)
        }
    }

    /// Whether entity slot `k` has no placed entity.
    pub open spec fn unplaced(&self, k: int) -> bool {
        k >= self.locs().len() || self.locs()[k] is None
    }

    pub open spec fn pending_wf(&self) -> bool {
        &&& forall|p: int| 0 <= p < self.pending().len() ==> {
            &&& (#[trigger] self.pending()[p]).wf()
            &&& self.allocator_spec().is_alive_spec(self.pending()[p].entity_id)
            &&& self.unplaced(self.pending()[p].entity_id.index as int)
            &&& (self.pending()[p].name.0 as int) < self.names().names().len()
        }
        &&& forall|p: int, q: int| 0 <= p < q < self.pending().len()
            ==> self.pending()[p].entity_id.index != self.pending()[q].entity_id.index
    }

    /// Each freed entity slot is dead and listed once.
    pub open spec fn free_wf(&self) -> bool {
        &&& forall|k: int| 0 <= k < self.allocator_spec().free().len()
            ==> !self.allocator_spec().alive()[(#[trigger] self.allocator_spec().free()[k]) as int]
        &&& forall|k1: int, k2: int| 0 <= k1 < k2 < self.allocator_spec().free().len()
            ==> self.allocator_spec().free()[k1] != self.allocator_spec().free()[k2]
    }

    pub open spec fn wf(&self) -> bool {
        &&& self.free_wf()
        &&& self.rels().wf()
        &&& self.names().wf()
        &&& self.allocator_spec().wf()
        &&& self.store().wf()
        &&& self.archetypes_wf()
        &&& self.blocks_wf()
        &&& self.locations_wf()
        &&& self.pending_wf()
        &&& self.locs().len() <= self.allocator_spec().gens().len()
        &&& self.meta_spec().wf()
        &&& self.rels().mirrored()
    }

    /// Where the placed, live entity `e` is.
    pub open spec fn loc_of(&self, e: EntityHandle) -> Option<EntityLoc> {
        if self.allocator_spec().is_alive_spec(e.0) && (e.0.index as int) < self.locs().len() {
            self.locs()[e.0.index as int]
        } else {
            None
        }
    }

    /// Storage position of attribute `attr` of entity `e`, if it has one.
    pub open spec fn pos(&self, e: EntityHandle, attr: InternedStr) -> Option<int> {
        match self.loc_of(e) {
            Some(loc) => {
                let arch = self.archs()[loc.archetype_idx as int];
                if arch.is_alive_spec(loc.inner_idx as int) {
                    match arch.schema_spec().find_spec(attr) {
                        Some(f) => Some(arch.offset_seq()[loc.inner_idx as int].0 + f.0),
                        None => None,
                    }
                } else {
                    None
                }
            },
            None => None,
        }
    }

    /// Value of attribute `attr` of entity `e`, if it has one.
    pub open spec fn read_spec(&self, e: EntityHandle, attr: InternedStr) -> Option<u64> {
        match self.pos(e, attr) {
            Some(p) => Some(self.store().front()[p]),
            None => None,
        }
    }

    pub fn new() -> (w: Self)
        ensures
            w.wf(),
            w.archs() == Seq::<Archetype>::empty(),
            w.locs() == Seq::<Option<EntityLoc>>::empty(),
            w.pending() == Seq::<PendingEntity>::empty(),
            w.allocator_spec().gens() == Seq::<u32>::empty(),
            w.allocator_spec().free() == Seq::<u32>::empty(),
            w.names().names() == Seq::<Seq<char>>::empty(),
            w.store().mode_spec() == BufferMode::Single,
            w.store().front() == Seq::<u64>::empty(),
            w.layout_version_spec() == 1,
    {
        let w = World {
            interner: StringInterner::new(),
            storage: Storage::new(),
            archetypes: Vec::new(),
            allocator: EntityAllocator::new(),
            pending_entities: Vec::new(),
            entity_locations: Vec::new(),
            archetype_signatures: Vec::new(),
            next_archetype_id: 0,
            built: false,
            layout_version: 1,
            cached_entities: Vec::new(),
            entities_dirty: true,
            relations: RelationGraph::new(),
            resonator_names: Vec::new(),
            phases: Vec::new(),
            archetype_phases: Vec::new(),
            prefab_registry: Vec::new(),
            meta_graph: MetaGraph::new(),
        };
        proof {
            assert(w.sigs() =~= Seq::<Seq<InternedStr>>::empty());
        }
        w
    }

    /// Whether `entity` is alive.
    pub fn is_alive(&self, entity: EntityHandle) -> (b: bool)
        requires
            self.wf(),
        ensures
            b == self.allocator_spec().is_alive_spec(entity.0),
    {
        self.allocator.is_alive(entity.0)
    }

    /// Where the placed, live entity `entity` is.
    pub fn location(&self, entity: EntityHandle) -> (r: Option<EntityLoc>)
        requires
            self.wf(),
        ensures
            r == self.loc_of(entity),
    {
        if !self.allocator.is_alive(entity.0) {
            return None;
        }
        let idx = entity.0.index as usize;
        if idx < self.entity_locations.len() {
            self.entity_locations[idx]
        } else {
            None
        }
    }

    /// Storage position of attribute `attr_id` of `entity`.
    pub fn position(&self, entity: EntityHandle, attr_id: InternedStr) -> (r: Option<usize>)
        requires
            self.wf(),
        ensures
            r matches Some(p) ==> self.pos(entity, attr_id) == Some(p as int),
            r is None ==> self.pos(entity, attr_id) is None,
            r matches Some(p) ==> (p as int) < self.store().front().len(),
    {
        let loc = match self.location(entity) {
            Some(l) => l,
            None => return None,
        };
        let arch = &self.archetypes[loc.archetype_idx];
        if !arch.is_alive(loc.inner_idx) {
            return None;
        }
        let field = match arch.schema().find_field(attr_id) {
            Some(f) => f,
            None => return None,
        };
        let offset = arch.offset_at(loc.inner_idx);
        proof {
            assert(self.is_slot(loc.archetype_idx as int, loc.inner_idx as int));
            assert(self.archs()[loc.archetype_idx as int].offset_seq()[loc.inner_idx as int] == offset);
            arch.schema_spec().lemma_find_spec(attr_id);
        }
        Some(offset.0 as usize + field.0 as usize)
    }

    /// Value of attribute `attr_id` of `entity`.
    pub fn read_by_id(&self, entity: EntityHandle, attr_id: InternedStr) -> (r: Option<u64>)
        requires
            self.wf(),
        ensures
            r == self.read_spec(entity, attr_id),
    {
        match self.position(entity, attr_id) {
            Some(p) => Some(self.storage.read_abs(p)),
            None => None,
        }
    }

    /// Storage position of the attribute named `name` of entity `e`.
    pub open spec fn attr_pos(&self, e: EntityHandle, name: Seq<char>) -> Option<int> {
        match self.names().find_spec(name) {
            Some(id) => self.pos(e, id),
            None => None,
        }
    }

    /// Current layout version; every build bumps it.
    pub fn layout_version(&self) -> (v: u64)
        ensures
            v == self.layout_version_spec(),
    {
        self.layout_version
    }

    /// The attribute name table.
    pub fn interner(&self) -> (r: &StringInterner)
        ensures
            *r == self.names(),
    {
        &self.interner
    }

    /// Number of archetypes.
    pub fn archetype_count(&self) -> (n: usize)
        ensures
            n == self.archs().len(),
    {
        self.archetypes.len()
    }

    /// Archetype `idx`.
    pub fn archetype_at(&self, idx: usize) -> (r: &Archetype)
        requires
            (idx as int) < self.archs().len(),
        ensures
            *r == self.archs()[idx as int],
    {
        &self.archetypes[idx]
    }

    /// Value stored at absolute float position `offset`; 0 past the end.
    pub open spec fn read_abs_spec(&self, offset: int) -> u64 {
        if 0 <= offset < self.store().front().len() { self.store().front()[offset] } else { 0 }
    }

    /// Value stored at absolute float position `offset`; 0 past the end.
    pub fn read_offset(&self, offset: usize) -> (v: u64)
        requires
            self.wf(),
        ensures
            v == self.read_abs_spec(offset as int),
    {
        self.storage.read_abs(offset)
    }

    /// What storing `value` at absolute position `offset` does: that
    /// position changes, if it exists, and nothing else.
    pub open spec fn wrote_offset(w1: World, w2: World, offset: int, value: u64) -> bool {
        &&& w2.wf()
        &&& w2.store().front() == Storage::write_spec(w1.store().front(), offset, value)
        &&& w2.store().mode_spec() == w1.store().mode_spec()
        &&& w2.archs() == w1.archs()
        &&& w2.locs() == w1.locs()
        &&& w2.allocator_spec() == w1.allocator_spec()
        &&& w2.pending() == w1.pending()
        &&& w2.names() == w1.names()
        &&& w2.sigs() == w1.sigs()
        &&& w2.rels() == w1.rels()
        &&& w2.registered() == w1.registered()
        &&& w2.layout_version_spec() == w1.layout_version_spec()
    }

    /// Stores `value` at absolute float position `offset`; a position past
    /// the end is ignored.
    pub fn write_offset(&mut self, offset: usize, value: u64)
        requires
            old(self).wf(),
        ensures
            World::wrote_offset(*old(self), *final(self), offset as int, value),
            final(self).prefabs_spec() == old(self).prefabs_spec(),
    {
        self.storage.write_abs(offset, value);
        proof {
            World::lemma_wf_new_store(*old(self), *self);
        }
    }

    /// A placed entity's slot is live, and its block lies in storage.
    pub proof fn lemma_loc_slot(&self, e: EntityHandle)
        requires
            self.wf(),
            self.loc_of(e) is Some,
        ensures
            ({
                let l = self.loc_of(e).unwrap();
                &&& self.is_slot(l.archetype_idx as int, l.inner_idx as int)
                &&& self.archs()[l.archetype_idx as int].is_alive_spec(l.inner_idx as int)
                &&& self.block(l.archetype_idx as int, l.inner_idx as int) + self.width(l.archetype_idx as int) <= self.store().front().len()
            }),
    {
        let l = self.loc_of(e).unwrap();
        assert(self.locs()[e.0.index as int] is Some);
        assert(self.is_slot(l.archetype_idx as int, l.inner_idx as int));
        assert(self.archs()[l.archetype_idx as int].offset_seq()[l.inner_idx as int].0 + self.width(l.archetype_idx as int) <= self.store().front().len());
    }

    /// An archetype's schema is well formed and has `width` fields.
    pub proof fn lemma_arch_width(&self, a: int)
        requires
            self.wf(),
            0 <= a < self.archs().len(),
        ensures
            self.archs()[a].schema_spec().wf(),
            self.archs()[a].schema_spec().field_names@.len() == self.width(a),
    {
        assert(self.archs()[a].wf());
    }

    /// Whether `e` is alive in this world.
    pub open spec fn live(&self) -> spec_fn(EntityId) -> bool {
        |e: EntityId| self.allocator_spec().is_alive_spec(e)
    }

    /// Handles of the live ids of `ids`, in order.
    pub open spec fn live_handles_spec(&self, ids: Seq<EntityId>) -> Seq<EntityHandle> {
        ids.filter(self.live()).map_values(|e: EntityId| EntityHandle(e))
    }

    /// Handles of the live ids of `ids`, in order.
    fn live_handles(&self, ids: Vec<EntityId>) -> (r: Vec<EntityHandle>)
        requires
            self.wf(),
        ensures
            r@ == self.live_handles_spec(ids@),
    {
        let mut out: Vec<EntityHandle> = Vec::new();
        let n = ids.len();
        let mut i: usize = 0;
        while i < n
            invariant
                self.wf(),
                n == ids@.len(),
                i <= n,
                out@ == self.live_handles_spec(ids@.subrange(0, i as int)),
            decreases n - i,
        {
            let ghost pre = ids@.subrange(0, i as int);
            proof {
                assert(ids@.subrange(0, i + 1) =~= pre.push(ids@[i as int]));
                pre.lemma_filter_push(ids@[i as int], self.live());
            }
            if self.allocator.is_alive(ids[i]) {
                out.push(EntityHandle(ids[i]));
                proof {
                    assert(out@ =~= self.live_handles_spec(ids@.subrange(0, i + 1)));
                }
            } else {
                proof {
                    assert(out@ =~= self.live_handles_spec(ids@.subrange(0, i + 1)));
                }
            }
            i = i + 1;
        }
        proof {
            assert(ids@.subrange(0, n as int) =~= ids@);
        }
        out
    }

    /// Replacing the relation graph with a well-formed one keeps a world
    /// well formed.
    proof fn lemma_wf_new_rels(w1: World, w2: World)
        requires
            w1.wf(),
            w2.rels().wf(),
            w2.rels().mirrored(),
            w2 == (World { relations: w2.relations, ..w1 }),
        ensures
            w2.wf(),
    {
        assert(w2.archs() == w1.archs());
        assert(w2.locs() == w1.locs());
        assert(w2.allocator_spec() == w1.allocator_spec());
        assert(w2.store() == w1.store());
        assert(w2.pending() == w1.pending());
        assert(w2.sigs() == w1.sigs());
        assert(w2.names() == w1.names());
        assert(w2.blocks_wf());
        assert(w2.locations_wf());
    }

    /// In a well-formed world, `t` is among the targets of relation `rel`
    /// from `s` exactly when `s` is among the sources of `rel` into `t`.
    pub proof fn law_relations_agree(w: World, s: EntityId, t: EntityId, rel: u32)
        requires
            w.wf(),
        ensures
            crate::relations::ends_with(w.rels().fwd(s), rel).contains(t)
                <==> crate::relations::ends_with(w.rels().bwd(t), rel).contains(s),
    {
        crate::relations::law_targets_and_sources_agree(w.rels(), s, t, rel);
    }

    /// Everything but the relation graph is unchanged.
    pub open spec fn only_rels_changed(w1: World, w2: World) -> bool {
        &&& w2.archs() == w1.archs()
        &&& w2.locs() == w1.locs()
        &&& w2.allocator_spec() == w1.allocator_spec()
        &&& w2.store() == w1.store()
        &&& w2.pending() == w1.pending()
        &&& w2.names() == w1.names()
        &&& w2.sigs() == w1.sigs()
        &&& w2.registered() == w1.registered()
        &&& w2.layout_version_spec() == w1.layout_version_spec()
    }

    /// Adds relation `R` from `source` to `target` when both are alive.
    pub fn add_relation<R: Relation>(&mut self, source: EntityHandle, target: EntityHandle)
        requires
            old(self).wf(),
            old(self).rels().rel_id_spec(R::NAME@) is None ==> old(self).rels().rel_names().len() < u32::MAX,
        ensures
            final(self).wf(),
            !(old(self).allocator_spec().is_alive_spec(source.0) && old(self).allocator_spec().is_alive_spec(target.0))
                ==> *final(self) == *old(self),
            old(self).allocator_spec().is_alive_spec(source.0) && old(self).allocator_spec().is_alive_spec(target.0) ==> {
                &&& final(self).rels().rel_id_spec(R::NAME@) is Some
                &&& {
                    let rel = final(self).rels().rel_id_spec(R::NAME@).unwrap();
                    &&& forall|e: EntityId| #[trigger] final(self).rels().fwd(e) == if e == source.0 {
                        old(self).rels().fwd(source.0).push((rel, target.0))
                    } else {
                        old(self).rels().fwd(e)
                    }
                    &&& forall|e: EntityId| #[trigger] final(self).rels().bwd(e) == if e == target.0 {
                        old(self).rels().bwd(target.0).push((rel, source.0))
                    } else {
                        old(self).rels().bwd(e)
                    }
                }
                &&& forall|n: Seq<char>| old(self).rels().rel_id_spec(n) is Some
                    ==> final(self).rels().rel_id_spec(n) == old(self).rels().rel_id_spec(n)
            },
            World::only_rels_changed(*old(self), *final(self)),
    {
        if self.is_alive(source) && self.is_alive(target) {
            self.relations.add::<R>(source.0, target.0);
            proof {
                World::lemma_wf_new_rels(*old(self), *self);
            }
        }
    }

    /// The first live target of relation `R` from `source`, if that is the
    /// first target.
    pub fn get_relation<R: Relation>(&self, source: EntityHandle) -> (r: Option<EntityHandle>)
        requires
            self.wf(),
        ensures
            r == (match self.rels().rel_id_spec(R::NAME@) {
                Some(rel) => {
                    let ends = crate::relations::ends_with(self.rels().fwd(source.0), rel);
                    if ends.len() > 0 && self.allocator_spec().is_alive_spec(ends[0]) {
                        Some(EntityHandle(ends[0]))
                    } else {
                        None
                    }
                },
                None => None,
            }),
    {
        match self.relations.get::<R>(source.0) {
            Some(e) => {
                if self.allocator.is_alive(e) {
                    Some(EntityHandle(e))
                } else {
                    None
                }
            },
            None => None,
        }
    }

    /// The live targets of relation `R` from `source`, in the order added.
    pub fn get_all_relations<R: Relation>(&self, source: EntityHandle) -> (r: Vec<EntityHandle>)
        requires
            self.wf(),
        ensures
            r@ == self.live_handles_spec(match self.rels().rel_id_spec(R::NAME@) {
                Some(rel) => crate::relations::ends_with(self.rels().fwd(source.0), rel),
                None => Seq::<EntityId>::empty(),
            }),
    {
        let ids = self.relations.get_all::<R>(source.0);
        self.live_handles(ids)
    }

    /// The live sources of relation `R` into `target`, in the order added.
    pub fn get_reverse_relations<R: Relation>(&self, target: EntityHandle) -> (r: Vec<EntityHandle>)
        requires
            self.wf(),
        ensures
            r@ == self.live_handles_spec(match self.rels().rel_id_spec(R::NAME@) {
                Some(rel) => crate::relations::ends_with(self.rels().bwd(target.0), rel),
                None => Seq::<EntityId>::empty(),
            }),
    {
        let ids = self.relations.get_reverse::<R>(target.0);
        self.live_handles(ids)
    }

    /// Removes every `R` edge from `source` to `target`.
    pub fn remove_relation<R: Relation>(&mut self, source: EntityHandle, target: EntityHandle)
        requires
            old(self).wf(),
        ensures
            final(self).wf(),
            final(self).rels().rel_names() == old(self).rels().rel_names(),
            old(self).rels().rel_id_spec(R::NAME@) is None ==> final(self).rels().same_edges(&old(self).rels()),
            old(self).rels().rel_id_spec(R::NAME@) matches Some(rel) ==> {
                &&& forall|e: EntityId| #[trigger] final(self).rels().fwd(e) == if e == source.0 {
                    crate::relations::without_edge(old(self).rels().fwd(source.0), rel, target.0)
                } else {
                    old(self).rels().fwd(e)
                }
                &&& forall|e: EntityId| #[trigger] final(self).rels().bwd(e) == if e == target.0 {
                    crate::relations::without_edge(old(self).rels().bwd(target.0), rel, source.0)
                } else {
                    old(self).rels().bwd(e)
                }
            },
            World::only_rels_changed(*old(self), *final(self)),
    {
        self.relations.remove::<R>(source.0, target.0);
        proof {
            World::lemma_wf_new_rels(*old(self), *self);
        }
    }

    /// Removes every `R` edge out of `source`.
    pub fn remove_all_relations<R: Relation>(&mut self, source: EntityHandle)
        requires
            old(self).wf(),
        ensures
            final(self).wf(),
            final(self).rels().rel_names() == old(self).rels().rel_names(),
            old(self).rels().rel_id_spec(R::NAME@) is None ==> final(self).rels().same_edges(&old(self).rels()),
            old(self).rels().rel_id_spec(R::NAME@) matches Some(rel) ==> {
                &&& forall|e: EntityId| #[trigger] final(self).rels().fwd(e) == if e == source.0 {
                    crate::relations::without_rel(old(self).rels().fwd(source.0), rel)
                } else {
                    old(self).rels().fwd(e)
                }
                &&& forall|x: EntityId| #[trigger] final(self).rels().bwd(x)
                    == old(self).rels().bwd(x).filter(crate::relations::strip(
                        old(self).rels().fwd(source.0).filter(crate::relations::has_rel(rel)), x, source.0))
            },
            World::only_rels_changed(*old(self), *final(self)),
    {
        self.relations.remove_all::<R>(source.0);
        proof {
            World::lemma_wf_new_rels(*old(self), *self);
        }
    }

    /// Whether `source` has an `R` edge, live target or not.
    pub fn has_relation<R: Relation>(&self, source: EntityHandle) -> (b: bool)
        requires
            self.wf(),
        ensures
            b == (match self.rels().rel_id_spec(R::NAME@) {
                Some(rel) => crate::relations::ends_with(self.rels().fwd(source.0), rel).len() > 0,
                None => false,
            }),
    {
        self.relations.has::<R>(source.0)
    }

    /// Value of attribute `A` of `entity`.
    pub fn read_typed<A: TypedAttr>(&self, entity: EntityHandle) -> (r: Option<u64>)
        requires
            self.wf(),
        ensures
            r == match self.names().find_spec(A::NAME@) {
                Some(id) => self.read_spec(entity, id),
                None => None,
            },
    {
        self.read(entity, A::NAME)
    }

    /// Writes attribute `A` of `entity`; returns whether it was written.
    pub fn write_typed<A: TypedAttr>(&mut self, entity: EntityHandle, value: u64) -> (ok: bool)
        requires
            old(self).wf(),
        ensures
            final(self).wf(),
            ok == match old(self).names().find_spec(A::NAME@) {
                Some(id) => old(self).pos(entity, id) is Some,
                None => false,
            },
            ok ==> final(self).read_spec(entity, old(self).names().find_spec(A::NAME@).unwrap()) == Some(value),
            forall|e2: EntityHandle, a2: InternedStr|
                !(ok && e2 == entity && Some(a2) == old(self).names().find_spec(A::NAME@))
                ==> #[trigger] final(self).read_spec(e2, a2) == old(self).read_spec(e2, a2),
            final(self).archs() == old(self).archs(),
            final(self).locs() == old(self).locs(),
            final(self).allocator_spec() == old(self).allocator_spec(),
            final(self).pending() == old(self).pending(),
            final(self).names() == old(self).names(),
    {
        self.write(entity, A::NAME, value)
    }

    /// Whether `entity` has attribute `A` set to one (the bits of `1.0`).
    pub fn has_tag<A: TypedAttr>(&self, entity: EntityHandle) -> (b: bool)
        requires
            self.wf(),
        ensures
            b == (match self.names().find_spec(A::NAME@) {
                Some(id) => self.read_spec(entity, id),
                None => None,
            } == Some(ONE_BITS)),
    {
        match self.read_typed::<A>(entity) {
            Some(v) => v == ONE_BITS,
            None => false,
        }
    }

    /// Whether `entity` has attribute `A`.
    pub fn has_attr<A: TypedAttr>(&self, entity: EntityHandle) -> (b: bool)
        requires
            self.wf(),
        ensures
            b == (match self.names().find_spec(A::NAME@) {
                Some(id) => self.read_spec(entity, id),
                None => None,
            } is Some),
    {
        self.read_typed::<A>(entity).is_some()
    }

    /// A reference to a live, placed `entity`'s block.
    pub fn entity_ref(&self, entity: EntityHandle) -> (r: Option<EntityRef>)
        requires
            self.wf(),
        ensures
            r is Some <==> self.loc_of(entity) is Some,
            r matches Some(er) ==> {
                let loc = self.loc_of(entity).unwrap();
                &&& er.archetype_idx_spec() == loc.archetype_idx
                &&& er.inner_idx_spec() == loc.inner_idx
                &&& er.base_offset_spec() as int == self.block(loc.archetype_idx as int, loc.inner_idx as int)
                &&& er.layout_version_spec() == self.layout_version_spec()
                &&& er.entity_spec() == entity.0
                &&& er.fits(*self)
            },
    {
        EntityRef::new(self, entity)
    }

    /// Resolved position of attribute `A` of `entity`.
    pub fn absolute_offset<A: TypedAttr>(&self, entity: EntityHandle) -> (r: Option<AttrOffset>)
        requires
            self.wf(),
        ensures
            r is Some <==> self.attr_pos(entity, A::NAME@) is Some,
            r matches Some(o) ==> o == offset_of(*self, entity, A::NAME@),
    {
        EntityAccessor::resolve::<A>(self, entity)
    }

    /// The live entity in slot `index`, with the slot's current generation,
    /// if one is placed there.
    pub fn get_handle_by_index(&self, index: u32) -> (r: Option<EntityHandle>)
        requires
            self.wf(),
        ensures
            r == if (index as int) < self.allocator_spec().alive().len() && self.allocator_spec().alive()[index as int]
                && (index as int) < self.locs().len() && self.locs()[index as int] is Some {
                Some(EntityHandle(EntityId { index, generation: self.allocator_spec().generation_spec(index) }))
            } else {
                None
            },
    {
        if !self.allocator.is_alive_index(index) {
            return None;
        }
        let idx = index as usize;
        if idx < self.entity_locations.len() {
            match self.entity_locations[idx] {
                Some(loc) => {
                    proof {
                        assert(self.locs()[idx as int] is Some);
                        assert(self.is_slot(loc.archetype_idx as int, loc.inner_idx as int));
                    }
                    let arch = &self.archetypes[loc.archetype_idx];
                    if arch.is_alive(loc.inner_idx) {
                        let generation = self.allocator.generation_of(index);
                        return Some(EntityHandle(EntityId::new(index, generation)));
                    }
                    None
                },
                None => None,
            }
        } else {
            None
        }
    }

    /// Number of live entities over all archetypes.
    pub open spec fn alive_total(archs: Seq<Archetype>) -> int
        decreases archs.len(),
    {
        if archs.len() == 0 {
            0
        } else {
            Self::alive_total(archs.drop_last()) + archs.last().alive_entries_spec().len()
        }
    }

    proof fn lemma_alive_total_prefix(archs: Seq<Archetype>, i: int)
        requires
            0 <= i <= archs.len(),
        ensures
            Self::alive_total(archs.subrange(0, i)) <= Self::alive_total(archs),
        decreases archs.len(),
    {
        if i < archs.len() {
            assert(archs.drop_last() =~= archs.subrange(0, archs.len() - 1));
            Self::lemma_alive_total_prefix(archs.drop_last(), i);
            assert(archs.drop_last().subrange(0, i) =~= archs.subrange(0, i));
        } else {
            assert(archs.subrange(0, i) =~= archs);
        }
    }

    /// Number of live entities.
    pub fn alive_count(&self) -> (n: usize)
        requires
            self.wf(),
            Self::alive_total(self.archs()) <= usize::MAX,
        ensures
            n == Self::alive_total(self.archs()),
    {
        let len = self.archetypes.len();
        let mut total: usize = 0;
        let mut i: usize = 0;
        while i < len
            invariant
                self.wf(),
                len == self.archs().len(),
                Self::alive_total(self.archs()) <= usize::MAX,
                i <= len,
                total == Self::alive_total(self.archs().subrange(0, i as int)),
            decreases len - i,
        {
            proof {
                assert(self.archs()[i as int].wf());
                let next = self.archs().subrange(0, i + 1);
                assert(next.drop_last() =~= self.archs().subrange(0, i as int));
                Self::lemma_alive_total_prefix(self.archs(), i + 1);
            }
            total = total + self.archetypes[i].alive_count();
            i = i + 1;
        }
        proof {
            assert(self.archs().subrange(0, len as int) =~= self.archs());
        }
        total
    }

    /// Live entities, archetype by archetype, each in slot order.
    pub open spec fn entities_spec(archs: Seq<Archetype>) -> Seq<EntityHandle>
        decreases archs.len(),
    {
        if archs.len() == 0 {
            Seq::empty()
        } else {
            Self::entities_spec(archs.drop_last())
                + archs.last().alive_entries_spec().map_values(|x: AliveEntry| EntityHandle(x.1))
        }
    }

    /// Live entities, archetype by archetype, each in slot order.
    pub fn entities_iter(&self) -> (r: Vec<EntityHandle>)
        requires
            self.wf(),
        ensures
            r@ == Self::entities_spec(self.archs()),
    {
        let mut out: Vec<EntityHandle> = Vec::new();
        let len = self.archetypes.len();
        let mut i: usize = 0;
        while i < len
            invariant
                self.wf(),
                len == self.archs().len(),
                i <= len,
                out@ == Self::entities_spec(self.archs().subrange(0, i as int)),
            decreases len - i,
        {
            proof {
                assert(self.archs()[i as int].wf());
            }
            let entries = self.archetypes[i].alive_entries();
            let ghost start = out@;
            let m = entries.len();
            let mut j: usize = 0;
            while j < m
                invariant
                    m == entries@.len(),
                    j <= m,
                    out@ == start + entries@.subrange(0, j as int).map_values(|x: AliveEntry| EntityHandle(x.1)),
                decreases m - j,
            {
                out.push(EntityHandle(entries[j].1));
                j = j + 1;
                proof {
                    assert(out@ =~= start + entries@.subrange(0, j as int).map_values(|x: AliveEntry| EntityHandle(x.1)));
                }
            }
            proof {
                let next = self.archs().subrange(0, i + 1);
                assert(next.drop_last() =~= self.archs().subrange(0, i as int));
                assert(entries@.subrange(0, m as int) =~= entries@);
                assert(out@ =~= Self::entities_spec(next));
            }
            i = i + 1;
        }
        proof {
            assert(self.archs().subrange(0, len as int) =~= self.archs());
        }
        out
    }

    pub closed spec fn cached_spec(&self) -> Seq<EntityHandle> {
        self.cached_entities@
    }

    pub closed spec fn entities_dirty_spec(&self) -> bool {
        self.entities_dirty
    }

    /// Refills the entity list if something changed since it was filled.
    pub fn refresh_entity_cache(&mut self)
        requires
            old(self).wf(),
        ensures
            final(self).wf(),
            old(self).entities_dirty_spec() ==> final(self).cached_spec() == Self::entities_spec(old(self).archs()),
            !old(self).entities_dirty_spec() ==> final(self).cached_spec() == old(self).cached_spec(),
            !final(self).entities_dirty_spec(),
            World::only_cache_changed(*old(self), *final(self)),
    {
        if self.entities_dirty {
            let list = self.entities_iter();
            self.cached_entities = list;
            self.entities_dirty = false;
            proof {
                World::lemma_wf_flags(*old(self), *self);
            }
        }
    }

    /// Everything but the entity list and flags is unchanged.
    pub open spec fn only_cache_changed(w1: World, w2: World) -> bool {
        &&& w2.prefabs_spec() == w1.prefabs_spec()
        &&& w2.archs() == w1.archs()
        &&& w2.locs() == w1.locs()
        &&& w2.allocator_spec() == w1.allocator_spec()
        &&& w2.store() == w1.store()
        &&& w2.pending() == w1.pending()
        &&& w2.names() == w1.names()
        &&& w2.sigs() == w1.sigs()
        &&& w2.rels() == w1.rels()
        &&& w2.registered() == w1.registered()
        &&& w2.layout_version_spec() == w1.layout_version_spec()
    }

    /// The entity list as last refreshed.
    pub fn entities(&self) -> (r: &Vec<EntityHandle>)
        ensures
            r@ == self.cached_spec(),
    {
        &self.cached_entities
    }

    /// Bytes of the front float buffer and the integer slots.
    pub fn memory_bytes(&self) -> (n: usize)
        requires
            self.wf(),
            (self.store().front().len() + self.store().int_slots().len()) * 8 <= usize::MAX,
        ensures
            n == (self.store().front().len() + self.store().int_slots().len()) * 8,
    {
        self.storage.memory_bytes()
    }

    /// Bytes of all float buffers in use and the integer slots.
    pub fn total_memory_bytes(&self) -> (n: usize)
        requires
            self.wf(),
            (self.store().front().len() + self.store().back().len() + self.store().int_slots().len()) * 8 <= usize::MAX,
        ensures
            n == (if self.store().mode_spec() == BufferMode::Single {
                self.store().front().len() * 8
            } else {
                (self.store().front().len() + self.store().back().len()) * 8
            }) + self.store().int_slots().len() * 8,
    {
        self.storage.total_memory_bytes()
    }

    /// Switches single or double buffering; values are kept.
    pub fn set_buffer_mode(&mut self, mode: BufferMode)
        requires
            old(self).wf(),
        ensures
            final(self).wf(),
            final(self).store().mode_spec() == mode,
            final(self).store().front() == old(self).store().front(),
            forall|e2: EntityHandle, a2: InternedStr| #[trigger] final(self).read_spec(e2, a2) == old(self).read_spec(e2, a2),
            final(self).archs() == old(self).archs(),
            final(self).locs() == old(self).locs(),
            final(self).allocator_spec() == old(self).allocator_spec(),
            final(self).pending() == old(self).pending(),
    {
        self.storage.set_mode(mode);
        proof {
            World::lemma_wf_new_store(*old(self), *self);
        }
    }

    pub fn buffer_mode(&self) -> (m: BufferMode)
        ensures
            m == self.store().mode_spec(),
    {
        self.storage.mode()
    }

    /// Interning names keeps a world well formed.
    proof fn lemma_wf_new_names(w1: World, w2: World)
        requires
            w1.wf(),
            w2.names().wf(),
            w2.names().names().len() >= w1.names().names().len(),
            w2 == (World { interner: w2.interner, ..w1 }),
        ensures
            w2.wf(),
    {
        assert(w2.archs() == w1.archs());
        assert(w2.locs() == w1.locs());
        assert(w2.allocator_spec() == w1.allocator_spec());
        assert(w2.store() == w1.store());
        assert(w2.pending() == w1.pending());
        assert(w2.sigs() == w1.sigs());
        assert(w2.archetypes_wf());
        assert(w2.blocks_wf());
        assert(w2.locations_wf());
        assert(w2.pending_wf());
        assert(w2.free_wf());
    }

    /// Handing out an entity id keeps a world well formed; the id is alive,
    /// not placed and not queued.
    proof fn lemma_allocate_keeps_wf(w1: World, w2: World, id: EntityId)
        requires
            w1.wf(),
            w2.allocator_spec().wf(),
            EntityAllocator::allocate_post(w1.allocator_spec(), w2.allocator_spec(), id),
            w2 == (World { allocator: w2.allocator, ..w1 }),
        ensures
            w2.wf(),
            w2.allocator_spec().is_alive_spec(id),
            w2.unplaced(id.index as int),
            forall|p: int| 0 <= p < w2.pending().len() ==> (#[trigger] w2.pending()[p]).entity_id.index != id.index,
    {
        let a1 = w1.allocator_spec();
        let a2 = w2.allocator_spec();
        assert(w2.archs() == w1.archs());
        assert(w2.locs() == w1.locs());
        assert(w2.store() == w1.store());
        assert(w2.pending() == w1.pending());
        assert(w2.sigs() == w1.sigs());
        assert(w2.names() == w1.names());
        let f = id.index as int;
        // the slot handed out was dead before
        assert(f >= a1.gens().len() || !a1.alive()[f]) by {
            if a1.free().len() > 0 {
                let last = a1.free().len() - 1;
                assert(w1.free_wf());
                assert(0 <= last < w1.allocator_spec().free().len());
                assert(w1.allocator_spec().free()[last] == a1.free().last());
                assert(!w1.allocator_spec().alive()[w1.allocator_spec().free()[last] as int]);
            }
        }
        // every slot alive before keeps its generation and stays alive
        assert forall|e: EntityId| a1.is_alive_spec(e) implies a2.is_alive_spec(e) && e.index != id.index by {
        }
        assert(w2.free_wf()) by {
            let fr1 = a1.free();
            let fr2 = a2.free();
            assert forall|k: int| 0 <= k < fr2.len() implies !a2.alive()[#[trigger] fr2[k] as int] by {
                assert(fr2[k] == fr1[k]);
                assert(!w1.allocator_spec().alive()[w1.allocator_spec().free()[k] as int]);
                if a1.free().len() > 0 {
                    assert(fr1[k] != fr1[fr1.len() - 1]);
                }
            }
            assert forall|k1: int, k2: int| 0 <= k1 < k2 < fr2.len() implies fr2[k1] != fr2[k2] by {
                assert(fr2[k1] == fr1[k1]);
                assert(fr2[k2] == fr1[k2]);
            }
        }
        assert(w2.locations_wf()) by {
            assert forall|k: int| 0 <= k < w2.locs().len() && (#[trigger] w2.locs()[k]) is Some implies {
                let loc = w2.locs()[k].unwrap();
                &&& w2.is_slot(loc.archetype_idx as int, loc.inner_idx as int)
                &&& w2.archs()[loc.archetype_idx as int].is_alive_spec(loc.inner_idx as int)
                &&& w2.archs()[loc.archetype_idx as int].entity_seq()[loc.inner_idx as int].index == k
            } by {
                assert(w1.locs()[k] is Some);
            }
        }
        assert(w2.unplaced(f)) by {
            if f < w1.locs().len() && w1.locs()[f] is Some {
                let loc = w1.locs()[f].unwrap();
                let e = w1.archs()[loc.archetype_idx as int].entity_seq()[loc.inner_idx as int];
                assert(w1.is_slot(loc.archetype_idx as int, loc.inner_idx as int));
                assert(e.index as int == f);
                assert(a1.is_alive_spec(e));
            }
        }
        assert forall|p: int| 0 <= p < w2.pending().len() implies (#[trigger] w2.pending()[p]).entity_id.index != id.index by {
            assert(a1.is_alive_spec(w1.pending()[p].entity_id));
        }
        assert forall|p: int| 0 <= p < w2.pending().len() implies {
            &&& (#[trigger] w2.pending()[p]).wf()
            &&& w2.allocator_spec().is_alive_spec(w2.pending()[p].entity_id)
            &&& w2.unplaced(w2.pending()[p].entity_id.index as int)
            &&& (w2.pending()[p].name.0 as int) < w2.names().names().len()
        } by {
            assert(w1.pending()[p] == w2.pending()[p]);
            assert(a1.is_alive_spec(w1.pending()[p].entity_id));
        }
        assert(w2.pending_wf());
    }

    /// Starts a new entity named `name`: its id is handed out now, the
    /// entity is placed by the next `build` after `done`.
    pub fn entity(&mut self, name: &str) -> (b: EntityBuilder<'_>)
        requires
            old(self).wf(),
            old(self).allocator_spec().free().len() == 0 ==> old(self).allocator_spec().next() < u32::MAX,
            old(self).names().find_spec(name@) is None ==> old(self).names().names().len() < u32::MAX,
        ensures
            b.ready_in(*b.world),
            EntityAllocator::allocate_post(old(self).allocator_spec(), b.world.allocator_spec(), b.entity_id),
            b.world.names().find_spec(name@) == Some(b.name),
            b.schema.field_names@ == Seq::<InternedStr>::empty(),
            b.defaults@ == Seq::<(FieldIndex, u64)>::empty(),
            b.resonator_types@ == Seq::<String>::empty(),
            b.world.archs() == old(self).archs(),
            b.world.locs() == old(self).locs(),
            b.world.pending() == old(self).pending(),
            b.world.store() == old(self).store(),
            old(self).names().names().len() <= b.world.names().names().len() <= old(self).names().names().len() + 1,
            b.world.prefabs_spec() == old(self).prefabs_spec(),
            b.world.layout_version_spec() == old(self).layout_version_spec(),
            b.world.names().names().subrange(0, old(self).names().names().len() as int) == old(self).names().names(),
            *final(self) == *final(b.world),
    {
        let entity_id = self.allocator.allocate();
        proof {
            World::lemma_allocate_keeps_wf(*old(self), *self, entity_id);
        }
        let ghost mid = *self;
        let name_id = self.interner.intern(name);
        proof {
            World::lemma_wf_new_names(mid, *self);
            assert(self.names().names().subrange(0, old(self).names().names().len() as int) =~= old(self).names().names());
        }
        let b = EntityBuilder {
            world: self,
            entity_id,
            name: name_id,
            schema: ArchetypeSchema::new(),
            defaults: Vec::new(),
            resonator_types: Vec::new(),
        };
        proof {
            assert forall|k: int| 0 <= k < b.defaults@.len()
                implies ((#[trigger] b.defaults@[k]).0.0 as int) < b.schema.field_names@.len() by {
            }
        }
        b
    }

    /// Rewriting storage values keeps a world well formed.
    proof fn lemma_wf_new_store(w1: World, w2: World)
        requires
            w1.wf(),
            w2.store().wf(),
            w2.store().front().len() == w1.store().front().len(),
            w2 == (World { storage: w2.storage, ..w1 }),
        ensures
            w2.wf(),
    {
        assert(w2.archs() == w1.archs());
        assert(w2.locs() == w1.locs());
        assert(w2.allocator_spec() == w1.allocator_spec());
        assert(w2.pending() == w1.pending());
        assert(w2.sigs() == w1.sigs());
        assert(w2.names() == w1.names());
        assert(w2.blocks_wf());
    }

    /// Writes attribute `attr_id` of `entity`; returns whether the entity is
    /// live, placed and has the attribute. Every other attribute of every
    /// entity keeps its value.
    pub fn write_by_id(&mut self, entity: EntityHandle, attr_id: InternedStr, value: u64) -> (ok: bool)
        requires
            old(self).wf(),
        ensures
            final(self).wf(),
            ok == old(self).pos(entity, attr_id) is Some,
            final(self).read_spec(entity, attr_id) == if ok { Some(value) } else { None::<u64> },
            forall|e2: EntityHandle, a2: InternedStr| !(e2 == entity && a2 == attr_id)
                ==> #[trigger] final(self).read_spec(e2, a2) == old(self).read_spec(e2, a2),
            final(self).archs() == old(self).archs(),
            final(self).locs() == old(self).locs(),
            final(self).allocator_spec() == old(self).allocator_spec(),
            final(self).pending() == old(self).pending(),
            final(self).names() == old(self).names(),
            final(self).store().mode_spec() == old(self).store().mode_spec(),
            final(self).store().front() == match old(self).pos(entity, attr_id) {
                Some(p) => old(self).store().front().update(p, value),
                None => old(self).store().front(),
            },
    {
        match self.position(entity, attr_id) {
            Some(p) => {
                self.storage.write_abs(p, value);
                proof {
                    World::lemma_wf_new_store(*old(self), *self);
                    assert forall|e2: EntityHandle, a2: InternedStr| !(e2 == entity && a2 == attr_id)
                        implies #[trigger] self.read_spec(e2, a2) == old(self).read_spec(e2, a2) by {
                        if old(self).pos(e2, a2) is Some && old(self).pos(e2, a2) == Some(p as int) {
                            old(self).lemma_pos_injective(e2, a2, entity, attr_id);
                        }
                    }
                }
                true
            },
            None => false,
        }
    }

    /// Value of attribute `attr_name` of `entity`, if the name is known and
    /// the entity is live, placed and has it.
    pub fn read(&self, entity: EntityHandle, attr_name: &str) -> (r: Option<u64>)
        requires
            self.wf(),
        ensures
            r == match self.names().find_spec(attr_name@) {
                Some(id) => self.read_spec(entity, id),
                None => None,
            },
    {
        match self.interner.find(attr_name) {
            Some(id) => self.read_by_id(entity, id),
            None => None,
        }
    }

    /// Writes attribute `attr_name` of `entity`; returns whether it was
    /// written (a name never interned is never written).
    pub fn write(&mut self, entity: EntityHandle, attr_name: &str, value: u64) -> (ok: bool)
        requires
            old(self).wf(),
        ensures
            final(self).wf(),
            ok == match old(self).names().find_spec(attr_name@) {
                Some(id) => old(self).pos(entity, id) is Some,
                None => false,
            },
            ok ==> final(self).read_spec(entity, old(self).names().find_spec(attr_name@).unwrap()) == Some(value),
            forall|e2: EntityHandle, a2: InternedStr|
                !(ok && e2 == entity && Some(a2) == old(self).names().find_spec(attr_name@))
                ==> #[trigger] final(self).read_spec(e2, a2) == old(self).read_spec(e2, a2),
            final(self).archs() == old(self).archs(),
            final(self).locs() == old(self).locs(),
            final(self).allocator_spec() == old(self).allocator_spec(),
            final(self).pending() == old(self).pending(),
            final(self).names() == old(self).names(),
    {
        let id = match self.interner.find(attr_name) {
            Some(id) => id,
            None => return false,
        };
        self.write_by_id(entity, id, value)
    }

    /// The graph metadata.
    pub closed spec fn meta_spec(&self) -> MetaGraph {
        self.meta_graph
    }

    pub closed spec fn rels(&self) -> RelationGraph {
        self.relations
    }

    /// Removes the entity placed in slot `id.index`: its archetype slot is
    /// freed, the slot's generation bumped and its relations dropped. The
    /// generation of `id` is not checked, so a stale id removes the entity
    /// now placed under its index; an unplaced index is left alone.
    fn despawn_internal(&mut self, id: EntityId)
        requires
            old(self).wf(),
            old(self).despawn_fits(id),
        ensures
            final(self).wf(),
            old(self).unplaced(id.index as int) ==> *final(self) == *old(self),
            !old(self).unplaced(id.index as int) ==> Self::despawn_post(*old(self), *final(self), id),
            !old(self).unplaced(id.index as int) ==> final(self).meta_spec().entity_node(EntityHandle(id)) is None,
            !old(self).unplaced(id.index as int) ==> World::relations_dropped(old(self).rels(), final(self).rels(), id),
            final(self).prefabs_spec() == old(self).prefabs_spec(),
            final(self).registered() == old(self).registered(),
            final(self).layout_version_spec() == old(self).layout_version_spec(),
    {
        let idx = id.index as usize;
        if idx >= self.entity_locations.len() {
            return;
        }
        let taken = self.entity_locations[idx];
        match taken {
            None => {
                return;
            },
            Some(loc) => {
                self.entity_locations.set(idx, None);
                proof {
                    assert(old(self).is_slot(loc.archetype_idx as int, loc.inner_idx as int));
                }
                let ghost a1 = self.archetypes@[loc.archetype_idx as int];
                self.archetypes[loc.archetype_idx].remove_entity(loc.inner_idx);
                let ghost e = a1.entity_seq()[loc.inner_idx as int];
                proof {
                    assert(e.index == id.index);
                    assert(old(self).allocator_spec().is_alive_spec(e));
                }
                self.allocator.deallocate(id);
                self.relations.remove_entity(id);
                self.meta_graph.remove_entity(EntityHandle(id));
                self.entities_dirty = true;
                proof {
                    World::lemma_despawn_wf(*old(self), *self, id, loc);
                }
            },
        }
    }

    /// The relations of `r2` are those of `r1` without the edges out of and
    /// into `id`.
    pub open spec fn relations_dropped(r1: RelationGraph, r2: RelationGraph, id: EntityId) -> bool {
        &&& r2.rel_names() == r1.rel_names()
        &&& r2.fwd(id) == Seq::<crate::relations::Edge>::empty()
        &&& r2.bwd(id) == Seq::<crate::relations::Edge>::empty()
        &&& forall|x: EntityId| x != id ==> #[trigger] r2.bwd(x)
            == r1.bwd(x).filter(crate::relations::strip(r1.fwd(id), x, id))
        &&& forall|x: EntityId| x != id ==> #[trigger] r2.fwd(x)
            == r1.fwd(x).filter(crate::relations::strip(
                r1.bwd(id).filter(crate::relations::strip(r1.fwd(id), id, id)), x, id))
    }

    /// What removing the entity placed under `id.index` does.
    pub open spec fn despawn_post(w1: World, w2: World, id: EntityId) -> bool {
        let k = id.index as int;
        let loc = w1.locs()[k].unwrap();
        let a = loc.archetype_idx as int;
        let i = loc.inner_idx as int;
        &&& w2.locs() == w1.locs().update(k, None)
        &&& w2.archs().len() == w1.archs().len()
        &&& forall|b: int| 0 <= b < w1.archs().len() && b != a ==> #[trigger] w2.archs()[b] == w1.archs()[b]
        &&& w2.archs()[a].entity_seq() == w1.archs()[a].entity_seq()
        &&& w2.archs()[a].offset_seq() == w1.archs()[a].offset_seq()
        &&& w2.archs()[a].alive_seq() == w1.archs()[a].alive_seq().update(i, false)
        &&& w2.archs()[a].schema_spec() == w1.archs()[a].schema_spec()
        &&& w2.archs()[a].name_spec() == w1.archs()[a].name_spec()
        &&& EntityAllocator::deallocate_post(w1.allocator_spec(), w2.allocator_spec(), id)
        &&& w2.store() == w1.store()
        &&& w2.pending() == w1.pending()
        &&& w2.names() == w1.names()
        &&& w2.sigs() == w1.sigs()
    }

    proof fn lemma_despawn_wf(w1: World, w2: World, id: EntityId, loc: EntityLoc)
        requires
            w1.wf(),
            w2.meta_spec().wf(),
            w2.rels().mirrored(),
            (id.index as int) < w1.locs().len(),
            w1.locs()[id.index as int] == Some(loc),
            w2.locs() == w1.locs().update(id.index as int, None),
            w2.archetypes@.len() == w1.archetypes@.len(),
            forall|b: int| 0 <= b < w1.archs().len() && b != loc.archetype_idx ==> #[trigger] w2.archs()[b] == w1.archs()[b],
            w2.archs()[loc.archetype_idx as int].wf(),
            w2.archs()[loc.archetype_idx as int].id_spec() == w1.archs()[loc.archetype_idx as int].id_spec(),
            w2.archs()[loc.archetype_idx as int].schema_spec() == w1.archs()[loc.archetype_idx as int].schema_spec(),
            w2.archs()[loc.archetype_idx as int].name_spec() == w1.archs()[loc.archetype_idx as int].name_spec(),
            w2.archs()[loc.archetype_idx as int].entity_seq() == w1.archs()[loc.archetype_idx as int].entity_seq(),
            w2.archs()[loc.archetype_idx as int].offset_seq() == w1.archs()[loc.archetype_idx as int].offset_seq(),
            w2.archs()[loc.archetype_idx as int].alive_seq()
                == w1.archs()[loc.archetype_idx as int].alive_seq().update(loc.inner_idx as int, false),
            w2.allocator_spec().wf(),
            w2.rels().wf(),
            EntityAllocator::deallocate_post(w1.allocator_spec(), w2.allocator_spec(), id),
            w2.store() == w1.store(),
            w2.pending() == w1.pending(),
            w2.names() == w1.names(),
            w2.sigs() == w1.sigs(),
            w2.next_archetype_id_spec() == w1.next_archetype_id_spec(),
        ensures
            w2.wf(),
            World::despawn_post(w1, w2, id),
    {
        let k = id.index as int;
        let a = loc.archetype_idx as int;
        let i = loc.inner_idx as int;
        assert(w1.is_slot(a, i));
        let e = w1.archs()[a].entity_seq()[i];
        assert(e.index == id.index);
        assert(w1.allocator_spec().is_alive_spec(e));
        let al1 = w1.allocator_spec();
        let al2 = w2.allocator_spec();
        // the freed index was alive, so it was not on the free list
        assert forall|q: int| 0 <= q < al1.free().len() implies al1.free()[q] != id.index by {
            assert(!w1.allocator_spec().alive()[w1.allocator_spec().free()[q] as int]);
        }
        assert forall|b: int| 0 <= b < w2.archs().len() implies #[trigger] w2.archs()[b].slot_count_spec() == w1.archs()[b].slot_count_spec()
            && w2.archs()[b].offset_seq() == w1.archs()[b].offset_seq()
            && w2.archs()[b].entity_seq() == w1.archs()[b].entity_seq()
            && w2.archs()[b].schema_spec() == w1.archs()[b].schema_spec() by {
        }
        assert(w2.archetypes_wf());
        assert(w2.blocks_wf()) by {
            assert forall|b: int, j: int| w2.is_slot(b, j)
                implies (#[trigger] w2.archs()[b].offset_seq()[j]).0 + w2.width(b) <= w2.store().front().len() by {
                assert(w1.archs()[b].offset_seq()[j] == w2.archs()[b].offset_seq()[j]);
            }
            assert forall|b: int, j: int, c: int, m: int|
                w2.is_slot(b, j) && w2.is_slot(c, m) && (b != c || j != m)
                implies disjoint_blocks(
                    (#[trigger] w2.archs()[b].offset_seq()[j]).0 as int, w2.width(b),
                    (#[trigger] w2.archs()[c].offset_seq()[m]).0 as int, w2.width(c)) by {
                assert(w1.archs()[b].offset_seq()[j] == w2.archs()[b].offset_seq()[j]);
                assert(w1.archs()[c].offset_seq()[m] == w2.archs()[c].offset_seq()[m]);
            }
        }
        assert(w2.locations_wf()) by {
            assert forall|q: int| 0 <= q < w2.locs().len() && (#[trigger] w2.locs()[q]) is Some implies {
                let l = w2.locs()[q].unwrap();
                &&& w2.is_slot(l.archetype_idx as int, l.inner_idx as int)
                &&& w2.archs()[l.archetype_idx as int].is_alive_spec(l.inner_idx as int)
                &&& w2.archs()[l.archetype_idx as int].entity_seq()[l.inner_idx as int].index == q
            } by {
                assert(q != k);
                assert(w1.locs()[q] is Some);
                let l = w1.locs()[q].unwrap();
                if l.archetype_idx as int == a && l.inner_idx as int == i {
                    assert(w1.archs()[a].entity_seq()[i].index == q);
                }
            }
            assert forall|b: int, j: int| w2.is_slot(b, j) && w2.archs()[b].is_alive_spec(j) implies {
                let e2 = #[trigger] w2.archs()[b].entity_seq()[j];
                &&& (e2.index as int) < w2.locs().len()
                &&& w2.locs()[e2.index as int] == Some(EntityLoc { archetype_idx: b as usize, inner_idx: j as usize })
                &&& w2.allocator_spec().is_alive_spec(e2)
            } by {
                assert(w1.archs()[b].entity_seq()[j] == w2.archs()[b].entity_seq()[j]);
                assert(w1.archs()[b].is_alive_spec(j));
                let e2 = w1.archs()[b].entity_seq()[j];
                assert(w1.locs()[e2.index as int] == Some(EntityLoc { archetype_idx: b as usize, inner_idx: j as usize }));
                if e2.index == id.index {
                    assert(w1.locs()[k] == Some(loc));
                    assert(w1.locs()[e2.index as int] == w1.locs()[k]);
                    assert(loc == EntityLoc { archetype_idx: b as usize, inner_idx: j as usize });
                    assert(w1.archetypes@.len() == w1.archetypes.len());
                    assert(b == a && j == i);
                    assert(w2.archs()[a].alive_seq()[i] == false);
                }
            }
        }
        assert(w2.free_wf()) by {
            assert forall|q: int| 0 <= q < al2.free().len()
                implies !w2.allocator_spec().alive()[(#[trigger] w2.allocator_spec().free()[q]) as int] by {
                if q < al1.free().len() {
                    assert(al2.free()[q] == al1.free()[q]);
                    assert(!w1.allocator_spec().alive()[w1.allocator_spec().free()[q] as int]);
                }
            }
            assert forall|q1: int, q2: int| 0 <= q1 < q2 < al2.free().len() implies al2.free()[q1] != al2.free()[q2] by {
                assert(al2.free()[q1] == al1.free()[q1]);
                if q2 < al1.free().len() {
                    assert(al2.free()[q2] == al1.free()[q2]);
                }
            }
        }
        assert(w2.pending_wf()) by {
            assert forall|p: int| 0 <= p < w2.pending().len() implies {
                &&& (#[trigger] w2.pending()[p]).wf()
                &&& w2.allocator_spec().is_alive_spec(w2.pending()[p].entity_id)
                &&& w2.unplaced(w2.pending()[p].entity_id.index as int)
                &&& (w2.pending()[p].name.0 as int) < w2.names().names().len()
            } by {
                assert(w1.unplaced(w1.pending()[p].entity_id.index as int));
                assert(w1.pending()[p].entity_id.index != id.index);
            }
        }
    }

    /// Removes `entity` if it is alive and placed; a queued entity is left
    /// alone. Afterwards `entity` has no place, so despawning it again
    /// changes nothing.
    pub fn despawn(&mut self, entity: EntityHandle)
        requires
            old(self).wf(),
            old(self).despawn_fits(entity.0),
        ensures
            final(self).wf(),
            old(self).loc_of(entity) is None ==> *final(self) == *old(self),
            old(self).loc_of(entity) is Some ==> Self::despawn_post(*old(self), *final(self), entity.0),
            old(self).loc_of(entity) is Some ==> !final(self).allocator_spec().is_alive_spec(entity.0),
            old(self).loc_of(entity) is Some ==> World::relations_dropped(old(self).rels(), final(self).rels(), entity.0),
            old(self).loc_of(entity) is Some ==> final(self).meta_spec().entity_node(entity) is None,
            final(self).loc_of(entity) is None,
            forall|a: InternedStr| #[trigger] final(self).read_spec(entity, a) is None,
            forall|e2: EntityHandle, a: InternedStr| e2 != entity
                ==> #[trigger] final(self).read_spec(e2, a) == old(self).read_spec(e2, a),
    {
        if self.allocator.is_alive(entity.0) {
            self.despawn_internal(entity.0);
        }
        proof {
            if old(self).loc_of(entity) is Some {
                let w1 = *old(self);
                let w2 = *self;
                let k = entity.0.index as int;
                assert forall|e2: EntityHandle, a: InternedStr| e2 != entity
                    implies #[trigger] w2.read_spec(e2, a) == w1.read_spec(e2, a) by {
                    if w1.loc_of(e2) is Some {
                        let l = w1.locs()[e2.0.index as int].unwrap();
                        assert(w1.is_slot(l.archetype_idx as int, l.inner_idx as int));
                        assert(e2.0.index != entity.0.index);
                        assert(w2.loc_of(e2) == w1.loc_of(e2));
                        let b = l.archetype_idx as int;
                        if b == w1.locs()[k].unwrap().archetype_idx as int {
                            assert(l.inner_idx != w1.locs()[k].unwrap().inner_idx);
                        }
                    } else {
                        if w2.loc_of(e2) is Some {
                            assert(e2.0.index != entity.0.index);
                        }
                    }
                }
            }
        }
    }

    /// Index of the archetype with signature `sig`, if there is one.
    fn find_archetype(&self, sig: &Vec<InternedStr>) -> (r: Option<usize>)
        requires
            self.wf(),
        ensures
            r matches Some(i) ==> (i as int) < self.archs().len() && self.sigs()[i as int] == sig@,
            r is None ==> forall|i: int| 0 <= i < self.archs().len() ==> self.sigs()[i] != sig@,
    {
        let n = self.archetype_signatures.len();
        let mut i: usize = 0;
        while i < n
            invariant
                self.wf(),
                n == self.archetype_signatures@.len(),
                i <= n,
                forall|j: int| 0 <= j < i ==> self.sigs()[j] != sig@,
            decreases n - i,
        {
            if same_signature(&self.archetype_signatures[i], sig) {
                return Some(i);
            }
            i = i + 1;
        }
        None
    }

    /// Index of the archetype with signature `sig`, created from the template
    /// name and schema when there is none.
    fn get_or_create_archetype(&mut self, sig: &Vec<InternedStr>, name: InternedStr, schema: &ArchetypeSchema) -> (idx: usize)
        requires
            old(self).wf(),
            schema.wf(),
            Self::is_signature_of(sig@, *schema),
            (name.0 as int) < old(self).names().names().len(),
            old(self).archs().len() < u32::MAX,
        ensures
            final(self).wf(),
            final(self).meta_spec() == old(self).meta_spec(),
            (idx as int) < final(self).archs().len(),
            final(self).sigs()[idx as int] == sig@,
            final(self).archs()[idx as int].schema_spec().field_names@.len() == schema.field_names@.len(),
            old(self).sigs().contains(sig@) ==> *final(self) == *old(self),
            final(self).archs().len() >= old(self).archs().len(),
            forall|b: int| 0 <= b < old(self).archs().len() ==> #[trigger] final(self).archs()[b] == old(self).archs()[b],
            forall|e2: EntityHandle, a2: InternedStr| #[trigger] final(self).pos(e2, a2) == old(self).pos(e2, a2),
            forall|e2: EntityHandle, a2: InternedStr| #[trigger] final(self).read_spec(e2, a2) == old(self).read_spec(e2, a2),
            final(self).registered() == old(self).registered(),
            final(self).next_archetype_id_spec() == final(self).archs().len(),
            final(self).layout_version_spec() == old(self).layout_version_spec(),
            !old(self).sigs().contains(sig@) ==> {
                &&& idx as int == old(self).archs().len()
                &&& final(self).archs().len() == old(self).archs().len() + 1
                &&& final(self).archs().subrange(0, idx as int) == old(self).archs()
                &&& final(self).archs()[idx as int].slot_count_spec() == 0
                &&& final(self).archs()[idx as int].resonator_types_spec().len() == 0
                &&& final(self).archs()[idx as int].name_spec() == old(self).names().names()[name.0 as int]
                &&& final(self).archs()[idx as int].schema_spec().field_names@ == schema.field_names@
                &&& final(self).sigs() == old(self).sigs().push(sig@)
            },
            final(self).locs() == old(self).locs(),
            final(self).allocator_spec() == old(self).allocator_spec(),
            final(self).store() == old(self).store(),
            final(self).pending() == old(self).pending(),
            final(self).names() == old(self).names(),
            final(self).rels() == old(self).rels(),
            final(self).prefabs_spec() == old(self).prefabs_spec(),
    {
        match self.find_archetype(sig) {
            Some(i) => {
                proof {
                    assert(old(self).sigs()[i as int] == sig@);
                    assert(old(self).sigs().contains(sig@));
                    let k = old(self).sigs().index_of(sig@);
                    let a = self.archs()[i as int].schema_spec();
                    assert(Self::is_signature_of(self.sigs()[i as int], a));
                }
                return i;
            },
            None => {},
        }
        proof {
            assert(!old(self).sigs().contains(sig@));
        }
        let arch_id = ArchetypeId(self.next_archetype_id);
        self.next_archetype_id = self.next_archetype_id + 1;
        let arch_name = self.interner.resolve(name).to_owned();
        let archetype = Archetype::new(arch_id, schema.copy(), arch_name);
        let idx = self.archetypes.len();
        self.archetypes.push(archetype);
        let mut sig_copy: Vec<InternedStr> = Vec::new();
        let n = sig.len();
        let mut i: usize = 0;
        while i < n
            invariant
                n == sig@.len(),
                i <= n,
                sig_copy@ == sig@.subrange(0, i as int),
            decreases n - i,
        {
            sig_copy.push(sig[i]);
            i = i + 1;
            proof {
                assert(sig_copy@ =~= sig@.subrange(0, i as int));
            }
        }
        proof {
            assert(sig_copy@ =~= sig@);
        }
        self.archetype_signatures.push(sig_copy);
        proof {
            let w1 = *old(self);
            let w2 = *self;
            assert(w2.sigs() =~= w1.sigs().push(sig@));
            assert(w2.archs() =~= w1.archs().push(archetype));
            assert(w2.archs().subrange(0, idx as int) =~= w1.archs());
            assert(w2.archetypes_wf()) by {
                assert forall|a: int, b: int| 0 <= a < b < w2.archs().len() implies w2.sigs()[a] != w2.sigs()[b] by {
                    if b == idx as int {
                        assert(w1.sigs()[a] == w2.sigs()[a]);
                        assert(w1.sigs().contains(w1.sigs()[a]));
                    }
                }
                assert forall|a: int| 0 <= a < w2.archs().len() implies {
                    &&& (#[trigger] w2.archs()[a]).wf()
                    &&& w2.archs()[a].id_spec() == ArchetypeId(a as u32)
                    &&& Self::is_signature_of(w2.sigs()[a], w2.archs()[a].schema_spec())
                } by {
                    if a < idx as int {
                        assert(w2.archs()[a] == w1.archs()[a]);
                        assert(w2.sigs()[a] == w1.sigs()[a]);
                    } else {
                        assert(forall|x: InternedStr| w2.archs()[a].schema_spec().field_names@.contains(x) <==> schema.field_names@.contains(x));
                    }
                }
            }
            assert(w2.blocks_wf()) by {
                assert forall|a: int, i: int| w2.is_slot(a, i)
                    implies (#[trigger] w2.archs()[a].offset_seq()[i]).0 + w2.width(a) <= w2.store().front().len() by {
                    assert(a < idx as int);
                    assert(w2.archs()[a] == w1.archs()[a]);
                }
                assert forall|a: int, i: int, b: int, j: int|
                    w2.is_slot(a, i) && w2.is_slot(b, j) && (a != b || i != j)
                    implies disjoint_blocks(
                        (#[trigger] w2.archs()[a].offset_seq()[i]).0 as int, w2.width(a),
                        (#[trigger] w2.archs()[b].offset_seq()[j]).0 as int, w2.width(b)) by {
                    assert(a < idx as int && b < idx as int);
                    assert(w2.archs()[a] == w1.archs()[a]);
                    assert(w2.archs()[b] == w1.archs()[b]);
                    assert(w1.is_slot(a, i) && w1.is_slot(b, j));
                }
            }
            assert(w2.locations_wf()) by {
                assert forall|k: int| 0 <= k < w2.locs().len() && (#[trigger] w2.locs()[k]) is Some implies {
                    let loc = w2.locs()[k].unwrap();
                    &&& w2.is_slot(loc.archetype_idx as int, loc.inner_idx as int)
                    &&& w2.archs()[loc.archetype_idx as int].is_alive_spec(loc.inner_idx as int)
                    &&& w2.archs()[loc.archetype_idx as int].entity_seq()[loc.inner_idx as int].index == k
                } by {
                    assert(w1.locs()[k] is Some);
                    let loc = w1.locs()[k].unwrap();
                    assert(w1.is_slot(loc.archetype_idx as int, loc.inner_idx as int));
                    assert(w2.archs()[loc.archetype_idx as int] == w1.archs()[loc.archetype_idx as int]);
                }
                assert forall|a: int, i: int| w2.is_slot(a, i) && w2.archs()[a].is_alive_spec(i) implies {
                    let e = #[trigger] w2.archs()[a].entity_seq()[i];
                    &&& (e.index as int) < w2.locs().len()
                    &&& w2.locs()[e.index as int] == Some(EntityLoc { archetype_idx: a as usize, inner_idx: i as usize })
                    &&& w2.allocator_spec().is_alive_spec(e)
                } by {
                    assert(a < idx as int);
                    assert(w2.archs()[a] == w1.archs()[a]);
                    assert(w1.is_slot(a, i));
                }
            }
            World::lemma_pending_frame(w1, w2);
            assert forall|b: int| 0 <= b < w1.archs().len() implies #[trigger] w2.archs()[b] == w1.archs()[b] by {
                assert(w2.archs().subrange(0, idx as int)[b] == w2.archs()[b]);
            }
            assert forall|e2: EntityHandle, a2: InternedStr| #[trigger] w2.pos(e2, a2) == w1.pos(e2, a2) by {
                if w1.loc_of(e2) is Some {
                    assert(w1.locs()[e2.0.index as int] is Some);
                    let b = w1.loc_of(e2).unwrap().archetype_idx as int;
                    assert(w2.archs()[b] == w1.archs()[b]);
                }
            }
            assert forall|e2: EntityHandle, a2: InternedStr| #[trigger] w2.read_spec(e2, a2) == w1.read_spec(e2, a2) by {
                assert(w2.pos(e2, a2) == w1.pos(e2, a2));
            }
        }
        idx
    }

    /// What placing `id` in archetype `a` does to the world's structure.
    pub open spec fn place_post(w1: World, w2: World, a: int, id: EntityId, loc: EntityLoc) -> bool {
        let k = id.index as int;
        let i = loc.inner_idx as int;
        &&& loc.archetype_idx as int == a
        &&& w2.is_slot(a, i)
        &&& !w1.archs()[a].is_alive_spec(i)
        &&& k < w2.locs().len()
        &&& w2.locs().len() == if k < w1.locs().len() { w1.locs().len() as int } else { k + 1 }
        &&& w2.locs()[k] == Some(loc)
        &&& forall|q: int| 0 <= q < w2.locs().len() && q != k ==> #[trigger] w2.locs()[q] == if q < w1.locs().len() { w1.locs()[q] } else { None }
        &&& w2.archs().len() == w1.archs().len()
        &&& forall|b: int| 0 <= b < w1.archs().len() && b != a ==> #[trigger] w2.archs()[b] == w1.archs()[b]
        &&& w2.archs()[a].entity_seq()[i] == id
        &&& w2.archs()[a].alive_seq()[i]
        &&& w2.archs()[a].offset_seq()[i].0 as int == w1.store().front().len()
        &&& forall|j: int| 0 <= j < w1.archs()[a].slot_count_spec() && j != i ==> {
            &&& #[trigger] w2.archs()[a].entity_seq()[j] == w1.archs()[a].entity_seq()[j]
            &&& w2.archs()[a].offset_seq()[j] == w1.archs()[a].offset_seq()[j]
            &&& w2.archs()[a].alive_seq()[j] == w1.archs()[a].alive_seq()[j]
        }
        &&& i <= w1.archs()[a].slot_count_spec()
        &&& i < w1.archs()[a].slot_count_spec() ==> w2.archs()[a].slot_count_spec() == w1.archs()[a].slot_count_spec()
        &&& i == w1.archs()[a].slot_count_spec() ==> w2.archs()[a].slot_count_spec() == w1.archs()[a].slot_count_spec() + 1
        &&& w2.archs()[a].id_spec() == w1.archs()[a].id_spec()
        &&& w2.archs()[a].schema_spec() == w1.archs()[a].schema_spec()
        &&& w2.archs()[a].name_spec() == w1.archs()[a].name_spec()
        &&& w2.archs()[a].resonator_types_spec() == w1.archs()[a].resonator_types_spec()
        &&& w2.allocator_spec() == w1.allocator_spec()
        &&& w2.pending() == w1.pending()
        &&& w2.names() == w1.names()
        &&& w2.sigs() == w1.sigs()
        &&& w2.rels() == w1.rels()
        &&& w2.next_archetype_id_spec() == w1.next_archetype_id_spec()
        &&& w2.layout_version_spec() == w1.layout_version_spec()
        &&& w2.registered() == w1.registered()
    }

    /// Structure of a world after a placement, before the defaults are written.
    proof fn lemma_place_wf(w1: World, w2: World, a: int, id: EntityId, loc: EntityLoc)
        requires
            w1.wf(),
            0 <= a < w1.archs().len(),
            w1.allocator_spec().is_alive_spec(id),
            w1.unplaced(id.index as int),
            forall|p: int| 0 <= p < w1.pending().len() ==> (#[trigger] w1.pending()[p]).entity_id.index != id.index,
            World::place_post(w1, w2, a, id, loc),
            w2.meta_spec() == w1.meta_spec(),
            w2.archs()[a].wf(),
            w2.store().wf(),
            w2.store().front().len() == w1.store().front().len() + w1.width(a),
            forall|p: int| 0 <= p < w1.store().front().len() ==> #[trigger] w2.store().front()[p] == w1.store().front()[p],
        ensures
            w2.wf(),
            forall|e2: EntityHandle, a2: InternedStr| w1.pos(e2, a2) is Some ==>
                #[trigger] w2.pos(e2, a2) == w1.pos(e2, a2) && w2.read_spec(e2, a2) == w1.read_spec(e2, a2),
    {
        let i = loc.inner_idx as int;
        let k = id.index as int;
        let len1 = w1.store().front().len() as int;
        assert(w2.archetypes_wf()) by {
            assert forall|b: int| 0 <= b < w2.archs().len() implies {
                &&& (#[trigger] w2.archs()[b]).wf()
                &&& w2.archs()[b].id_spec() == ArchetypeId(b as u32)
                &&& Self::is_signature_of(w2.sigs()[b], w2.archs()[b].schema_spec())
            } by {
                if b != a {
                    assert(w2.archs()[b] == w1.archs()[b]);
                }
            }
        }
        // every slot but the new one is an old slot, unchanged
        assert forall|b: int, j: int| #[trigger] w2.is_slot(b, j) && !(b == a && j == i)
            implies w1.is_slot(b, j)
                && w2.archs()[b].offset_seq()[j] == w1.archs()[b].offset_seq()[j]
                && w2.archs()[b].entity_seq()[j] == w1.archs()[b].entity_seq()[j]
                && w2.archs()[b].alive_seq()[j] == w1.archs()[b].alive_seq()[j]
                && w2.width(b) == w1.width(b) by {
            if b != a {
                assert(w2.archs()[b] == w1.archs()[b]);
            } else {
                assert(j < w1.archs()[a].slot_count_spec());
                assert(w2.archs()[a].entity_seq()[j] == w1.archs()[a].entity_seq()[j]);
            }
        }
        assert(w2.blocks_wf()) by {
            assert forall|b: int, j: int| w2.is_slot(b, j)
                implies (#[trigger] w2.archs()[b].offset_seq()[j]).0 + w2.width(b) <= w2.store().front().len() by {
                if !(b == a && j == i) {
                    assert(w2.is_slot(b, j));
                    assert(w1.archs()[b].offset_seq()[j].0 + w1.width(b) <= len1);
                }
            }
            assert forall|b: int, j: int, c: int, m: int|
                w2.is_slot(b, j) && w2.is_slot(c, m) && (b != c || j != m)
                implies disjoint_blocks(
                    (#[trigger] w2.archs()[b].offset_seq()[j]).0 as int, w2.width(b),
                    (#[trigger] w2.archs()[c].offset_seq()[m]).0 as int, w2.width(c)) by {
                assert(w2.is_slot(b, j) && w2.is_slot(c, m));
                if b == a && j == i {
                    assert(w1.archs()[c].offset_seq()[m].0 + w1.width(c) <= len1);
                } else if c == a && m == i {
                    assert(w1.archs()[b].offset_seq()[j].0 + w1.width(b) <= len1);
                } else {
                    assert(w1.is_slot(b, j) && w1.is_slot(c, m));
                    assert(disjoint_blocks(
                        w1.archs()[b].offset_seq()[j].0 as int, w1.width(b),
                        w1.archs()[c].offset_seq()[m].0 as int, w1.width(c)));
                }
            }
        }
        assert(w2.locations_wf()) by {
            assert forall|q: int| 0 <= q < w2.locs().len() && (#[trigger] w2.locs()[q]) is Some implies {
                let l = w2.locs()[q].unwrap();
                &&& w2.is_slot(l.archetype_idx as int, l.inner_idx as int)
                &&& w2.archs()[l.archetype_idx as int].is_alive_spec(l.inner_idx as int)
                &&& w2.archs()[l.archetype_idx as int].entity_seq()[l.inner_idx as int].index == q
            } by {
                if q != k {
                    assert(q < w1.locs().len());
                    assert(w1.locs()[q] is Some);
                    let l = w1.locs()[q].unwrap();
                    assert(w1.is_slot(l.archetype_idx as int, l.inner_idx as int));
                    assert(w1.archs()[l.archetype_idx as int].is_alive_spec(l.inner_idx as int));
                    assert(!(l.archetype_idx as int == a && l.inner_idx as int == i));
                    if l.archetype_idx as int == a {
                        assert(l.inner_idx as int != i);
                        assert(w2.archs()[a].entity_seq()[l.inner_idx as int] == w1.archs()[a].entity_seq()[l.inner_idx as int]);
                    }
                }
            }
            assert forall|b: int, j: int| w2.is_slot(b, j) && w2.archs()[b].is_alive_spec(j) implies {
                let e = #[trigger] w2.archs()[b].entity_seq()[j];
                &&& (e.index as int) < w2.locs().len()
                &&& w2.locs()[e.index as int] == Some(EntityLoc { archetype_idx: b as usize, inner_idx: j as usize })
                &&& w2.allocator_spec().is_alive_spec(e)
            } by {
                if b == a && j == i {
                    assert(w2.archs()[a].entity_seq()[i] == id);
                    assert(loc == EntityLoc { archetype_idx: b as usize, inner_idx: j as usize });
                } else {
                    assert(w2.is_slot(b, j));
                    assert(w1.is_slot(b, j));
                    assert(w1.archs()[b].is_alive_spec(j));
                    let e = w1.archs()[b].entity_seq()[j];
                    assert(w1.locs()[e.index as int] == Some(EntityLoc { archetype_idx: b as usize, inner_idx: j as usize }));
                    assert(e.index != id.index);
                    assert(w2.archs()[b].entity_seq()[j] == e);
                    assert(w2.locs()[e.index as int] == w1.locs()[e.index as int]);
                }
            }
        }
        World::lemma_pending_frame_locs(w1, w2, id);
        assert(w2.free_wf()) by {
            assert forall|q: int| 0 <= q < w2.allocator_spec().free().len()
                implies !w2.allocator_spec().alive()[(#[trigger] w2.allocator_spec().free()[q]) as int] by {
                assert(!w1.allocator_spec().alive()[w1.allocator_spec().free()[q] as int]);
            }
        }
        assert forall|e2: EntityHandle, a2: InternedStr| w1.pos(e2, a2) is Some implies
            #[trigger] w2.pos(e2, a2) == w1.pos(e2, a2) && w2.read_spec(e2, a2) == w1.read_spec(e2, a2) by {
            let l = w1.loc_of(e2).unwrap();
            assert(w1.locs()[e2.0.index as int] is Some);
            assert(w1.is_slot(l.archetype_idx as int, l.inner_idx as int));
            assert(e2.0.index != id.index);
            assert(w2.loc_of(e2) == w1.loc_of(e2));
            let b = l.archetype_idx as int;
            let j = l.inner_idx as int;
            assert(!(b == a && j == i));
            assert(w2.is_slot(b, j));
            assert(w2.archs()[b].schema_spec() == w1.archs()[b].schema_spec()) by {
                if b != a {
                    assert(w2.archs()[b] == w1.archs()[b]);
                }
            }
            let f = w1.archs()[b].schema_spec().find_spec(a2).unwrap();
            w1.archs()[b].schema_spec().lemma_find_spec(a2);
            assert(w1.archs()[b].offset_seq()[j].0 + w1.width(b) <= len1);
        }
    }

    /// Places `entity_id` in a freed or new slot of archetype `arch_idx` with
    /// a fresh zeroed float block, then writes `defaults` there in order.
    fn place(&mut self, arch_idx: usize, entity_id: EntityId, defaults: &Vec<(FieldIndex, u64)>) -> (loc: EntityLoc)
        requires
            old(self).wf(),
            (arch_idx as int) < old(self).archs().len(),
            old(self).allocator_spec().is_alive_spec(entity_id),
            old(self).unplaced(entity_id.index as int),
            forall|p: int| 0 <= p < old(self).pending().len() ==> (#[trigger] old(self).pending()[p]).entity_id.index != entity_id.index,
            forall|k: int| 0 <= k < defaults@.len() ==> ((#[trigger] defaults@[k]).0.0 as int) < old(self).width(arch_idx as int),
            old(self).store().front().len() + old(self).width(arch_idx as int) + 512 <= u32::MAX,
            old(self).archs()[arch_idx as int].slot_count_spec() < usize::MAX,
        ensures
            final(self).wf(),
            final(self).meta_spec() == old(self).meta_spec(),
            World::place_post(*old(self), *final(self), arch_idx as int, entity_id, loc),
            final(self).archs()[arch_idx as int].resonator_types_spec() == old(self).archs()[arch_idx as int].resonator_types_spec(),
            final(self).loc_of(EntityHandle(entity_id)) == Some(loc),
            final(self).store().front().len() == old(self).store().front().len() + old(self).width(arch_idx as int),
            forall|p: int| 0 <= p < old(self).store().front().len() ==> #[trigger] final(self).store().front()[p] == old(self).store().front()[p],
            forall|f: int| 0 <= f < old(self).width(arch_idx as int) ==>
                #[trigger] final(self).store().front()[old(self).store().front().len() + f] == default_value(defaults@, f),
            final(self).store().mode_spec() == old(self).store().mode_spec(),
            forall|e2: EntityHandle, a2: InternedStr| old(self).pos(e2, a2) is Some ==>
                #[trigger] final(self).pos(e2, a2) == old(self).pos(e2, a2) && final(self).read_spec(e2, a2) == old(self).read_spec(e2, a2),
            final(self).prefabs_spec() == old(self).prefabs_spec(),
    {
        let width = self.archetypes[arch_idx].schema().floats_per_entity as usize;
        let float_offset = self.storage.alloc_floats(width);
        let inner = self.archetypes[arch_idx].add_entity(entity_id, float_offset);
        let idx = entity_id.index as usize;
        extend_locations(&mut self.entity_locations, idx);
        let loc = EntityLoc { archetype_idx: arch_idx, inner_idx: inner };
        self.entity_locations.set(idx, Some(loc));
        proof {
            let w1 = *old(self);
            let w2 = *self;
            assert(w2.archs()[arch_idx as int].slot_count_spec() > 0);
            assert forall|b: int| 0 <= b < w1.archs().len() && b != arch_idx ==> #[trigger] w2.archs()[b] == w1.archs()[b] by {}
            assert(World::place_post(w1, w2, arch_idx as int, entity_id, loc));
            World::lemma_place_wf(w1, w2, arch_idx as int, entity_id, loc);
        }
        let ghost placed = *self;
        let n = defaults.len();
        let mut k: usize = 0;
        while k < n
            invariant
                self.wf(),
                placed.wf(),
                n == defaults@.len(),
                k <= n,
                *self == (World { storage: self.storage, ..placed }),
                self.store().front().len() == placed.store().front().len(),
                self.store().mode_spec() == placed.store().mode_spec(),
                float_offset.0 as int == old(self).store().front().len(),
                width as int == old(self).width(arch_idx as int),
                placed.store().front().len() == old(self).store().front().len() + width,
                forall|p: int| 0 <= p < old(self).store().front().len() ==> #[trigger] self.store().front()[p] == placed.store().front()[p],
                forall|f: int| 0 <= f < width ==>
                    #[trigger] self.store().front()[float_offset.0 + f] == default_value(defaults@.subrange(0, k as int), f),
                forall|j: int| 0 <= j < defaults@.len() ==> ((#[trigger] defaults@[j]).0.0 as int) < width,
            decreases n - k,
        {
            let (field, value) = defaults[k];
            let ghost before = *self;
            self.storage.init_float(float_offset, field, value);
            proof {
                World::lemma_wf_new_store(before, *self);
                let d0 = defaults@.subrange(0, k as int);
                let d1 = defaults@.subrange(0, k + 1);
                assert(d1.drop_last() =~= d0);
                assert(d1.last() == (field, value));
                assert forall|f: int| 0 <= f < width implies
                    #[trigger] self.store().front()[float_offset.0 + f] == default_value(d1, f) by {
                    assert(default_value(d1, f) == if field.0 as int == f { value } else { default_value(d0, f) });
                }
            }
            k = k + 1;
        }
        proof {
            assert(defaults@.subrange(0, n as int) =~= defaults@);
            let w1 = *old(self);
            let w3 = *self;
            assert(w3.locs() == placed.locs());
            assert(w3.archs() == placed.archs());
            assert(w3.allocator_spec() == placed.allocator_spec());
            assert forall|e2: EntityHandle, a2: InternedStr| w1.pos(e2, a2) is Some implies
                #[trigger] w3.pos(e2, a2) == w1.pos(e2, a2) && w3.read_spec(e2, a2) == w1.read_spec(e2, a2) by {
                assert(placed.pos(e2, a2) == w1.pos(e2, a2));
                assert(w3.pos(e2, a2) == placed.pos(e2, a2));
                let l = w1.loc_of(e2).unwrap();
                assert(w1.locs()[e2.0.index as int] is Some);
                assert(w1.is_slot(l.archetype_idx as int, l.inner_idx as int));
                w1.archs()[l.archetype_idx as int].schema_spec().lemma_find_spec(a2);
                assert(w1.archs()[l.archetype_idx as int].offset_seq()[l.inner_idx as int].0
                    + w1.width(l.archetype_idx as int) <= w1.store().front().len());
            }
        }
        loc
    }

    /// Whether the queued entity `pe` has been placed: it is live in an
    /// archetype with its field set, and field `f` of that archetype holds
    /// the last default given for index `f`.
    pub open spec fn placed_as(&self, pe: PendingEntity) -> bool {
        let h = EntityHandle(pe.entity_id);
        &&& self.loc_of(h) is Some
        &&& {
            let a = self.loc_of(h).unwrap().archetype_idx as int;
            &&& 0 <= a < self.archs().len()
            &&& Self::is_signature_of(self.sigs()[a], pe.schema)
            &&& self.width(a) == pe.schema.field_names@.len()
            &&& forall|f: int| 0 <= f < self.width(a) ==>
                #[trigger] self.read_spec(h, self.archs()[a].schema_spec().field_names@[f]) == Some(default_value(pe.defaults@, f))
        }
    }

    /// A queued entity whose attributes have distinct names, once a build
    /// has placed it in an archetype that lists its fields in the entity's
    /// own order, reads back the value given for each attribute.
    pub proof fn law_placed_entity_reads_back(
        w: World,
        w2: World,
        pe: PendingEntity,
        name: Seq<char>,
        attrs: Seq<(Seq<char>, u64)>,
        types: Seq<Seq<char>>,
    )
        requires
            w.wf(),
            w2.wf(),
            pe.wf(),
            w.queued_as(pe, name, attrs, types),
            w2.placed_as(pe),
            w2.names() == w.names(),
            forall|i: int, j: int| 0 <= i < j < attrs.len() ==> attrs[i].0 != attrs[j].0,
            w2.archs()[w2.loc_of(EntityHandle(pe.entity_id)).unwrap().archetype_idx as int].schema_spec().field_names@
                == pe.schema.field_names@,
        ensures
            forall|j: int| 0 <= j < attrs.len() ==>
                w2.read_spec(EntityHandle(pe.entity_id), w.names().find_spec((#[trigger] attrs[j]).0).unwrap()) == Some(attrs[j].1),
    {
        let h = EntityHandle(pe.entity_id);
        let a = w2.loc_of(h).unwrap().archetype_idx as int;
        assert forall|j: int| 0 <= j < attrs.len() implies
            w2.read_spec(h, w.names().find_spec((#[trigger] attrs[j]).0).unwrap()) == Some(attrs[j].1) by {
            let id = w.names().find_spec(attrs[j].0).unwrap();
            let fj = pe.schema.find_spec(id).unwrap();
            pe.schema.lemma_find_spec(id);
            assert(pe.defaults@[j] == (fj, attrs[j].1));
            assert forall|i: int| 0 <= i < pe.defaults@.len() && i != j implies pe.defaults@[i].0 != pe.defaults@[j].0 by {
                let idi = w.names().find_spec(attrs[i].0).unwrap();
                assert(pe.defaults@[i] == (pe.schema.find_spec(idi).unwrap(), attrs[i].1));
                if i < j {
                    assert(attrs[i].0 != attrs[j].0);
                } else {
                    assert(attrs[j].0 != attrs[i].0);
                }
                w.names().lemma_find_distinct(attrs[i].0, attrs[j].0);
                pe.schema.lemma_find_spec(idi);
            }
            lemma_default_value_unique(pe.defaults@, j);
            assert(w2.archs()[a].schema_spec().field_names@[fj.0 as int] == id);
            assert(w2.read_spec(h, w2.archs()[a].schema_spec().field_names@[fj.0 as int]) == Some(default_value(pe.defaults@, fj.0 as int)));
        }
    }

    /// Invariant of `build`: queue entities flagged so far are placed, the
    /// others are not, and the room left covers the unplaced ones.
    pub open spec fn build_inv(&self, w0: World, ps: Seq<PendingEntity>, sigs: Seq<Seq<InternedStr>>, flags: Seq<bool>, slack: int) -> bool {
        let n = ps.len();
        &&& flags.len() == n
        &&& sigs.len() == n
        &&& self.wf()
        &&& self.pending() == Seq::<PendingEntity>::empty()
        &&& self.allocator_spec() == w0.allocator_spec()
        &&& self.names() == w0.names()
        &&& self.rels() == w0.rels()
        &&& self.registered() == w0.registered()
        &&& self.archs().len() >= w0.archs().len()
        &&& self.layout_version_spec() == w0.layout_version_spec()
        &&& self.prefabs_spec() == w0.prefabs_spec()
        &&& forall|j: int| 0 <= j < n ==> Self::is_signature_of(#[trigger] sigs[j], ps[j].schema)
        &&& forall|j: int| 0 <= j < n && flags[j] ==> self.placed_as(#[trigger] ps[j])
        &&& forall|j: int| 0 <= j < n && !flags[j] ==> self.unplaced((#[trigger] ps[j]).entity_id.index as int)
        &&& forall|j: int| 0 <= j < n ==> #[trigger] ps[j].wf()
        &&& forall|j: int| 0 <= j < n ==> w0.allocator_spec().is_alive_spec((#[trigger] ps[j]).entity_id)
        &&& forall|j: int| 0 <= j < n ==> ((#[trigger] ps[j]).name.0 as int) < w0.names().names().len()
        &&& forall|j: int, k: int| 0 <= j < k < n ==> ps[j].entity_id.index != ps[k].entity_id.index
        &&& forall|e2: EntityHandle, a2: InternedStr| w0.pos(e2, a2) is Some ==>
            #[trigger] self.pos(e2, a2) == w0.pos(e2, a2) && self.read_spec(e2, a2) == w0.read_spec(e2, a2)
        &&& self.store().front().len() + sum_unset(widths(ps), flags, n as int) + 512 <= u32::MAX
        &&& self.archs().len() + sum_unset(ones(n), flags, n as int) < u32::MAX + slack
        &&& self.meta_spec().nodes().len() + sum_unset(ones(n), flags, n as int) < u32::MAX
        &&& forall|a: int| 0 <= a < self.archs().len() ==>
            (#[trigger] self.archs()[a]).slot_count_spec() + sum_unset(ones(n), flags, n as int) < usize::MAX
    }

    /// Places queue entity `p` in archetype `arch_idx`, which has its field
    /// set; the first entity of a group that names resonator types attaches
    /// the registered ones when `attach` holds.
    fn place_one(
        &mut self,
        pending: &Vec<PendingEntity>,
        placed: &mut Vec<bool>,
        p: usize,
        arch_idx: usize,
        attach: bool,
        record: bool,
        Ghost(w0): Ghost<World>,
        Ghost(sigs): Ghost<Seq<Seq<InternedStr>>>,
        Ghost(slack): Ghost<int>,
    )
        requires
            old(self).build_inv(w0, pending@, sigs, old(placed)@, slack),
            0 <= slack <= 1,
            (p as int) < pending@.len(),
            !old(placed)@[p as int],
            (arch_idx as int) < old(self).archs().len(),
            old(self).sigs()[arch_idx as int] == sigs[p as int],
        ensures
            final(self).build_inv(w0, pending@, sigs, final(placed)@, slack),
            final(placed)@ == old(placed)@.update(p as int, true),
            final(self).archs().len() == old(self).archs().len(),
            final(self).sigs() == old(self).sigs(),
            sum_unset(ones(pending@.len()), final(placed)@, pending@.len() as int)
                == sum_unset(ones(pending@.len()), old(placed)@, pending@.len() as int) - 1,
            !record ==> final(self).meta_spec() == old(self).meta_spec(),
            forall|b: int| 0 <= b < old(self).archs().len() && b != arch_idx ==>
                #[trigger] final(self).archs()[b].resonator_types_spec() == old(self).archs()[b].resonator_types_spec(),
            final(self).archs()[arch_idx as int].resonator_types_spec() == if attach && pending@[p as int].resonator_types@.len() > 0 {
                old(self).archs()[arch_idx as int].resonator_types_spec()
                    + registered_only(strings_view(pending@[p as int].resonator_types@), old(self).registered())
            } else {
                old(self).archs()[arch_idx as int].resonator_types_spec()
            },
    {
        let ghost ps = pending@;
        let ghost n = ps.len();
        let ghost before = *self;
        let ghost flags0 = placed@;
        proof {
            assert(ps[p as int].wf());
            let sch = self.archs()[arch_idx as int].schema_spec();
            assert(Self::is_signature_of(self.sigs()[arch_idx as int], sch));
            assert(Self::is_signature_of(sigs[p as int], ps[p as int].schema));
            lemma_sum_unset_ge(widths(ps), placed@, n as int, p as int);
            lemma_sum_unset_ge(ones(n), placed@, n as int, p as int);
            assert(widths(ps)[p as int] == ps[p as int].schema.field_names@.len());
            assert forall|k: int| 0 <= k < pending@[p as int].defaults@.len() implies
                ((#[trigger] pending@[p as int].defaults@[k]).0.0 as int) < self.width(arch_idx as int) by {
                assert(ps[p as int].defaults@[k].0.0 < ps[p as int].schema.field_names@.len());
            }
            assert(self.archs()[arch_idx as int].slot_count_spec() + sum_unset(ones(n), placed@, n as int) < usize::MAX);
        }
        let loc = self.place(arch_idx, pending[p].entity_id, &pending[p].defaults);
        placed.set(p, true);
        proof {
            let w1 = before;
            let w2 = *self;
            let pe = ps[p as int];
            lemma_sum_unset_set(widths(ps), flags0, n as int, p as int);
            lemma_sum_unset_set(ones(n), flags0, n as int, p as int);
            World::lemma_place_keeps(w1, w2, arch_idx as int, pe.entity_id, loc);
            assert forall|j: int| 0 <= j < n && placed@[j] implies self.placed_as(#[trigger] ps[j]) by {
                if j != p as int {
                    World::lemma_placed_as_kept(w1, w2, ps[j]);
                } else {
                    World::lemma_placed_fresh(w1, w2, arch_idx as int, pe, loc);
                }
            }
            assert forall|j: int| 0 <= j < n && !placed@[j] implies self.unplaced((#[trigger] ps[j]).entity_id.index as int) by {
                let q = ps[j].entity_id.index as int;
                assert(j != p as int);
                assert(q != pe.entity_id.index as int);
                assert(w1.unplaced(q));
                if q < w2.locs().len() {
                    assert(w2.locs()[q] == if q < w1.locs().len() { w1.locs()[q] } else { None });
                }
            }
            assert forall|a: int| 0 <= a < self.archs().len() implies
                (#[trigger] self.archs()[a]).slot_count_spec() + sum_unset(ones(n), placed@, n as int) < usize::MAX by {
                if a != arch_idx as int {
                    assert(w2.archs()[a] == w1.archs()[a]);
                }
            }
        }
        if attach && pending[p].resonator_types.len() > 0 {
            let ghost before2 = *self;
            self.attach_resonators(arch_idx, &pending[p].resonator_types);
            proof {
                let w1 = before2;
                let w2 = *self;
                World::lemma_attach_keeps(w1, w2, arch_idx as int);
                assert forall|j: int| 0 <= j < n && placed@[j] implies self.placed_as(#[trigger] ps[j]) by {
                    World::lemma_placed_as_kept(w1, w2, ps[j]);
                }
                assert forall|a: int| 0 <= a < self.archs().len() implies
                    (#[trigger] self.archs()[a]).slot_count_spec() + sum_unset(ones(n), placed@, n as int) < usize::MAX by {
                    if a != arch_idx as int {
                        assert(w2.archs()[a] == w1.archs()[a]);
                    }
                }
            }
        }
        if record {
            let ghost before3 = *self;
            proof {
                lemma_sum_unset_ones(n, placed@, n as int);
            }
            let arch_id = self.archetypes[arch_idx].id();
            self.meta_graph.add_entity(EntityHandle(pending[p].entity_id), arch_id);
            proof {
                World::lemma_build_inv_meta(before3, *self, w0, ps, sigs, placed@, slack);
            }
        }
    }

    /// The invariant of `build` does not depend on the graph metadata beyond
    /// its bound.
    proof fn lemma_build_inv_meta(w1: World, w2: World, w0: World, ps: Seq<PendingEntity>, sigs: Seq<Seq<InternedStr>>, flags: Seq<bool>, slack: int)
        requires
            w1.build_inv(w0, ps, sigs, flags, slack),
            w2 == (World { meta_graph: w2.meta_graph, ..w1 }),
            w2.meta_spec().wf(),
            w2.meta_spec().nodes().len() + sum_unset(ones(ps.len()), flags, ps.len() as int) < u32::MAX,
        ensures
            w2.build_inv(w0, ps, sigs, flags, slack),
    {
        let n = ps.len();
        assert(w2.archs() == w1.archs());
        assert(w2.locs() == w1.locs());
        assert(w2.store() == w1.store());
        assert(w2.allocator_spec() == w1.allocator_spec());
        assert(w2.pending() == w1.pending());
        assert(w2.names() == w1.names());
        assert(w2.sigs() == w1.sigs());
        assert(w2.rels() == w1.rels());
        assert(w2.registered() == w1.registered());
        assert(w2.prefabs_spec() == w1.prefabs_spec());
        assert(w2.layout_version_spec() == w1.layout_version_spec());
        assert(w2.wf()) by {
            assert(w2.blocks_wf());
            assert(w2.locations_wf());
            World::lemma_pending_frame(w1, w2);
        }
        assert forall|e2: EntityHandle, a2: InternedStr| #[trigger] w2.read_spec(e2, a2) == w1.read_spec(e2, a2) && w2.pos(e2, a2) == w1.pos(e2, a2) by {}
        assert forall|h: EntityHandle| #[trigger] w2.loc_of(h) == w1.loc_of(h) by {}
        assert forall|a: int| #[trigger] w2.width(a) == w1.width(a) by {}
        assert forall|j: int| 0 <= j < n && flags[j] implies w2.placed_as(#[trigger] ps[j]) by {
            assert(w1.placed_as(ps[j]));
        }
        assert forall|j: int| 0 <= j < n && !flags[j] implies w2.unplaced((#[trigger] ps[j]).entity_id.index as int) by {
            assert(w1.unplaced(ps[j].entity_id.index as int));
        }
        assert forall|e2: EntityHandle, a2: InternedStr| w0.pos(e2, a2) is Some implies
            #[trigger] w2.pos(e2, a2) == w0.pos(e2, a2) && w2.read_spec(e2, a2) == w0.read_spec(e2, a2) by {
            assert(w1.pos(e2, a2) == w0.pos(e2, a2));
        }
    }

    /// Places every unplaced queue entity from `g` on whose signature is that
    /// of entity `g`.
    fn place_group(
        &mut self,
        pending: &Vec<PendingEntity>,
        sigs: &Vec<Vec<InternedStr>>,
        placed: &mut Vec<bool>,
        g: usize,
        arch_idx: usize,
        Ghost(w0): Ghost<World>,
    )
        requires
            old(self).build_inv(w0, pending@, sigs@.map_values(|v: Vec<InternedStr>| v@), old(placed)@, 1),
            (g as int) < pending@.len(),
            !old(placed)@[g as int],
            (arch_idx as int) < old(self).archs().len(),
            old(self).sigs()[arch_idx as int] == sigs@[g as int]@,
        ensures
            final(self).build_inv(w0, pending@, sigs@.map_values(|v: Vec<InternedStr>| v@), final(placed)@, 0),
            final(placed)@[g as int],
            forall|j: int| 0 <= j < pending@.len() && old(placed)@[j] ==> #[trigger] final(placed)@[j],
            final(self).archs().len() == old(self).archs().len(),
            final(self).sigs() == old(self).sigs(),
            forall|b: int| 0 <= b < old(self).archs().len() && b != arch_idx ==>
                #[trigger] final(self).archs()[b].resonator_types_spec() == old(self).archs()[b].resonator_types_spec(),
            ({
                let sv = sigs@.map_values(|v: Vec<InternedStr>| v@);
                (forall|j: int| 0 <= j < g ==> old(placed)@[j])
                && (forall|j: int| 0 <= j < pending@.len() && sv[j] == sv[g as int] ==> !old(placed)@[j])
                ==> {
                    &&& forall|j: int| 0 <= j < pending@.len() ==> #[trigger] final(placed)@[j] == (old(placed)@[j] || sv[j] == sv[g as int])
                    &&& final(self).archs()[arch_idx as int].resonator_types_spec() == types_after(
                        old(self).archs()[arch_idx as int].resonator_types_spec(), pending@, sv, sv[g as int], old(self).registered(), pending@.len() as int)
                }
            }),
    {
        let ghost sv = sigs@.map_values(|v: Vec<InternedStr>| v@);
        let ghost fresh = (forall|j: int| 0 <= j < g ==> old(placed)@[j])
            && (forall|j: int| 0 <= j < pending@.len() && sv[j] == sv[g as int] ==> !old(placed)@[j]);
        let ghost base = old(self).archs()[arch_idx as int].resonator_types_spec();
        let ghost reg = old(self).registered();
        let n = pending.len();
        let mut attach = self.archetypes[arch_idx].resonator_count() == 0;
        proof {
            if fresh {
                assert forall|i: int| 0 <= i < g implies #[trigger] sv[i] != sv[g as int] by {
                    assert(old(placed)@[i]);
                }
                lemma_first_typed_none(pending@, sv, sv[g as int], g as int);
            }
        }
        let mut p = g;
        while p < n
            invariant
                n == pending@.len(),
                sv == sigs@.map_values(|v: Vec<InternedStr>| v@),
                g <= p <= n,
                (arch_idx as int) < self.archs().len(),
                self.sigs()[arch_idx as int] == sv[g as int],
                self.build_inv(w0, pending@, sv, placed@, if p > g { 0int } else { 1int }),
                p > g ==> placed@[g as int],
                p == g ==> !placed@[g as int],
                forall|j: int| 0 <= j < n && old(placed)@[j] ==> #[trigger] placed@[j],
                self.archs().len() == old(self).archs().len(),
                self.sigs() == old(self).sigs(),
                self.registered() == reg,
                forall|b: int| 0 <= b < old(self).archs().len() && b != arch_idx ==>
                    #[trigger] self.archs()[b].resonator_types_spec() == old(self).archs()[b].resonator_types_spec(),
                fresh == ((forall|j: int| 0 <= j < g ==> old(placed)@[j])
                    && (forall|j: int| 0 <= j < pending@.len() && sv[j] == sv[g as int] ==> !old(placed)@[j])),
                base == old(self).archs()[arch_idx as int].resonator_types_spec(),
                fresh ==> forall|j: int| 0 <= j < n ==> #[trigger] placed@[j] == (old(placed)@[j] || (g <= j < p && sv[j] == sv[g as int])),
                fresh ==> self.archs()[arch_idx as int].resonator_types_spec() == types_after(base, pending@, sv, sv[g as int], reg, p as int),
                fresh ==> attach == (base.len() == 0 && first_typed(pending@, sv, sv[g as int], p as int) is None),
            decreases n - p,
        {
            if !placed[p] && same_signature(&sigs[p], &sigs[g]) {
                let slack: Ghost<int> = Ghost(if p > g { 0int } else { 1int });
                let ghost t0 = self.archs()[arch_idx as int].resonator_types_spec();
                let ghost was_attach = attach;
                self.place_one(pending, placed, p, arch_idx, attach, true, Ghost(w0), Ghost(sv), slack);
                if pending[p].resonator_types.len() > 0 {
                    attach = false;
                }
                proof {
                    if p == g {
                        World::lemma_build_inv_slack(*self, w0, pending@, sv, placed@);
                    }
                    if fresh {
                        assert(sv[p as int] == sv[g as int]);
                        if was_attach && pending@[p as int].resonator_types@.len() > 0 {
                            assert(first_typed(pending@, sv, sv[g as int], p + 1) == Some(p as int));
                            assert(t0 == Seq::<Seq<char>>::empty()) by {
                                assert(t0 == types_after(base, pending@, sv, sv[g as int], reg, p as int));
                            }
                            assert(Seq::<Seq<char>>::empty() + registered_only(strings_view(pending@[p as int].resonator_types@), reg)
                                =~= registered_only(strings_view(pending@[p as int].resonator_types@), reg));
                        }
                    }
                }
            } else {
                proof {
                    if p == g {
                        assert(sigs@[g as int]@ == sigs@[g as int]@);
                    }
                    if fresh {
                        if sv[p as int] == sv[g as int] {
                            assert(!old(placed)@[p as int]);
                            assert(placed@[p as int]);
                            assert(false);
                        }
                    }
                }
            }
            p = p + 1;
        }
    }

    /// Sorted field lists of the queue entities, in queue order.
    fn queue_signatures(pending: &Vec<PendingEntity>) -> (sigs: Vec<Vec<InternedStr>>)
        requires
            forall|j: int| 0 <= j < pending@.len() ==> #[trigger] pending@[j].wf(),
        ensures
            sigs@.len() == pending@.len(),
            forall|j: int| 0 <= j < pending@.len() ==> Self::is_signature_of((#[trigger] sigs@[j])@, pending@[j].schema),
    {
        let n = pending.len();
        let mut sigs: Vec<Vec<InternedStr>> = Vec::new();
        let mut i: usize = 0;
        while i < n
            invariant
                n == pending@.len(),
                forall|j: int| 0 <= j < pending@.len() ==> #[trigger] pending@[j].wf(),
                i <= n,
                sigs@.len() == i,
                forall|j: int| 0 <= j < i ==> Self::is_signature_of((#[trigger] sigs@[j])@, pending@[j].schema),
            decreases n - i,
        {
            proof {
                assert(pending@[i as int].wf());
            }
            sigs.push(pending[i].schema.signature());
            i = i + 1;
        }
        sigs
    }

    /// Places every unplaced queue entity, group by group: entities with the
    /// same field set go to one archetype (created from the first of them
    /// when new), in queue order.
    fn place_groups(
        &mut self,
        pending: &Vec<PendingEntity>,
        sigs: &Vec<Vec<InternedStr>>,
        placed: &mut Vec<bool>,
        Ghost(w0): Ghost<World>,
    )
        requires
            sigs@.len() == pending@.len(),
            old(self).build_inv(w0, pending@, sigs@.map_values(|v: Vec<InternedStr>| v@), old(placed)@, 0),
        ensures
            final(self).build_inv(w0, pending@, sigs@.map_values(|v: Vec<InternedStr>| v@), final(placed)@, 0),
            forall|j: int| 0 <= j < pending@.len() ==> #[trigger] final(placed)@[j],
            forall|a: int| old(self).archs().len() <= a < final(self).archs().len() ==>
                seen_sig(sigs@.map_values(|v: Vec<InternedStr>| v@), pending@.len() as int, #[trigger] final(self).sigs()[a]),
            (forall|j: int| 0 <= j < pending@.len() ==> !old(placed)@[j]) ==>
                forall|a: int| 0 <= a < final(self).archs().len() ==> #[trigger] final(self).archs()[a].resonator_types_spec() == types_after(
                    if a < old(self).archs().len() { old(self).archs()[a].resonator_types_spec() } else { Seq::empty() },
                    pending@, sigs@.map_values(|v: Vec<InternedStr>| v@), final(self).sigs()[a], old(self).registered(), pending@.len() as int),
    {
        let ghost ps = pending@;
        let ghost sv = sigs@.map_values(|v: Vec<InternedStr>| v@);
        let ghost fresh = forall|j: int| 0 <= j < pending@.len() ==> !old(placed)@[j];
        let ghost w_in = *old(self);
        let ghost reg = old(self).registered();
        let n = pending.len();
        let mut g: usize = 0;
        while g < n
            invariant
                n == pending@.len(),
                pending@ == ps,
                sigs@.len() == n,
                sv == sigs@.map_values(|v: Vec<InternedStr>| v@),
                g <= n,
                self.build_inv(w0, ps, sv, placed@, 0),
                forall|j: int| 0 <= j < g ==> #[trigger] placed@[j],
                fresh == (forall|j: int| 0 <= j < pending@.len() ==> !old(placed)@[j]),
                w_in == *old(self),
                reg == w_in.registered(),
                self.registered() == reg,
                self.archs().len() >= w_in.archs().len(),
                forall|b: int| 0 <= b < w_in.archs().len() ==> #[trigger] self.sigs()[b] == w_in.sigs()[b],
                forall|a: int| w_in.archs().len() <= a < self.archs().len() ==> #[trigger] seen_sig(sv, g as int, self.sigs()[a]),
                fresh ==> forall|j: int| 0 <= j < n ==> #[trigger] placed@[j] == seen_sig(sv, g as int, sv[j]),
                fresh ==> forall|a: int| 0 <= a < self.archs().len() ==> #[trigger] self.archs()[a].resonator_types_spec() == if seen_sig(sv, g as int, self.sigs()[a]) {
                    types_after(if a < w_in.archs().len() { w_in.archs()[a].resonator_types_spec() } else { Seq::empty() }, ps, sv, self.sigs()[a], reg, n as int)
                } else {
                    if a < w_in.archs().len() { w_in.archs()[a].resonator_types_spec() } else { Seq::empty() }
                },
            decreases n - g,
        {
            proof {
                if fresh && g == 0 {
                    assert forall|j: int| 0 <= j < n implies #[trigger] placed@[j] == seen_sig(sv, 0, sv[j]) by {}
                }
            }
            if !placed[g] {
                let ghost before = *self;
                let ghost flags0 = placed@;
                proof {
                    lemma_sum_unset_ge(ones(n as nat), placed@, n as int, g as int);
                    assert(ps[g as int].wf());
                    assert(Self::is_signature_of(sv[g as int], ps[g as int].schema));
                }
                let arch_idx = self.get_or_create_archetype(&sigs[g], pending[g].name, &pending[g].schema);
                proof {
                    World::lemma_build_inv_new_archetype(before, *self, w0, ps, sv, placed@, sv[g as int]);
                }
                let ghost mid = *self;
                proof {
                    if fresh {
                        assert(!seen_sig(sv, g as int, sv[g as int]));
                        assert forall|j: int| 0 <= j < n && sv[j] == sv[g as int] implies !placed@[j] by {}
                        assert forall|j: int| 0 <= j < g implies placed@[j] by {}
                    }
                }
                self.place_group(pending, sigs, placed, g, arch_idx, Ghost(w0));
                proof {
                    assert forall|a: int| w_in.archs().len() <= a < self.archs().len() implies #[trigger] seen_sig(sv, g + 1, self.sigs()[a]) by {
                        if a < before.archs().len() {
                            assert(mid.sigs()[a] == before.sigs()[a]);
                            assert(seen_sig(sv, g as int, before.sigs()[a]));
                            let i = choose|i: int| 0 <= i < g && #[trigger] sv[i] == before.sigs()[a];
                            assert(sv[i] == self.sigs()[a]);
                        } else {
                            assert(self.sigs()[a] == sv[g as int]);
                        }
                    }
                    if fresh {
                        assert forall|j: int| 0 <= j < n implies #[trigger] placed@[j] == seen_sig(sv, g + 1, sv[j]) by {
                            if sv[j] == sv[g as int] {
                                assert(sv[g as int] == sv[j]);
                            }
                            if seen_sig(sv, g + 1, sv[j]) && !seen_sig(sv, g as int, sv[j]) {
                                let i = choose|i: int| 0 <= i < g + 1 && #[trigger] sv[i] == sv[j];
                                assert(i == g);
                            }
                        }
                        let la = arch_idx as int;
                        assert(mid.sigs()[la] == sv[g as int]);
                        assert(mid.archs()[la].resonator_types_spec() == if la < w_in.archs().len() { w_in.archs()[la].resonator_types_spec() } else { Seq::<Seq<char>>::empty() }) by {
                            if la < before.archs().len() {
                                assert(mid.archs()[la] == before.archs()[la]);
                                assert(before.sigs()[la] == sv[g as int]);
                            } else {
                                assert(!before.sigs().contains(sv[g as int]));
                            }
                        }
                        assert forall|a: int| 0 <= a < self.archs().len() implies #[trigger] self.archs()[a].resonator_types_spec() == if seen_sig(sv, g + 1, self.sigs()[a]) {
                            types_after(if a < w_in.archs().len() { w_in.archs()[a].resonator_types_spec() } else { Seq::empty() }, ps, sv, self.sigs()[a], reg, n as int)
                        } else {
                            if a < w_in.archs().len() { w_in.archs()[a].resonator_types_spec() } else { Seq::empty() }
                        } by {
                            if a == la {
                                assert(seen_sig(sv, g + 1, self.sigs()[a])) by {
                                    assert(sv[g as int] == self.sigs()[a]);
                                }
                            } else {
                                assert(self.sigs()[a] != self.sigs()[la]);
                                assert(self.sigs()[a] != sv[g as int]);
                                assert(seen_sig(sv, g + 1, self.sigs()[a]) == seen_sig(sv, g as int, self.sigs()[a])) by {
                                    if seen_sig(sv, g + 1, self.sigs()[a]) {
                                        let i = choose|i: int| 0 <= i < g + 1 && #[trigger] sv[i] == self.sigs()[a];
                                        assert(i != g);
                                    }
                                }
                                if a < before.archs().len() {
                                    assert(mid.archs()[a] == before.archs()[a]);
                                    assert(mid.sigs()[a] == before.sigs()[a]);
                                } else {
                                    assert(false);
                                }
                            }
                        }
                    }
                }
            } else {
                proof {
                    assert forall|a: int| w_in.archs().len() <= a < self.archs().len() implies #[trigger] seen_sig(sv, g + 1, self.sigs()[a]) by {
                        assert(seen_sig(sv, g as int, self.sigs()[a]));
                        let i = choose|i: int| 0 <= i < g && #[trigger] sv[i] == self.sigs()[a];
                        assert(sv[i] == self.sigs()[a]);
                    }
                    if fresh {
                        assert(seen_sig(sv, g as int, sv[g as int]));
                        assert forall|x: Seq<InternedStr>| seen_sig(sv, g + 1, x) == seen_sig(sv, g as int, x) by {
                            if seen_sig(sv, g + 1, x) && !seen_sig(sv, g as int, x) {
                                let i = choose|i: int| 0 <= i < g + 1 && #[trigger] sv[i] == x;
                                assert(i == g);
                                let k = choose|k: int| 0 <= k < g && #[trigger] sv[k] == sv[g as int];
                                assert(sv[k] == x);
                            }
                        }
                    }
                }
            }
            g = g + 1;
        }
        proof {
            if fresh {
                assert forall|a: int| 0 <= a < self.archs().len() implies #[trigger] self.archs()[a].resonator_types_spec() == types_after(
                    if a < w_in.archs().len() { w_in.archs()[a].resonator_types_spec() } else { Seq::empty() },
                    ps, sv, self.sigs()[a], reg, n as int) by {
                    if !seen_sig(sv, n as int, self.sigs()[a]) {
                        assert forall|i: int| 0 <= i < n implies #[trigger] sv[i] != self.sigs()[a] by {
                            if sv[i] == self.sigs()[a] {
                                assert(seen_sig(sv, n as int, self.sigs()[a]));
                            }
                        }
                        lemma_first_typed_none(ps, sv, self.sigs()[a], n as int);
                    }
                }
            }
        }
    }

    /// Some entity of `ps` has field set `sig`.
    pub open spec fn signature_queued(ps: Seq<PendingEntity>, sig: Seq<InternedStr>) -> bool {
        exists|j: int| 0 <= j < ps.len() && #[trigger] World::is_signature_of(sig, ps[j].schema)
    }

    /// How a build of `w` giving `w2` left the resonator types, `sv` being
    /// the field sets of the queue entities: each archetype keeps the types
    /// it had, if any; otherwise it has the registered ones among those
    /// named by the first entity of its field set in the queue that names
    /// any.
    pub open spec fn resonators_after_build(w: World, w2: World, sv: Seq<Seq<InternedStr>>) -> bool {
        &&& sv.len() == w.pending().len()
        &&& forall|j: int| 0 <= j < sv.len() ==> Self::is_signature_of(#[trigger] sv[j], w.pending()[j].schema)
        &&& forall|a: int| 0 <= a < w2.archs().len() ==> #[trigger] w2.archs()[a].resonator_types_spec() == types_after(
            if a < w.archs().len() { w.archs()[a].resonator_types_spec() } else { Seq::empty() },
            w.pending(), sv, w2.sigs()[a], w.registered(), w.pending().len() as int)
    }

    /// Places every queued entity: entities with the same field set go to one
    /// archetype (created from the first of them when new), in queue order;
    /// the first entity of a group that names resonator types attaches the
    /// registered ones to an archetype that had none before.
    pub fn build(&mut self)
        requires
            old(self).wf(),
            old(self).store().front().len() + sum_unset(widths(old(self).pending()), Seq::new(old(self).pending().len(), |i: int| false), old(self).pending().len() as int) + 512 <= u32::MAX,
            old(self).archs().len() + old(self).pending().len() < u32::MAX,
            old(self).meta_spec().nodes().len() + old(self).pending().len() < u32::MAX,
            old(self).pending().len() < usize::MAX,
            forall|a: int| 0 <= a < old(self).archs().len() ==>
                (#[trigger] old(self).archs()[a]).slot_count_spec() + old(self).pending().len() < usize::MAX,
            old(self).layout_version_spec() < u64::MAX,
        ensures
            final(self).wf(),
            final(self).pending() == Seq::<PendingEntity>::empty(),
            forall|p: int| 0 <= p < old(self).pending().len() ==> final(self).placed_as(#[trigger] old(self).pending()[p]),
            forall|e2: EntityHandle, a2: InternedStr| old(self).pos(e2, a2) is Some ==>
                #[trigger] final(self).pos(e2, a2) == old(self).pos(e2, a2) && final(self).read_spec(e2, a2) == old(self).read_spec(e2, a2),
            final(self).allocator_spec() == old(self).allocator_spec(),
            final(self).names() == old(self).names(),
            final(self).rels() == old(self).rels(),
            final(self).registered() == old(self).registered(),
            final(self).archs().len() >= old(self).archs().len(),
            final(self).layout_version_spec() == old(self).layout_version_spec() + 1,
            World::resolves(old(self).prefabs_spec(), *final(self)),
            old(self).prefabs_fit() ==> final(self).prefabs_fit(),
            final(self).cached_spec() == Self::entities_spec(final(self).archs()),
            exists|sv: Seq<Seq<InternedStr>>| #[trigger] World::resonators_after_build(*old(self), *final(self), sv),
            forall|a: int| old(self).archs().len() <= a < final(self).archs().len() ==>
                #[trigger] World::signature_queued(old(self).pending(), final(self).sigs()[a]),
    {
        let mut pending: Vec<PendingEntity> = Vec::new();
        std::mem::swap(&mut pending, &mut self.pending_entities);
        let ghost ps = pending@;
        let ghost w0 = *old(self);
        proof {
            assert(ps == old(self).pending());
            assert(self.pending() =~= Seq::<PendingEntity>::empty());
            World::lemma_wf_empty_queue(*old(self), *self);
            assert forall|j: int| 0 <= j < ps.len() implies #[trigger] ps[j].wf() by {
                assert(old(self).pending()[j].wf());
            }
        }
        let n = pending.len();
        let sigs = Self::queue_signatures(&pending);
        let ghost sv = sigs@.map_values(|v: Vec<InternedStr>| v@);
        let mut placed: Vec<bool> = Vec::new();
        let mut i: usize = 0;
        while i < n
            invariant
                i <= n,
                placed@.len() == i,
                forall|j: int| 0 <= j < i ==> !(#[trigger] placed@[j]),
            decreases n - i,
        {
            placed.push(false);
            i = i + 1;
        }
        proof {
            assert(placed@ =~= Seq::new(n as nat, |i: int| false));
            World::lemma_build_inv_start(*old(self), *self, ps, sv, placed@);
        }
        let ghost w1 = *self;
        proof {
            assert(w1.archs() == old(self).archs());
            assert(w1.registered() == old(self).registered());
        }
        self.place_groups(&pending, &sigs, &mut placed, Ghost(w0));
        let ghost w2 = *self;
        self.finish_build(Ghost(ps), Ghost(placed@));
        proof {
            assert(World::resonators_after_build(*old(self), *self, sv));
            assert forall|a: int| old(self).archs().len() <= a < self.archs().len() implies
                #[trigger] World::signature_queued(old(self).pending(), self.sigs()[a]) by {
                assert(w2.sigs()[a] == self.sigs()[a]);
                assert(seen_sig(sv, n as int, w2.sigs()[a]));
                let j = choose|j: int| 0 <= j < n && #[trigger] sv[j] == w2.sigs()[a];
                assert(World::is_signature_of(sv[j], ps[j].schema));
            }
        }
        proof {
            if old(self).prefabs_fit() {
                World::lemma_resolves_fit(*old(self), *self);
            }
        }
    }

    /// The end of a build: registrations get their archetypes, the layout
    /// version is bumped and the entity list refilled.
    fn finish_build(&mut self, Ghost(ps): Ghost<Seq<PendingEntity>>, Ghost(flags): Ghost<Seq<bool>>)
        requires
            old(self).wf(),
            old(self).layout_version_spec() < u64::MAX,
            forall|j: int| 0 <= j < ps.len() && flags[j] ==> old(self).placed_as(#[trigger] ps[j]),
        ensures
            final(self).wf(),
            forall|j: int| 0 <= j < ps.len() && flags[j] ==> final(self).placed_as(#[trigger] ps[j]),
            World::resolves(old(self).prefabs_spec(), *final(self)),
            final(self).layout_version_spec() == old(self).layout_version_spec() + 1,
            final(self).cached_spec() == Self::entities_spec(final(self).archs()),
            !final(self).entities_dirty_spec(),
            final(self).archs() == old(self).archs(),
            final(self).locs() == old(self).locs(),
            final(self).allocator_spec() == old(self).allocator_spec(),
            final(self).store() == old(self).store(),
            final(self).pending() == old(self).pending(),
            final(self).names() == old(self).names(),
            final(self).sigs() == old(self).sigs(),
            final(self).rels() == old(self).rels(),
            final(self).registered() == old(self).registered(),
            forall|e2: EntityHandle, a2: InternedStr| #[trigger] final(self).pos(e2, a2) == old(self).pos(e2, a2),
            forall|e2: EntityHandle, a2: InternedStr| #[trigger] final(self).read_spec(e2, a2) == old(self).read_spec(e2, a2),
    {
        self.resolve_prefab_archetypes();
        let ghost before = *self;
        self.built = true;
        self.layout_version = self.layout_version + 1;
        self.entities_dirty = true;
        proof {
            World::lemma_wf_flags(before, *self);
        }
        let ghost mid = *self;
        self.refresh_entity_cache();
        proof {
            World::lemma_model_frame(*old(self), before);
            World::lemma_model_frame(mid, *self);
            assert forall|j: int| 0 <= j < ps.len() && flags[j] implies self.placed_as(#[trigger] ps[j]) by {
                assert(old(self).placed_as(ps[j]));
                assert(before.placed_as(ps[j]));
                assert(mid.placed_as(ps[j]));
            }
            assert(self.prefabs_spec() == before.prefabs_spec());
        }
    }

    /// Worlds with the same archetypes, locations, ids and storage place and
    /// value every entity alike.
    proof fn lemma_model_frame(w1: World, w2: World)
        requires
            w2.archs() == w1.archs(),
            w2.locs() == w1.locs(),
            w2.allocator_spec() == w1.allocator_spec(),
            w2.store() == w1.store(),
            w2.sigs() == w1.sigs(),
        ensures
            forall|e2: EntityHandle, a2: InternedStr| #[trigger] w2.pos(e2, a2) == w1.pos(e2, a2),
            forall|e2: EntityHandle, a2: InternedStr| #[trigger] w2.read_spec(e2, a2) == w1.read_spec(e2, a2),
            forall|pe: PendingEntity| w1.placed_as(pe) ==> #[trigger] w2.placed_as(pe),
    {
        assert forall|e2: EntityHandle, a2: InternedStr| #[trigger] w2.pos(e2, a2) == w1.pos(e2, a2) by {
            assert(w2.loc_of(e2) == w1.loc_of(e2));
        }
        assert forall|e2: EntityHandle, a2: InternedStr| #[trigger] w2.read_spec(e2, a2) == w1.read_spec(e2, a2) by {
            assert(w2.pos(e2, a2) == w1.pos(e2, a2));
        }
        assert forall|pe: PendingEntity| w1.placed_as(pe) implies #[trigger] w2.placed_as(pe) by {
            let h = EntityHandle(pe.entity_id);
            assert(w2.loc_of(h) == w1.loc_of(h));
            let a = w1.loc_of(h).unwrap().archetype_idx as int;
            assert forall|f: int| 0 <= f < w2.width(a) implies
                #[trigger] w2.read_spec(h, w2.archs()[a].schema_spec().field_names@[f]) == Some(default_value(pe.defaults@, f)) by {
                assert(w1.read_spec(h, w1.archs()[a].schema_spec().field_names@[f]) == Some(default_value(pe.defaults@, f)));
            }
        }
    }

    /// Whether an archetype of `w` has the field set of `pe`.
    pub open spec fn has_archetype_for(w: World, pe: PendingEntity) -> bool {
        exists|a: int| 0 <= a < w.archs().len() && #[trigger] Self::is_signature_of(w.sigs()[a], pe.schema)
    }

    /// Places queued entities at run time: each goes to the archetype that
    /// has its field set, if there is one, in queue order and without
    /// attaching resonators; the others are built as by `build`, which then
    /// bumps the layout version.
    pub fn spawn_runtime(&mut self)
        requires
            old(self).wf(),
            old(self).store().front().len() + sum_unset(widths(old(self).pending()), Seq::new(old(self).pending().len(), |i: int| false), old(self).pending().len() as int) + 512 <= u32::MAX,
            old(self).archs().len() + old(self).pending().len() < u32::MAX,
            old(self).meta_spec().nodes().len() + old(self).pending().len() < u32::MAX,
            old(self).pending().len() < usize::MAX,
            forall|a: int| 0 <= a < old(self).archs().len() ==>
                (#[trigger] old(self).archs()[a]).slot_count_spec() + old(self).pending().len() < usize::MAX,
            old(self).layout_version_spec() < u64::MAX,
        ensures
            final(self).wf(),
            final(self).pending() == Seq::<PendingEntity>::empty(),
            forall|p: int| 0 <= p < old(self).pending().len() ==> final(self).placed_as(#[trigger] old(self).pending()[p]),
            forall|e2: EntityHandle, a2: InternedStr| old(self).pos(e2, a2) is Some ==>
                #[trigger] final(self).pos(e2, a2) == old(self).pos(e2, a2) && final(self).read_spec(e2, a2) == old(self).read_spec(e2, a2),
            final(self).allocator_spec() == old(self).allocator_spec(),
            final(self).names() == old(self).names(),
            final(self).rels() == old(self).rels(),
            final(self).registered() == old(self).registered(),
            final(self).archs().len() >= old(self).archs().len(),
            (forall|p: int| 0 <= p < old(self).pending().len() ==> Self::has_archetype_for(*old(self), #[trigger] old(self).pending()[p]))
                ==> final(self).layout_version_spec() == old(self).layout_version_spec()
                    && final(self).archs().len() == old(self).archs().len(),
            !(forall|p: int| 0 <= p < old(self).pending().len() ==> Self::has_archetype_for(*old(self), #[trigger] old(self).pending()[p]))
                ==> final(self).layout_version_spec() == old(self).layout_version_spec() + 1,
            old(self).prefabs_fit() ==> final(self).prefabs_fit(),
    {
        let mut pending: Vec<PendingEntity> = Vec::new();
        std::mem::swap(&mut pending, &mut self.pending_entities);
        let ghost ps = pending@;
        let ghost w0 = *old(self);
        proof {
            assert(ps == old(self).pending());
            assert(self.pending() =~= Seq::<PendingEntity>::empty());
            World::lemma_wf_empty_queue(*old(self), *self);
            assert forall|j: int| 0 <= j < ps.len() implies #[trigger] ps[j].wf() by {
                assert(old(self).pending()[j].wf());
            }
        }
        let n = pending.len();
        if n == 0 {
            return;
        }
        let sigs = Self::queue_signatures(&pending);
        let ghost sv = sigs@.map_values(|v: Vec<InternedStr>| v@);
        let mut placed: Vec<bool> = Vec::new();
        let mut i: usize = 0;
        while i < n
            invariant
                i <= n,
                placed@.len() == i,
                forall|j: int| 0 <= j < i ==> !(#[trigger] placed@[j]),
            decreases n - i,
        {
            placed.push(false);
            i = i + 1;
        }
        proof {
            assert(placed@ =~= Seq::new(n as nat, |i: int| false));
            World::lemma_build_inv_start(*old(self), *self, ps, sv, placed@);
        }
        let mut unmatched = false;
        let mut p: usize = 0;
        while p < n
            invariant
                n == pending@.len(),
                pending@ == ps,
                sigs@.len() == n,
                sv == sigs@.map_values(|v: Vec<InternedStr>| v@),
                p <= n,
                self.build_inv(w0, ps, sv, placed@, 0),
                self.archs().len() == w0.archs().len(),
                self.sigs() == w0.sigs(),
                self.layout_version_spec() == w0.layout_version_spec(),
                forall|j: int| p <= j < n ==> !(#[trigger] placed@[j]),
                forall|j: int| 0 <= j < p ==> (#[trigger] placed@[j] <==> Self::has_archetype_for(w0, ps[j])),
                unmatched <==> exists|j: int| 0 <= j < p && !(#[trigger] placed@[j]),
            decreases n - p,
        {
            match self.find_archetype(&sigs[p]) {
                Some(a) => {
                    proof {
                        assert(sv[p as int] == sigs@[p as int]@);
                        assert(Self::is_signature_of(sv[p as int], ps[p as int].schema));
                        assert(Self::is_signature_of(w0.sigs()[a as int], ps[p as int].schema));
                    }
                    let ghost f0 = placed@;
                    self.place_one(&pending, &mut placed, p, a, false, false, Ghost(w0), Ghost(sv), Ghost(0int));
                    proof {
                        assert forall|j: int| 0 <= j < p + 1 implies (#[trigger] placed@[j] <==> Self::has_archetype_for(w0, ps[j])) by {
                            if j < p {
                                assert(placed@[j] == f0[j]);
                            }
                        }
                        if unmatched {
                            let j = choose|j: int| 0 <= j < p && !(#[trigger] f0[j]);
                            assert(!placed@[j]);
                        }
                        if exists|j: int| 0 <= j < p + 1 && !(#[trigger] placed@[j]) {
                            let j = choose|j: int| 0 <= j < p + 1 && !(#[trigger] placed@[j]);
                            assert(j != p);
                            assert(!f0[j]);
                        }
                    }
                },
                None => {
                    proof {
                        assert(sv[p as int] == sigs@[p as int]@);
                        assert(Self::is_signature_of(sv[p as int], ps[p as int].schema));
                        assert(!Self::has_archetype_for(w0, ps[p as int])) by {
                            if Self::has_archetype_for(w0, ps[p as int]) {
                                let a = choose|a: int| 0 <= a < w0.archs().len() && #[trigger] Self::is_signature_of(w0.sigs()[a], ps[p as int].schema);
                                lemma_signature_unique(w0.sigs()[a], sv[p as int], ps[p as int].schema);
                            }
                        }
                        assert(!placed@[p as int]);
                    }
                    unmatched = true;
                },
            }
            p = p + 1;
        }
        if unmatched {
            let ghost f1 = placed@;
            self.place_groups(&pending, &sigs, &mut placed, Ghost(w0));
            self.finish_build(Ghost(ps), Ghost(placed@));
            proof {
                if old(self).prefabs_fit() {
                    World::lemma_resolves_fit(*old(self), *self);
                }
                assert forall|q: int| 0 <= q < old(self).pending().len() implies self.placed_as(#[trigger] old(self).pending()[q]) by {
                    assert(placed@[q]);
                }
                let j = choose|j: int| 0 <= j < n && !(#[trigger] f1[j]);
                assert(!(forall|q: int| 0 <= q < old(self).pending().len() ==> Self::has_archetype_for(*old(self), #[trigger] old(self).pending()[q]))) by {
                    assert(!Self::has_archetype_for(w0, ps[j]));
                }
            }
        } else {
            let ghost before = *self;
            self.entities_dirty = true;
            proof {
                World::lemma_wf_flags(before, *self);
                assert forall|q: int| 0 <= q < old(self).pending().len() implies self.placed_as(#[trigger] old(self).pending()[q]) by {
                    assert(placed@[q]);
                    assert(before.placed_as(ps[q]));
                }
                assert forall|q: int| 0 <= q < old(self).pending().len() implies Self::has_archetype_for(*old(self), #[trigger] old(self).pending()[q]) by {
                    assert(placed@[q]);
                }
            }
        }
    }

    /// Phase names with their order numbers, in the order added.
    pub closed spec fn phases_spec(&self) -> Seq<(Seq<char>, u32)> {
        self.phases@.map_values(|ph: Phase| (ph.name@, ph.order))
    }

    /// Phase archetype `a` is assigned to, if any.
    pub closed spec fn phase_of(&self, a: int) -> Option<Seq<char>> {
        if 0 <= a < self.archetype_phases@.len() {
            match self.archetype_phases@[a] {
                Some(name) => Some(name@),
                None => None,
            }
        } else {
            None
        }
    }

    /// Whether phases were added; then ticks run archetypes phase by phase.
    pub fn has_phases(&self) -> (b: bool)
        ensures
            b == (self.phases_spec().len() > 0),
    {
        self.phases.len() > 0
    }

    /// Appends phase `name`, numbered by its position.
    pub fn add_phase(&mut self, name: &str)
        requires
            old(self).wf(),
        ensures
            final(self).wf(),
            final(self).phases_spec() == old(self).phases_spec().push((name@, (old(self).phases_spec().len() % 0x1_0000_0000) as u32)),
            forall|a: int| #[trigger] final(self).phase_of(a) == old(self).phase_of(a),
            World::only_cache_changed(*old(self), *final(self)),
    {
        let order = (self.phases.len() as u64 % 0x1_0000_0000) as u32;
        self.phases.push(Phase { name: name.to_owned(), order });
        proof {
            assert(self.phases_spec() =~= old(self).phases_spec().push((name@, order)));
            World::lemma_pending_frame(*old(self), *self);
            assert(self.archs() == old(self).archs());
            assert(self.locs() == old(self).locs());
            assert(self.sigs() == old(self).sigs());
            assert(self.blocks_wf());
            assert(self.locations_wf());
        }
    }

    /// Assigns every archetype named `archetype_name` to phase `phase_name`.
    pub fn assign_phase(&mut self, archetype_name: &str, phase_name: &str)
        requires
            old(self).wf(),
        ensures
            final(self).wf(),
            final(self).phases_spec() == old(self).phases_spec(),
            forall|a: int| #[trigger] final(self).phase_of(a) == if 0 <= a < old(self).archs().len()
                && old(self).archs()[a].name_spec() == archetype_name@ {
                Some(phase_name@)
            } else {
                old(self).phase_of(a)
            },
            World::only_cache_changed(*old(self), *final(self)),
    {
        let n = self.archetypes.len();
        let mut idx: usize = 0;
        while idx < n
            invariant
                n == self.archs().len(),
                idx <= n,
                self.wf(),
                World::only_cache_changed(*old(self), *self),
                self.phases_spec() == old(self).phases_spec(),
                forall|a: int| #[trigger] self.phase_of(a) == if 0 <= a < idx
                    && old(self).archs()[a].name_spec() == archetype_name@ {
                    Some(phase_name@)
                } else {
                    old(self).phase_of(a)
                },
            decreases n - idx,
        {
            if crate::interning::str_eq(self.archetypes[idx].name(), archetype_name) {
                let ghost before = *self;
                while self.archetype_phases.len() <= idx
                    invariant
                        *self == (World { archetype_phases: self.archetype_phases, ..before }),
                        forall|a: int| #[trigger] self.phase_of(a) == before.phase_of(a),
                    decreases idx + 1 - self.archetype_phases@.len(),
                {
                    let ghost b2 = *self;
                    self.archetype_phases.push(None);
                    proof {
                        assert forall|a: int| #[trigger] self.phase_of(a) == b2.phase_of(a) by {
                            if 0 <= a < b2.archetype_phases@.len() {
                                assert(self.archetype_phases@[a] == b2.archetype_phases@[a]);
                            }
                        }
                    }
                }
                let ghost b3 = *self;
                self.archetype_phases.set(idx, Some(phase_name.to_owned()));
                proof {
                    assert forall|a: int| #[trigger] self.phase_of(a) == if a == idx { Some(phase_name@) } else { b3.phase_of(a) } by {
                        if 0 <= a < b3.archetype_phases@.len() && a != idx {
                            assert(self.archetype_phases@[a] == b3.archetype_phases@[a]);
                        }
                    }
                    World::lemma_pending_frame(before, *self);
                    assert(self.archs() == before.archs());
                    assert(self.locs() == before.locs());
                    assert(self.sigs() == before.sigs());
                    assert(self.blocks_wf());
                    assert(self.locations_wf());
                }
            }
            idx = idx + 1;
        }
    }

    /// Archetype indices `a < n` whose phase is `phase`, ascending.
    pub open spec fn in_phase(&self, n: nat, phase: Option<Seq<char>>) -> Seq<usize> {
        index_range(n).filter(|a: usize| self.phase_of(a as int) == phase)
    }

    fn archetypes_in_phase(&self, phase: Option<&str>) -> (r: Vec<usize>)
        ensures
            r@ == self.in_phase(self.archs().len(), match phase { Some(p) => Some(p@), None => None }),
    {
        let ghost ph = match phase { Some(p) => Some(p@), None => None::<Seq<char>> };
        let ghost pred = |a: usize| self.phase_of(a as int) == ph;
        let n = self.archetypes.len();
        let mut out: Vec<usize> = Vec::new();
        let mut a: usize = 0;
        while a < n
            invariant
                n == self.archs().len(),
                a <= n,
                pred == (|a: usize| self.phase_of(a as int) == ph),
                ph == match phase { Some(p) => Some(p@), None => None::<Seq<char>> },
                out@ == index_range(a as nat).filter(pred),
            decreases n - a,
        {
            let matches = if a < self.archetype_phases.len() {
                match (&self.archetype_phases[a], phase) {
                    (Some(name), Some(p)) => crate::interning::str_eq(name.as_str(), p),
                    (None, None) => true,
                    _ => false,
                }
            } else {
                phase.is_none()
            };
            proof {
                assert(index_range((a + 1) as nat) =~= index_range(a as nat).push(a));
                index_range(a as nat).lemma_filter_push(a, pred);
                assert(matches == pred(a));
            }
            if matches {
                out.push(a);
            }
            a = a + 1;
        }
        out
    }

    /// Whether some phase is named `name`.
    pub open spec fn phase_known(&self, name: Seq<char>) -> bool {
        exists|q: int| 0 <= q < self.phases_spec().len() && #[trigger] self.phases_spec()[q].0 == name
    }

    /// Whether phase `p` is the first one with its name.
    pub open spec fn first_phase_named(&self, p: int) -> bool {
        forall|q: int| 0 <= q < p ==> #[trigger] self.phases_spec()[q].0 != self.phases_spec()[p].0
    }

    /// Whether archetype `a` runs with the archetypes of no phase: it is
    /// assigned to none, or to a name no phase has.
    pub open spec fn runs_unphased(&self, a: int) -> bool {
        match self.phase_of(a) {
            Some(name) => !self.phase_known(name),
            None => true,
        }
    }

    /// Archetype indices `a < n` that run with no phase, ascending.
    pub open spec fn unphased(&self, n: nat) -> Seq<usize> {
        index_range(n).filter(|a: usize| self.runs_unphased(a as int))
    }

    /// Archetypes of group `p` of a phased tick: those of phase `p` when it
    /// is the first phase of its name, none otherwise.
    pub open spec fn phase_group(&self, p: int) -> Seq<usize> {
        if self.first_phase_named(p) {
            self.in_phase(self.archs().len(), Some(self.phases_spec()[p].0))
        } else {
            Seq::empty()
        }
    }

    /// Whether `name` names phase `q < p`.
    fn phase_named_before(&self, name: &str, p: usize) -> (b: bool)
        requires
            p <= self.phases_spec().len(),
        ensures
            b == exists|q: int| 0 <= q < p && #[trigger] self.phases_spec()[q].0 == name@,
    {
        let mut q: usize = 0;
        while q < p
            invariant
                p <= self.phases_spec().len(),
                q <= p,
                forall|r: int| 0 <= r < q ==> #[trigger] self.phases_spec()[r].0 != name@,
            decreases p - q,
        {
            proof {
                assert(self.phases_spec()[q as int].0 == self.phases@[q as int].name@);
            }
            if crate::interning::str_eq(self.phases[q].name.as_str(), name) {
                return true;
            }
            q = q + 1;
        }
        false
    }

    fn archetypes_unphased(&self) -> (r: Vec<usize>)
        ensures
            r@ == self.unphased(self.archs().len()),
    {
        let ghost pred = |a: usize| self.runs_unphased(a as int);
        let n = self.archetypes.len();
        let m = self.phases.len();
        let mut out: Vec<usize> = Vec::new();
        let mut a: usize = 0;
        while a < n
            invariant
                n == self.archs().len(),
                m == self.phases_spec().len(),
                a <= n,
                pred == (|a: usize| self.runs_unphased(a as int)),
                out@ == index_range(a as nat).filter(pred),
            decreases n - a,
        {
            let unphased = if a < self.archetype_phases.len() {
                match &self.archetype_phases[a] {
                    Some(name) => !self.phase_named_before(name.as_str(), m),
                    None => true,
                }
            } else {
                true
            };
            proof {
                assert(index_range((a + 1) as nat) =~= index_range(a as nat).push(a));
                index_range(a as nat).lemma_filter_push(a, pred);
                assert(unphased == pred(a));
            }
            if unphased {
                out.push(a);
            }
            a = a + 1;
        }
        out
    }

    /// The archetypes each tick runs, group by group: without phases one
    /// group of all archetypes; with phases one group per phase, in phase
    /// order, holding the archetypes assigned to it (none for a phase whose
    /// name an earlier phase has), then the archetypes assigned to no phase
    /// or to a name no phase has. So each archetype runs exactly once.
    pub fn tick_schedule(&self) -> (groups: Vec<Vec<usize>>)
        ensures
            self.phases_spec().len() == 0 ==> groups@.len() == 1 && groups@[0]@ == index_range(self.archs().len()),
            self.phases_spec().len() > 0 ==> {
                &&& groups@.len() == self.phases_spec().len() + 1
                &&& forall|p: int| 0 <= p < self.phases_spec().len() ==> (#[trigger] groups@[p])@ == self.phase_group(p)
                &&& groups@[self.phases_spec().len() as int]@ == self.unphased(self.archs().len())
            },
            forall|a: usize| (a as int) < self.archs().len() ==> #[trigger] in_some_group(groups@, a),
            forall|a: usize, g1: int, g2: int| 0 <= g1 < groups@.len() && 0 <= g2 < groups@.len()
                && #[trigger] groups@[g1]@.contains(a) && #[trigger] groups@[g2]@.contains(a) ==> g1 == g2,
    {
        let n = self.archetypes.len();
        let mut groups: Vec<Vec<usize>> = Vec::new();
        if self.phases.len() == 0 {
            let mut all: Vec<usize> = Vec::new();
            let mut a: usize = 0;
            while a < n
                invariant
                    n == self.archs().len(),
                    a <= n,
                    all@ == index_range(a as nat),
                decreases n - a,
            {
                all.push(a);
                a = a + 1;
                proof {
                    assert(all@ =~= index_range(a as nat));
                }
            }
            groups.push(all);
            proof {
                assert forall|a: usize| (a as int) < self.archs().len() implies #[trigger] in_some_group(groups@, a) by {
                    assert(groups@[0]@[a as int] == a);
                    assert(groups@[0]@.contains(a));
                }
            }
            return groups;
        }
        let m = self.phases.len();
        let mut p: usize = 0;
        while p < m
            invariant
                m == self.phases_spec().len(),
                p <= m,
                groups@.len() == p,
                forall|q: int| 0 <= q < p ==> (#[trigger] groups@[q])@ == self.phase_group(q),
            decreases m - p,
        {
            proof {
                assert(self.phases_spec()[p as int].0 == self.phases@[p as int].name@);
            }
            let name = self.phases[p].name.as_str();
            let g = if self.phase_named_before(name, p) {
                Vec::new()
            } else {
                self.archetypes_in_phase(Some(name))
            };
            proof {
                assert(g@ == self.phase_group(p as int)) by {
                    if !self.first_phase_named(p as int) {
                        let q = choose|q: int| 0 <= q < p && !(#[trigger] self.phases_spec()[q].0 != self.phases_spec()[p as int].0);
                        assert(self.phases_spec()[q].0 == name@);
                    }
                }
            }
            groups.push(g);
            p = p + 1;
        }
        let rest = self.archetypes_unphased();
        groups.push(rest);
        proof {
            let nn = self.archs().len();
            assert forall|a: usize, g: int| 0 <= g < groups@.len() && #[trigger] groups@[g]@.contains(a) implies
                (a as int) < nn && (if g < m {
                    self.first_phase_named(g) && self.phase_of(a as int) == Some(self.phases_spec()[g].0)
                } else {
                    self.runs_unphased(a as int)
                }) by {
                if g < m {
                    if self.first_phase_named(g) {
                        let ph = Some(self.phases_spec()[g].0);
                        index_range(nn).lemma_filter_contains_rev(|x: usize| self.phase_of(x as int) == ph, a);
                    } else {
                        assert(groups@[g]@ == Seq::<usize>::empty());
                    }
                } else {
                    index_range(nn).lemma_filter_contains_rev(|x: usize| self.runs_unphased(x as int), a);
                }
            }
            assert forall|a: usize| (a as int) < nn implies #[trigger] in_some_group(groups@, a) by {
                let ir = index_range(nn);
                assert(ir[a as int] == a);
                if self.runs_unphased(a as int) {
                    ir.lemma_filter_contains(|x: usize| self.runs_unphased(x as int), a as int);
                    assert(groups@[m as int]@.contains(a));
                } else {
                    let name = self.phase_of(a as int).unwrap();
                    let q0 = choose|q: int| 0 <= q < self.phases_spec().len() && #[trigger] self.phases_spec()[q].0 == name;
                    let q = first_index_named(self.phases_spec(), name, q0);
                    ir.lemma_filter_contains(|x: usize| self.phase_of(x as int) == Some(self.phases_spec()[q].0), a as int);
                    assert(groups@[q]@.contains(a));
                }
            }
            assert forall|a: usize, g1: int, g2: int| 0 <= g1 < groups@.len() && 0 <= g2 < groups@.len()
                && #[trigger] groups@[g1]@.contains(a) && #[trigger] groups@[g2]@.contains(a) implies g1 == g2 by {
                if g1 < m && g2 < m && g1 != g2 {
                    if g1 < g2 {
                        assert(self.phases_spec()[g1].0 != self.phases_spec()[g2].0);
                    } else {
                        assert(self.phases_spec()[g2].0 != self.phases_spec()[g1].0);
                    }
                } else if g1 < m && g2 == m {
                    assert(self.phases_spec()[g1].0 == self.phase_of(a as int).unwrap());
                } else if g2 < m && g1 == m {
                    assert(self.phases_spec()[g2].0 == self.phase_of(a as int).unwrap());
                }
            }
        }
        groups
    }

    /// Registrations by archetype name, oldest first.
    pub closed spec fn prefabs_spec(&self) -> Seq<(Seq<char>, PrefabView)> {
        self.prefab_registry@.map_values(|r: PrefabRegistration|
            (r.archetype_name@, (strings_view(r.attr_names@), r.attr_defaults@, r.archetype_idx)))
    }

    /// Registration of spawnable archetype `name`.
    pub open spec fn prefab_of(&self, name: Seq<char>) -> Option<PrefabView> {
        lookup_named(self.prefabs_spec(), name)
    }

    /// Whether every registration's archetype exists and has as many
    /// defaults as attribute names.
    pub open spec fn prefabs_fit(&self) -> bool {
        forall|i: int| 0 <= i < self.prefabs_spec().len() ==> {
            let v = (#[trigger] self.prefabs_spec()[i]).1;
            &&& v.0.len() == v.1.len()
            &&& v.2 matches Some(a) ==> (a as int) < self.archs().len()
        }
    }

    /// Checks `prefabs_fit`.
    pub fn prefabs_fit_check(&self) -> (b: bool)
        ensures
            b == self.prefabs_fit(),
    {
        let n = self.prefab_registry.len();
        let mut i: usize = 0;
        while i < n
            invariant
                n == self.prefabs_spec().len(),
                i <= n,
                forall|j: int| 0 <= j < i ==> {
                    let v = (#[trigger] self.prefabs_spec()[j]).1;
                    &&& v.0.len() == v.1.len()
                    &&& v.2 matches Some(a) ==> (a as int) < self.archs().len()
                },
            decreases n - i,
        {
            let r = &self.prefab_registry[i];
            proof {
                assert(self.prefabs_spec()[i as int].1 == (r.attr_names@.map_values(|n: String| n@), r.attr_defaults@, r.archetype_idx));
            }
            if r.attr_names.len() != r.attr_defaults.len() {
                return false;
            }
            match r.archetype_idx {
                Some(a) => {
                    if a >= self.archetypes.len() {
                        return false;
                    }
                },
                None => {},
            }
            i = i + 1;
        }
        true
    }

    /// Index of the archetype whose signature has exactly the elements of
    /// `ids`, each once.
    fn find_archetype_for_ids(&self, ids: &Vec<InternedStr>) -> (r: Option<usize>)
        requires
            self.wf(),
        ensures
            r matches Some(a) ==> (a as int) < self.archs().len() && matches_sig(ids@, self.sigs()[a as int]),
            r is None ==> forall|a: int| 0 <= a < self.archs().len() ==> !matches_sig(ids@, #[trigger] self.sigs()[a]),
    {
        let n = ids.len();
        let mut i: usize = 0;
        while i < n
            invariant
                n == ids@.len(),
                i <= n,
                forall|p: int, q: int| 0 <= p < i && 0 <= q < n && p != q ==> ids@[p] != ids@[q],
            decreases n - i,
        {
            let mut j: usize = 0;
            while j < n
                invariant
                    n == ids@.len(),
                    i < n,
                    j <= n,
                    forall|q: int| 0 <= q < j && q != i ==> ids@[i as int] != ids@[q],
                decreases n - j,
            {
                if j != i && ids[i].0 == ids[j].0 {
                    proof {
                        assert(ids@[i as int] == ids@[j as int]);
                        assert(!distinct_names(ids@));
                    }
                    return None;
                }
                j = j + 1;
            }
            i = i + 1;
        }
        let count = self.archetype_signatures.len();
        let mut a: usize = 0;
        while a < count
            invariant
                count == self.sigs().len(),
                self.wf(),
                distinct_names(ids@),
                a <= count,
                forall|b: int| 0 <= b < a ==> !matches_sig(ids@, #[trigger] self.sigs()[b]),
            decreases count - a,
        {
            let sig = &self.archetype_signatures[a];
            proof {
                assert(sig@ == self.sigs()[a as int]);
            }
            if Self::same_elements(ids, sig) {
                return Some(a);
            }
            a = a + 1;
        }
        None
    }

    /// Whether `x` and `y` have equal lengths and the same elements.
    fn same_elements(x: &Vec<InternedStr>, y: &Vec<InternedStr>) -> (b: bool)
        ensures
            b == (x@.len() == y@.len() && forall|e: InternedStr| x@.contains(e) <==> y@.contains(e)),
    {
        if x.len() != y.len() {
            return false;
        }
        let ok1 = Self::all_in(x, y);
        let ok2 = Self::all_in(y, x);
        proof {
            if ok1 && ok2 {
                assert forall|e: InternedStr| x@.contains(e) <==> y@.contains(e) by {
                    if x@.contains(e) {
                        let k = choose|k: int| 0 <= k < x@.len() && x@[k] == e;
                        assert(y@.contains(x@[k]));
                    }
                    if y@.contains(e) {
                        let k = choose|k: int| 0 <= k < y@.len() && y@[k] == e;
                        assert(x@.contains(y@[k]));
                    }
                }
            } else if !ok1 {
                let k = choose|k: int| 0 <= k < x@.len() && !y@.contains(#[trigger] x@[k]);
                assert(x@.contains(x@[k]));
            } else {
                let k = choose|k: int| 0 <= k < y@.len() && !x@.contains(#[trigger] y@[k]);
                assert(y@.contains(y@[k]));
            }
        }
        ok1 && ok2
    }

    /// Whether every element of `x` occurs in `y`.
    fn all_in(x: &Vec<InternedStr>, y: &Vec<InternedStr>) -> (b: bool)
        ensures
            b == forall|k: int| 0 <= k < x@.len() ==> y@.contains(#[trigger] x@[k]),
    {
        let n = x.len();
        let mut i: usize = 0;
        while i < n
            invariant
                n == x@.len(),
                i <= n,
                forall|k: int| 0 <= k < i ==> y@.contains(#[trigger] x@[k]),
            decreases n - i,
        {
            let m = y.len();
            let mut j: usize = 0;
            let mut found = false;
            while j < m
                invariant
                    m == y@.len(),
                    n == x@.len(),
                    i < n,
                    j <= m,
                    found ==> y@.contains(x@[i as int]),
                    !found ==> forall|q: int| 0 <= q < j ==> y@[q] != x@[i as int],
                decreases m - j,
            {
                if y[j].0 == x[i].0 {
                    proof {
                        assert(y@[j as int] == x@[i as int]);
                    }
                    found = true;
                }
                j = j + 1;
            }
            if !found {
                proof {
                    assert(!y@.contains(x@[i as int]));
                }
                return false;
            }
            i = i + 1;
        }
        true
    }

    /// Interns each of `names`, in order.
    fn intern_all(&mut self, names: &[&str]) -> (ids: Vec<InternedStr>)
        requires
            old(self).wf(),
            old(self).names().names().len() + names@.len() < u32::MAX,
        ensures
            final(self).wf(),
            ids@.len() == names@.len(),
            forall|i: int| 0 <= i < names@.len() ==> final(self).names().find_spec(names@[i]@) == Some(#[trigger] ids@[i]),
            old(self).names().names().len() <= final(self).names().names().len() <= old(self).names().names().len() + names@.len(),
            final(self).names().names().subrange(0, old(self).names().names().len() as int) == old(self).names().names(),
            World::only_names_changed(*old(self), *final(self)),
            *final(self) == (World { interner: final(self).interner, ..*old(self) }),
    {
        let n = names.len();
        let mut ids: Vec<InternedStr> = Vec::new();
        let mut i: usize = 0;
        while i < n
            invariant
                n == names@.len(),
                i <= n,
                self.wf(),
                old(self).names().names().len() + n < u32::MAX,
                ids@.len() == i,
                old(self).names().names().len() <= self.names().names().len() <= old(self).names().names().len() + i,
                self.names().names().subrange(0, old(self).names().names().len() as int) == old(self).names().names(),
                forall|j: int| 0 <= j < i ==> self.names().find_spec(names@[j]@) == Some(#[trigger] ids@[j]),
                World::only_names_changed(*old(self), *self),
                *self == (World { interner: self.interner, ..*old(self) }),
            decreases n - i,
        {
            let ghost before = *self;
            let name: &str = names[i];
            let id = self.interner.intern(name);
            proof {
                assert(before.wf());
                assert(self.names().wf());
                assert(*self == (World { interner: self.interner, ..before }));
                assert(self.names().names().subrange(0, before.names().names().len() as int) =~= before.names().names());
                assert(self.names().names().subrange(0, old(self).names().names().len() as int) =~= old(self).names().names()) by {
                    assert(self.names().names().subrange(0, old(self).names().names().len() as int)
                        =~= self.names().names().subrange(0, before.names().names().len() as int).subrange(0, old(self).names().names().len() as int));
                }
                World::lemma_wf_new_names(before, *self);
                assert forall|j: int| 0 <= j < i implies self.names().find_spec(names@[j]@) == Some(#[trigger] ids@[j]) by {
                    assert(before.names().find_spec(names@[j]@) == Some(ids@[j]));
                    before.names().lemma_find_prefix(&self.names(), names@[j]@);
                }
                assert(self.names().find_spec(name@) == Some(id)) by {
                    let k = choose|k: int| 0 <= k < self.names().names().len() && self.names().names()[k] == name@;
                    assert(self.names().names()[id.0 as int] == name@);
                    assert(k == id.0 as int);
                }
            }
            ids.push(id);
            i = i + 1;
        }
        ids
    }

    /// A world whose model equals that of a well-formed world is well
    /// formed.
    proof fn lemma_wf_same_model(w1: World, w2: World)
        requires
            w1.wf(),
            w2.archs() == w1.archs(),
            w2.locs() == w1.locs(),
            w2.allocator_spec() == w1.allocator_spec(),
            w2.store() == w1.store(),
            w2.pending() == w1.pending(),
            w2.names() == w1.names(),
            w2.sigs() == w1.sigs(),
            w2.rels() == w1.rels(),
            w2.next_archetype_id_spec() == w1.next_archetype_id_spec(),
            w2.meta_spec() == w1.meta_spec(),
        ensures
            w2.wf(),
    {
        assert(w2.blocks_wf());
        assert(w2.locations_wf());
        World::lemma_pending_frame(w1, w2);
    }

    /// A copy of registration `i` with archetype `idx`.
    fn prefab_with_index(&self, i: usize, idx: Option<usize>) -> (r: PrefabRegistration)
        requires
            (i as int) < self.prefab_registry@.len(),
        ensures
            r.archetype_name@ == self.prefab_registry@[i as int].archetype_name@,
            strings_view(r.attr_names@) == strings_view(self.prefab_registry@[i as int].attr_names@),
            r.attr_defaults@ == self.prefab_registry@[i as int].attr_defaults@,
            r.archetype_idx == idx,
    {
        let src = &self.prefab_registry[i];
        let names = copy_strings(&src.attr_names);
        let mut defaults: Vec<u64> = Vec::new();
        let m = src.attr_defaults.len();
        let mut k: usize = 0;
        while k < m
            invariant
                m == src.attr_defaults@.len(),
                k <= m,
                defaults@ == src.attr_defaults@.subrange(0, k as int),
            decreases m - k,
        {
            defaults.push(src.attr_defaults[k]);
            k = k + 1;
            proof {
                assert(defaults@ =~= src.attr_defaults@.subrange(0, k as int));
            }
        }
        proof {
            assert(src.attr_defaults@.subrange(0, m as int) =~= src.attr_defaults@);
        }
        PrefabRegistration {
            archetype_name: src.archetype_name.as_str().to_owned(),
            attr_names: names,
            attr_defaults: defaults,
            archetype_idx: idx,
        }
    }

    /// Stores `reg` as the registration of its archetype name, replacing an
    /// earlier one.
    fn upsert_prefab(&mut self, reg: PrefabRegistration)
        ensures
            forall|n: Seq<char>| #[trigger] final(self).prefab_of(n) == if n == reg.archetype_name@ {
                Some((strings_view(reg.attr_names@), reg.attr_defaults@, reg.archetype_idx))
            } else {
                old(self).prefab_of(n)
            },
            *final(self) == (World { prefab_registry: final(self).prefab_registry, ..*old(self) }),
    {
        let ghost s = self.prefabs_spec();
        let ghost v = (strings_view(reg.attr_names@), reg.attr_defaults@, reg.archetype_idx);
        let ghost rg = reg;
        let n = self.prefab_registry.len();
        let mut i: usize = 0;
        while i < n
            invariant
                n == self.prefab_registry@.len(),
                s == self.prefabs_spec(),
                *self == *old(self),
                rg == reg,
                v == (strings_view(rg.attr_names@), rg.attr_defaults@, rg.archetype_idx),
                i <= n,
                forall|j: int| 0 <= j < i ==> s[j].0 != reg.archetype_name@,
            decreases n - i,
        {
            proof {
                assert(s[i as int].0 == self.prefab_registry@[i as int].archetype_name@);
            }
            if crate::interning::str_eq(self.prefab_registry[i].archetype_name.as_str(), reg.archetype_name.as_str()) {
                let ghost key = s[i as int].0;
                proof {
                    assert(key == rg.archetype_name@);
                }
                self.prefab_registry.set(i, reg);
                proof {
                    assert(self.prefab_registry@[i as int] == rg);
                    assert forall|j: int| 0 <= j < n implies #[trigger] self.prefabs_spec()[j] == s.update(i as int, (key, v))[j] by {
                        if j != i {
                            assert(self.prefab_registry@[j] == old(self).prefab_registry@[j]);
                        }
                    }
                    assert(self.prefabs_spec() =~= s.update(i as int, (key, v)));
                    assert forall|m: Seq<char>| #[trigger] self.prefab_of(m) == if m == key { Some(v) } else { old(self).prefab_of(m) } by {
                        lemma_lookup_named_update(s, i as int, v, m);
                    }
                }
                return;
            }
            i = i + 1;
        }
        let ghost x = (reg.archetype_name@, v);
        self.prefab_registry.push(reg);
        proof {
            assert forall|j: int| 0 <= j < n + 1 implies #[trigger] self.prefabs_spec()[j] == s.push(x)[j] by {
                if j < n {
                    assert(self.prefab_registry@[j] == old(self).prefab_registry@[j]);
                }
            }
            assert(self.prefabs_spec() =~= s.push(x));
            lemma_lookup_named_none(s, x.0);
            assert forall|m: Seq<char>| #[trigger] self.prefab_of(m) == if m == x.0 { Some(v) } else { old(self).prefab_of(m) } by {
                lemma_lookup_named_push(s, x, m);
            }
        }
    }

    /// Registers spawnable archetype `name` with attributes `attr_names`
    /// and their defaults, for spawns requested during ticks; the names are
    /// interned, and the archetype with exactly these attributes is found
    /// now or at a later build.
    pub fn register_spawnable(&mut self, name: &str, attr_names: &[&str], defaults: &[u64])
        requires
            old(self).wf(),
            attr_names@.len() == defaults@.len(),
            old(self).names().names().len() + attr_names@.len() < u32::MAX,
        ensures
            final(self).wf(),
            forall|i: int| 0 <= i < attr_names@.len() ==> (#[trigger] final(self).names().find_spec(attr_names@[i]@)) is Some,
            ({
                let ids = Seq::new(attr_names@.len(), |i: int| final(self).names().find_spec(attr_names@[i]@).unwrap());
                &&& final(self).prefab_of(name@) matches Some(v)
                &&& v.0 == strs_view(attr_names@)
                &&& v.1 == defaults@
                &&& v.2 matches Some(a) ==> (a as int) < final(self).archs().len() && matches_sig(ids, final(self).sigs()[a as int])
                &&& v.2 is None ==> forall|a: int| 0 <= a < final(self).archs().len() ==> !matches_sig(ids, #[trigger] final(self).sigs()[a])
            }),
            forall|n: Seq<char>| n != name@ ==> #[trigger] final(self).prefab_of(n) == old(self).prefab_of(n),
            final(self).names().names().subrange(0, old(self).names().names().len() as int) == old(self).names().names(),
            World::only_names_changed(*old(self), *final(self)),
    {
        let ids = self.intern_all(attr_names);
        let idx = self.find_archetype_for_ids(&ids);
        let mut names: Vec<String> = Vec::new();
        let n = attr_names.len();
        let mut k: usize = 0;
        while k < n
            invariant
                n == attr_names@.len(),
                k <= n,
                names@.len() == k,
                forall|j: int| 0 <= j < k ==> (#[trigger] names@[j])@ == attr_names@[j]@,
            decreases n - k,
        {
            let a: &str = attr_names[k];
            names.push(a.to_owned());
            k = k + 1;
        }
        proof {
            assert(strings_view(names@) =~= strs_view(attr_names@));
        }
        let mut dvals: Vec<u64> = Vec::new();
        let mut k: usize = 0;
        while k < n
            invariant
                n == defaults@.len(),
                k <= n,
                dvals@ == defaults@.subrange(0, k as int),
            decreases n - k,
        {
            dvals.push(defaults[k]);
            k = k + 1;
            proof {
                assert(dvals@ =~= defaults@.subrange(0, k as int));
            }
        }
        proof {
            assert(defaults@.subrange(0, n as int) =~= defaults@);
            let ghost_ids = Seq::new(attr_names@.len(), |i: int| self.names().find_spec(attr_names@[i]@).unwrap());
            assert(ghost_ids =~= ids@);
        }
        let ghost mid = *self;
        self.upsert_prefab(PrefabRegistration {
            archetype_name: name.to_owned(),
            attr_names: names,
            attr_defaults: dvals,
            archetype_idx: idx,
        });
        proof {
            World::lemma_wf_same_model(mid, *self);
            assert forall|i: int| 0 <= i < attr_names@.len() implies (#[trigger] self.names().find_spec(attr_names@[i]@)) is Some by {
                assert(mid.names().find_spec(attr_names@[i]@) == Some(ids@[i]));
            }
        }
    }

    /// Ids of the interned names among `names`, in order.
    fn interned_ids_of(&self, names: &Vec<String>) -> (ids: Vec<InternedStr>)
        requires
            self.wf(),
        ensures
            ids@ == interned_ids(strings_view(names@), self.names()),
    {
        let n = names.len();
        let mut ids: Vec<InternedStr> = Vec::new();
        let mut k: usize = 0;
        while k < n
            invariant
                self.wf(),
                n == names@.len(),
                k <= n,
                ids@ == interned_ids(strings_view(names@).subrange(0, k as int), self.names()),
            decreases n - k,
        {
            proof {
                let pre = strings_view(names@).subrange(0, k + 1);
                assert(pre.drop_last() =~= strings_view(names@).subrange(0, k as int));
                assert(pre.last() == names@[k as int]@);
            }
            match self.interner.find(names[k].as_str()) {
                Some(id) => {
                    ids.push(id);
                },
                None => {},
            }
            k = k + 1;
        }
        proof {
            assert(strings_view(names@).subrange(0, n as int) =~= strings_view(names@));
        }
        ids
    }

    /// Whether the registrations of `w` are those of `before` with every
    /// missing archetype looked up in `w`: the one whose attributes are
    /// exactly the registered names that are interned.
    pub open spec fn resolves(before: Seq<(Seq<char>, PrefabView)>, w: World) -> bool {
        &&& w.prefabs_spec().len() == before.len()
        &&& forall|i: int| 0 <= i < before.len() ==> {
            let o = before[i];
            let f = #[trigger] w.prefabs_spec()[i];
            &&& f.0 == o.0
            &&& f.1.0 == o.1.0
            &&& f.1.1 == o.1.1
            &&& o.1.2 is Some ==> f.1.2 == o.1.2
            &&& o.1.2 is None ==> {
                let ids = interned_ids(o.1.0, w.names());
                &&& f.1.2 matches Some(a) ==> (a as int) < w.archs().len() && matches_sig(ids, w.sigs()[a as int])
                &&& f.1.2 is None ==> forall|a: int| #![trigger w.sigs()[a]] 0 <= a < w.archs().len() ==> !matches_sig(ids, w.sigs()[a])
            }
        }
    }

    /// Resolving keeps registrations fitting when archetypes only grow.
    proof fn lemma_resolves_fit(w1: World, w2: World)
        requires
            w1.prefabs_fit(),
            World::resolves(w1.prefabs_spec(), w2),
            w2.archs().len() >= w1.archs().len(),
        ensures
            w2.prefabs_fit(),
    {
        assert forall|i: int| 0 <= i < w2.prefabs_spec().len() implies {
            let v = (#[trigger] w2.prefabs_spec()[i]).1;
            &&& v.0.len() == v.1.len()
            &&& v.2 matches Some(a) ==> (a as int) < w2.archs().len()
        } by {
            assert(w1.prefabs_spec()[i].1.0.len() == w1.prefabs_spec()[i].1.1.len());
        }
    }

    /// Finds the archetype of each registration that has none yet: the one
    /// whose attributes are exactly the registered names that are interned.
    fn resolve_prefab_archetypes(&mut self)
        requires
            old(self).wf(),
        ensures
            final(self).wf(),
            World::resolves(old(self).prefabs_spec(), *final(self)),
            *final(self) == (World { prefab_registry: final(self).prefab_registry, ..*old(self) }),
    {
        let n = self.prefab_registry.len();
        let mut i: usize = 0;
        while i < n
            invariant
                n == self.prefab_registry@.len(),
                i <= n,
                *self == (World { prefab_registry: self.prefab_registry, ..*old(self) }),
                self.wf(),
                forall|j: int| i <= j < n ==> #[trigger] self.prefabs_spec()[j] == old(self).prefabs_spec()[j],
                forall|j: int| 0 <= j < i ==> {
                    let o = old(self).prefabs_spec()[j];
                    let f = #[trigger] self.prefabs_spec()[j];
                    &&& f.0 == o.0
                    &&& f.1.0 == o.1.0
                    &&& f.1.1 == o.1.1
                    &&& o.1.2 is Some ==> f.1.2 == o.1.2
                    &&& o.1.2 is None ==> {
                        let ids = interned_ids(o.1.0, old(self).names());
                        &&& f.1.2 matches Some(a) ==> (a as int) < old(self).archs().len() && matches_sig(ids, old(self).sigs()[a as int])
                        &&& f.1.2 is None ==> forall|a: int| #![trigger old(self).sigs()[a]] 0 <= a < old(self).archs().len() ==> !matches_sig(ids, old(self).sigs()[a])
                    }
                },
            decreases n - i,
        {
            proof {
                assert(self.prefabs_spec()[i as int] == old(self).prefabs_spec()[i as int]);
            }
            if self.prefab_registry[i].archetype_idx.is_none() {
                let ids = self.interned_ids_of(&self.prefab_registry[i].attr_names);
                let idx = self.find_archetype_for_ids(&ids);
                let reg = self.prefab_with_index(i, idx);
                let ghost before = *self;
                self.prefab_registry.set(i, reg);
                proof {
                    assert forall|j: int| 0 <= j < n && j != i implies #[trigger] self.prefabs_spec()[j] == before.prefabs_spec()[j] by {
                        assert(self.prefab_registry@[j] == before.prefab_registry@[j]);
                    }
                    assert(self.prefabs_spec()[i as int].1.0 == before.prefabs_spec()[i as int].1.0);
                    World::lemma_wf_same_model(before, *self);
                }
            }
            i = i + 1;
        }
        proof {
            assert(self.names() == old(self).names());
            assert(self.archs() == old(self).archs());
            assert(self.sigs() == old(self).sigs());
        }
    }

    /// Field values a spawn of registration `(attrs, defaults)` in
    /// archetype `a` writes: for each attribute name that is interned and a
    /// field of `a`, in order, its override or else its default.
    pub open spec fn prefab_defaults(&self, attrs: Seq<Seq<char>>, defaults: Seq<u64>, a: int, ov: Seq<(Seq<char>, u64)>) -> Seq<(FieldIndex, u64)>
        decreases attrs.len(),
    {
        if attrs.len() == 0 {
            Seq::empty()
        } else {
            let rest = self.prefab_defaults(attrs.drop_last(), defaults.drop_last(), a, ov);
            match self.names().find_spec(attrs.last()) {
                Some(id) => match self.archs()[a].schema_spec().find_spec(id) {
                    Some(f) => rest.push((f, override_value(ov, attrs.last(), defaults.last()))),
                    None => rest,
                },
                None => rest,
            }
        }
    }

    /// Whether `h` is placed in archetype `a` and its fields hold what
    /// `defaults` gives them.
    pub open spec fn placed_with(&self, h: EntityHandle, a: int, defaults: Seq<(FieldIndex, u64)>) -> bool {
        &&& self.loc_of(h) is Some
        &&& self.loc_of(h).unwrap().archetype_idx as int == a
        &&& 0 <= a < self.archs().len()
        &&& forall|f: int| 0 <= f < self.width(a) ==>
            #[trigger] self.read_spec(h, self.archs()[a].schema_spec().field_names@[f]) == Some(default_value(defaults, f))
    }

    /// Whether a spawn into archetype `a` fits: an id can be handed out and
    /// the storage and the archetype have room.
    pub open spec fn spawn_fits(&self, a: int) -> bool {
        &&& 0 <= a < self.archs().len()
        &&& self.allocator_spec().free().len() > 0 || self.allocator_spec().next() < u32::MAX
        &&& self.store().front().len() + self.width(a) + 512 <= u32::MAX
        &&& self.archs()[a].slot_count_spec() < usize::MAX
    }

    /// The entity just placed with `defaults` is placed with them.
    proof fn lemma_placed_with(w1: World, w2: World, a: int, id: EntityId, loc: EntityLoc, defaults: Seq<(FieldIndex, u64)>)
        requires
            w1.wf(),
            w2.wf(),
            0 <= a < w1.archs().len(),
            World::place_post(w1, w2, a, id, loc),
            w2.loc_of(EntityHandle(id)) == Some(loc),
            forall|f: int| 0 <= f < w1.width(a) ==>
                #[trigger] w2.store().front()[w1.store().front().len() + f] == default_value(defaults, f),
        ensures
            w2.placed_with(EntityHandle(id), a, defaults),
    {
        let h = EntityHandle(id);
        let sch = w2.archs()[a].schema_spec();
        assert(w2.archs()[a].wf());
        assert forall|f: int| 0 <= f < w2.width(a) implies
            #[trigger] w2.read_spec(h, sch.field_names@[f]) == Some(default_value(defaults, f)) by {
            sch.lemma_find_at(f);
            assert(w2.store().front()[w1.store().front().len() + f] == default_value(defaults, f));
        }
    }

    /// The override given for `name`, else `d`.
    fn find_override(overrides: &[(String, u64)], name: &str, d: u64) -> (v: u64)
        ensures
            v == override_value(overrides_view(overrides@), name@, d),
    {
        let ghost ov = overrides_view(overrides@);
        let n = overrides.len();
        let mut j: usize = 0;
        while j < n
            invariant
                n == overrides@.len(),
                ov == overrides_view(overrides@),
                j <= n,
                forall|q: int| 0 <= q < j ==> ov[q].0 != name@,
            decreases n - j,
        {
            proof {
                assert(ov[j as int] == (overrides@[j as int].0@, overrides@[j as int].1));
            }
            if crate::interning::str_eq(overrides[j].0.as_str(), name) {
                proof {
                    lemma_lookup_named_at(ov, j as int, name@);
                }
                return overrides[j].1;
            }
            j = j + 1;
        }
        proof {
            lemma_lookup_named_none(ov, name@);
        }
        d
    }

    /// Position of the registration of `name`, the first one.
    fn find_prefab(&self, name: &str) -> (r: Option<usize>)
        ensures
            r matches Some(i) ==> (i as int) < self.prefabs_spec().len() && self.prefabs_spec()[i as int].0 == name@
                && lookup_named(self.prefabs_spec(), name@) == Some(self.prefabs_spec()[i as int].1),
            r is None ==> lookup_named(self.prefabs_spec(), name@) is None,
    {
        let ghost s = self.prefabs_spec();
        let n = self.prefab_registry.len();
        let mut i: usize = 0;
        while i < n
            invariant
                n == self.prefab_registry@.len(),
                s == self.prefabs_spec(),
                i <= n,
                forall|j: int| 0 <= j < i ==> s[j].0 != name@,
            decreases n - i,
        {
            proof {
                assert(s[i as int].0 == self.prefab_registry@[i as int].archetype_name@);
            }
            if crate::interning::str_eq(self.prefab_registry[i].archetype_name.as_str(), name) {
                proof {
                    lemma_lookup_named_at(s, i as int, name@);
                }
                return Some(i);
            }
            i = i + 1;
        }
        proof {
            lemma_lookup_named_none(s, name@);
        }
        None
    }

    /// The field values a spawn of registration `i` in archetype `a` writes.
    fn compute_prefab_defaults(&self, i: usize, a: usize, overrides: &[(String, u64)]) -> (r: Vec<(FieldIndex, u64)>)
        requires
            self.wf(),
            (i as int) < self.prefab_registry@.len(),
            (a as int) < self.archs().len(),
            self.prefab_registry@[i as int].attr_names@.len() == self.prefab_registry@[i as int].attr_defaults@.len(),
        ensures
            r@ == self.prefab_defaults(strings_view(self.prefab_registry@[i as int].attr_names@),
                self.prefab_registry@[i as int].attr_defaults@, a as int, overrides_view(overrides@)),
            forall|k: int| 0 <= k < r@.len() ==> ((#[trigger] r@[k]).0.0 as int) < self.width(a as int),
    {
        let reg = &self.prefab_registry[i];
        let ghost attrs = strings_view(reg.attr_names@);
        let ghost dv = reg.attr_defaults@;
        let ghost ov = overrides_view(overrides@);
        let arch = &self.archetypes[a];
        proof {
            self.lemma_arch_width(a as int);
        }
        let n = reg.attr_names.len();
        let mut out: Vec<(FieldIndex, u64)> = Vec::new();
        let mut k: usize = 0;
        while k < n
            invariant
                self.wf(),
                (a as int) < self.archs().len(),
                *arch == self.archs()[a as int],
                arch.schema_spec().wf(),
                arch.schema_spec().field_names@.len() == self.width(a as int),
                n == reg.attr_names@.len(),
                n == reg.attr_defaults@.len(),
                attrs == strings_view(reg.attr_names@),
                dv == reg.attr_defaults@,
                ov == overrides_view(overrides@),
                k <= n,
                out@ == self.prefab_defaults(attrs.subrange(0, k as int), dv.subrange(0, k as int), a as int, ov),
                forall|q: int| 0 <= q < out@.len() ==> ((#[trigger] out@[q]).0.0 as int) < self.width(a as int),
            decreases n - k,
        {
            proof {
                let pa = attrs.subrange(0, k + 1);
                let pd = dv.subrange(0, k + 1);
                assert(pa.drop_last() =~= attrs.subrange(0, k as int));
                assert(pd.drop_last() =~= dv.subrange(0, k as int));
                assert(pa.last() == reg.attr_names@[k as int]@);
                assert(pd.last() == reg.attr_defaults@[k as int]);
            }
            let name = reg.attr_names[k].as_str();
            match self.interner.find(name) {
                Some(id) => {
                    match arch.schema().find_field(id) {
                        Some(f) => {
                            let v = Self::find_override(overrides, name, reg.attr_defaults[k]);
                            proof {
                                arch.schema_spec().lemma_find_spec(id);
                            }
                            out.push((f, v));
                        },
                        None => {},
                    }
                },
                None => {},
            }
            k = k + 1;
        }
        proof {
            assert(attrs.subrange(0, n as int) =~= attrs);
            assert(dv.subrange(0, n as int) =~= dv);
        }
        out
    }

    /// Spawns an entity of registered archetype `name` now: a new id is
    /// placed in the registration's archetype and its fields get the
    /// overrides or the registered defaults. Nothing happens for an
    /// unregistered name, a registration without archetype, or a spawn that
    /// does not fit (`spawn_fits`).
    pub fn spawn_deferred(&mut self, name: &str, overrides: &[(String, u64)]) -> (r: Option<EntityHandle>)
        requires
            old(self).wf(),
            old(self).prefabs_fit(),
        ensures
            final(self).wf(),
            final(self).prefabs_fit(),
            final(self).prefabs_spec() == old(self).prefabs_spec(),
            r is Some <==> (old(self).prefab_of(name@) matches Some(v) && v.2 matches Some(a) && old(self).spawn_fits(a as int)),
            r is None ==> *final(self) == *old(self),
            r matches Some(h) ==> {
                let v = old(self).prefab_of(name@).unwrap();
                let a = v.2.unwrap() as int;
                &&& EntityAllocator::allocate_post(old(self).allocator_spec(), final(self).allocator_spec(), h.0)
                &&& final(self).placed_with(h, a, old(self).prefab_defaults(v.0, v.1, a, overrides_view(overrides@)))
                &&& forall|e2: EntityHandle, a2: InternedStr| old(self).pos(e2, a2) is Some ==>
                    #[trigger] final(self).pos(e2, a2) == old(self).pos(e2, a2) && final(self).read_spec(e2, a2) == old(self).read_spec(e2, a2)
                &&& final(self).names() == old(self).names()
                &&& final(self).pending() == old(self).pending()
                &&& final(self).rels() == old(self).rels()
                &&& final(self).sigs() == old(self).sigs()
                &&& final(self).archs().len() == old(self).archs().len()
                &&& final(self).layout_version_spec() == old(self).layout_version_spec()
            },
    {
        let ghost s = self.prefabs_spec();
        let i = match self.find_prefab(name) {
            Some(i) => i,
            None => return None,
        };
        proof {
            assert(s[i as int].1 == (strings_view(self.prefab_registry@[i as int].attr_names@),
                self.prefab_registry@[i as int].attr_defaults@, self.prefab_registry@[i as int].archetype_idx));
            assert(self.prefabs_spec()[i as int] == s[i as int]);
        }
        let a = match self.prefab_registry[i].archetype_idx {
            Some(a) => a,
            None => return None,
        };
        if !(self.allocator.can_allocate()
            && (self.storage.float_count() as u64) + (self.archetypes[a].schema().floats_per_entity as u64) + 512 <= 0xFFFF_FFFF
            && self.archetypes[a].total_slots() < usize::MAX) {
            proof {
                assert(self.archs()[a as int].wf());
            }
            return None;
        }
        proof {
            assert(self.archs()[a as int].wf());
            assert(self.spawn_fits(a as int));
        }
        let defaults = self.compute_prefab_defaults(i, a, overrides);
        let entity_id = self.allocator.allocate();
        proof {
            World::lemma_allocate_keeps_wf(*old(self), *self, entity_id);
        }
        let ghost mid = *self;
        let loc = self.place(a, entity_id, &defaults);
        proof {
            World::lemma_placed_with(mid, *self, a as int, entity_id, loc, defaults@);
            assert(mid.prefab_defaults(s[i as int].1.0, s[i as int].1.1, a as int, overrides_view(overrides@))
                == old(self).prefab_defaults(s[i as int].1.0, s[i as int].1.1, a as int, overrides_view(overrides@))) by {
                World::lemma_prefab_defaults_frame(*old(self), mid, s[i as int].1.0, s[i as int].1.1, a as int, overrides_view(overrides@));
            }
            assert forall|e2: EntityHandle, a2: InternedStr| old(self).pos(e2, a2) is Some implies
                #[trigger] self.pos(e2, a2) == old(self).pos(e2, a2) && self.read_spec(e2, a2) == old(self).read_spec(e2, a2) by {
                assert(mid.pos(e2, a2) == old(self).pos(e2, a2)) by {
                    World::lemma_pos_alloc_frame(*old(self), mid, e2, a2);
                }
            }
        }
        let ghost before = *self;
        self.entities_dirty = true;
        proof {
            World::lemma_wf_flags(before, *self);
            assert(self.prefabs_spec() =~= old(self).prefabs_spec());
        }
        Some(EntityHandle(entity_id))
    }

    /// The field values of a spawn depend on names and archetypes only.
    proof fn lemma_prefab_defaults_frame(w1: World, w2: World, attrs: Seq<Seq<char>>, defaults: Seq<u64>, a: int, ov: Seq<(Seq<char>, u64)>)
        requires
            w2.names() == w1.names(),
            w2.archs() == w1.archs(),
        ensures
            w2.prefab_defaults(attrs, defaults, a, ov) == w1.prefab_defaults(attrs, defaults, a, ov),
        decreases attrs.len(),
    {
        if attrs.len() > 0 {
            World::lemma_prefab_defaults_frame(w1, w2, attrs.drop_last(), defaults.drop_last(), a, ov);
        }
    }

    /// Handing out an id does not move any attribute of a live entity.
    proof fn lemma_pos_alloc_frame(w1: World, w2: World, e: EntityHandle, attr: InternedStr)
        requires
            w1.wf(),
            w1.pos(e, attr) is Some,
            w2.archs() == w1.archs(),
            w2.locs() == w1.locs(),
            w2.store() == w1.store(),
            forall|x: EntityId| w1.allocator_spec().is_alive_spec(x) ==> #[trigger] w2.allocator_spec().is_alive_spec(x),
        ensures
            w2.pos(e, attr) == w1.pos(e, attr),
    {
        assert(w2.loc_of(e) == w1.loc_of(e));
    }

    /// Whether removing the entity placed under `id.index` leaves its slot a
    /// next generation.
    pub open spec fn despawn_fits(&self, id: EntityId) -> bool {
        self.unplaced(id.index as int) || self.allocator_spec().generation_spec(id.index) < u32::MAX
    }

    /// Checks `despawn_fits`.
    pub fn despawn_fits_check(&self, id: EntityId) -> (b: bool)
        requires
            self.wf(),
        ensures
            b == self.despawn_fits(id),
    {
        let idx = id.index as usize;
        if idx >= self.entity_locations.len() {
            return true;
        }
        match self.entity_locations[idx] {
            None => true,
            Some(_) => self.allocator.generation_of(id.index) < u32::MAX,
        }
    }

    /// Removes the entity placed under each id's index, in order.
    fn apply_despawns(&mut self, ids: &Vec<EntityId>)
        requires
            old(self).wf(),
            forall|k: int| 0 <= k < ids@.len() ==> old(self).despawn_fits(#[trigger] ids@[k]),
        ensures
            final(self).wf(),
            forall|k: int| 0 <= k < ids@.len() ==> final(self).unplaced((#[trigger] ids@[k]).index as int),
            forall|x: EntityId| old(self).despawn_fits(x) ==> #[trigger] final(self).despawn_fits(x),
            forall|e2: EntityHandle, a2: InternedStr|
                (forall|k: int| 0 <= k < ids@.len() ==> (#[trigger] ids@[k]).index != e2.0.index)
                ==> #[trigger] final(self).read_spec(e2, a2) == old(self).read_spec(e2, a2)
                    && final(self).pos(e2, a2) == old(self).pos(e2, a2),
            final(self).prefabs_spec() == old(self).prefabs_spec(),
            final(self).pending() == old(self).pending(),
            final(self).names() == old(self).names(),
            final(self).sigs() == old(self).sigs(),
            final(self).archs().len() == old(self).archs().len(),
            final(self).registered() == old(self).registered(),
            final(self).layout_version_spec() == old(self).layout_version_spec(),
    {
        let n = ids.len();
        let mut i: usize = 0;
        while i < n
            invariant
                n == ids@.len(),
                i <= n,
                self.wf(),
                forall|k: int| 0 <= k < n ==> self.despawn_fits(#[trigger] ids@[k]),
                forall|k: int| 0 <= k < i ==> self.unplaced((#[trigger] ids@[k]).index as int),
                forall|x: EntityId| old(self).despawn_fits(x) ==> #[trigger] self.despawn_fits(x),
                forall|e2: EntityHandle, a2: InternedStr|
                    (forall|k: int| 0 <= k < i ==> (#[trigger] ids@[k]).index != e2.0.index)
                    ==> #[trigger] self.read_spec(e2, a2) == old(self).read_spec(e2, a2)
                        && self.pos(e2, a2) == old(self).pos(e2, a2),
                self.prefabs_spec() == old(self).prefabs_spec(),
                self.pending() == old(self).pending(),
                self.names() == old(self).names(),
                self.sigs() == old(self).sigs(),
                self.archs().len() == old(self).archs().len(),
                self.registered() == old(self).registered(),
                self.layout_version_spec() == old(self).layout_version_spec(),
            decreases n - i,
        {
            let ghost before = *self;
            let id = ids[i];
            self.despawn_internal(id);
            proof {
                if !before.unplaced(id.index as int) {
                    let x = id.index as int;
                    assert forall|y: EntityId| before.despawn_fits(y) implies #[trigger] self.despawn_fits(y) by {
                        if y.index as int != x {
                            assert(self.allocator_spec().generation_spec(y.index) == before.allocator_spec().generation_spec(y.index));
                            if (y.index as int) < self.locs().len() {
                                assert(self.locs()[y.index as int] == before.locs()[y.index as int]);
                            }
                        }
                    }
                    assert forall|k: int| 0 <= k < i + 1 implies self.unplaced((#[trigger] ids@[k]).index as int) by {
                        let y = ids@[k].index as int;
                        if y != x {
                            assert(before.unplaced(y));
                            if y < self.locs().len() {
                                assert(self.locs()[y] == before.locs()[y]);
                            }
                        }
                    }
                    assert forall|e2: EntityHandle, a2: InternedStr|
                        (forall|k: int| 0 <= k < i + 1 ==> (#[trigger] ids@[k]).index != e2.0.index)
                        implies #[trigger] self.read_spec(e2, a2) == old(self).read_spec(e2, a2)
                            && self.pos(e2, a2) == old(self).pos(e2, a2) by {
                        assert(ids@[i as int].index != e2.0.index);
                        World::lemma_despawn_frame(before, *self, id, e2, a2);
                    }
                    assert(self.prefabs_spec() == before.prefabs_spec());
                }
            }
            i = i + 1;
        }
    }

    /// Removing the entity under one index leaves the values of every
    /// entity under another index.
    proof fn lemma_despawn_frame(w1: World, w2: World, id: EntityId, e: EntityHandle, attr: InternedStr)
        requires
            w1.wf(),
            !w1.unplaced(id.index as int),
            World::despawn_post(w1, w2, id),
            e.0.index != id.index,
        ensures
            w2.read_spec(e, attr) == w1.read_spec(e, attr),
            w2.pos(e, attr) == w1.pos(e, attr),
    {
        let k = id.index as int;
        if w1.loc_of(e) is Some {
            let l = w1.locs()[e.0.index as int].unwrap();
            assert(w1.is_slot(l.archetype_idx as int, l.inner_idx as int));
            assert(w2.loc_of(e) == w1.loc_of(e));
            let b = l.archetype_idx as int;
            if b == w1.locs()[k].unwrap().archetype_idx as int {
                assert(l.inner_idx != w1.locs()[k].unwrap().inner_idx) by {
                    assert(w1.archs()[b].entity_seq()[l.inner_idx as int].index == e.0.index);
                }
            }
        } else {
            if w2.loc_of(e) is Some {
                assert(e.0.index != id.index);
            }
        }
    }

    /// `front` after the writes of `writes` whose entity is alive.
    pub open spec fn writes_applied(&self, front: Seq<u64>, writes: Seq<WriteRequest>) -> Seq<u64>
        decreases writes.len(),
    {
        if writes.len() == 0 {
            front
        } else {
            let prev = self.writes_applied(front, writes.drop_last());
            let w = writes.last();
            if self.allocator_spec().is_alive_spec(w.target_offset.entity_spec()) {
                Storage::write_spec(prev, w.target_offset.offset as int, w.value)
            } else {
                prev
            }
        }
    }

    /// Whether write `w` targets position `p` for an entity alive in this world.
    pub open spec fn live_write_at(&self, w: WriteRequest, p: int) -> bool {
        &&& self.allocator_spec().is_alive_spec(w.target_offset.entity_spec())
        &&& w.target_offset.offset as int == p
    }

    /// Applying deferred writes: every position of `front` that some write
    /// for a live entity targets ends up holding the value of the last such
    /// write; every other position keeps its value, and the buffer keeps its
    /// length. Writes for dead entities have no effect.
    pub proof fn law_last_live_write_wins(&self, front: Seq<u64>, writes: Seq<WriteRequest>)
        ensures
            self.writes_applied(front, writes).len() == front.len(),
            forall|p: int, i: int| #![trigger self.writes_applied(front, writes)[p], writes[i]]
                0 <= p < front.len() && 0 <= i < writes.len() && self.live_write_at(writes[i], p)
                && (forall|j: int| i < j < writes.len() ==> !self.live_write_at(#[trigger] writes[j], p))
                ==> self.writes_applied(front, writes)[p] == writes[i].value,
            forall|p: int| 0 <= p < front.len()
                && (forall|j: int| 0 <= j < writes.len() ==> !self.live_write_at(#[trigger] writes[j], p))
                ==> #[trigger] self.writes_applied(front, writes)[p] == front[p],
        decreases writes.len(),
    {
        if writes.len() > 0 {
            let init = writes.drop_last();
            let n = writes.len() - 1;
            let w = writes[n];
            self.law_last_live_write_wins(front, init);
            let prev = self.writes_applied(front, init);
            let cur = self.writes_applied(front, writes);
            assert(w == writes.last());
            assert forall|p: int, i: int| #![trigger cur[p], writes[i]]
                0 <= p < front.len() && 0 <= i < writes.len() && self.live_write_at(writes[i], p)
                && (forall|j: int| i < j < writes.len() ==> !self.live_write_at(#[trigger] writes[j], p))
                implies cur[p] == writes[i].value by {
                if i == n {
                } else {
                    assert(!self.live_write_at(writes[n], p));
                    assert(init[i] == writes[i]);
                    assert forall|j: int| i < j < init.len() implies !self.live_write_at(#[trigger] init[j], p) by {
                        assert(init[j] == writes[j]);
                    }
                    assert(prev[p] == init[i].value);
                }
            }
            assert forall|p: int| 0 <= p < front.len()
                && (forall|j: int| 0 <= j < writes.len() ==> !self.live_write_at(#[trigger] writes[j], p))
                implies #[trigger] cur[p] == front[p] by {
                assert(!self.live_write_at(writes[n], p));
                assert forall|j: int| 0 <= j < init.len() implies !self.live_write_at(#[trigger] init[j], p) by {
                    assert(init[j] == writes[j]);
                }
                assert(prev[p] == front[p]);
            }
        }
    }

    /// Applies each write whose entity is still alive, in order.
    fn apply_writes(&mut self, writes: &Vec<WriteRequest>)
        requires
            old(self).wf(),
        ensures
            final(self).store().front() == old(self).writes_applied(old(self).store().front(), writes@),
            final(self).wf(),
            final(self).store().mode_spec() == old(self).store().mode_spec(),
            final(self).archs() == old(self).archs(),
            final(self).locs() == old(self).locs(),
            final(self).allocator_spec() == old(self).allocator_spec(),
            final(self).pending() == old(self).pending(),
            final(self).names() == old(self).names(),
            final(self).sigs() == old(self).sigs(),
            final(self).rels() == old(self).rels(),
            final(self).registered() == old(self).registered(),
            final(self).layout_version_spec() == old(self).layout_version_spec(),
            final(self).prefabs_spec() == old(self).prefabs_spec(),
    {
        let n = writes.len();
        let mut i: usize = 0;
        while i < n
            invariant
                n == writes@.len(),
                i <= n,
                self.wf(),
                self.store().front() == old(self).writes_applied(old(self).store().front(), writes@.subrange(0, i as int)),
                self.store().mode_spec() == old(self).store().mode_spec(),
                self.archs() == old(self).archs(),
                self.locs() == old(self).locs(),
                self.allocator_spec() == old(self).allocator_spec(),
                self.pending() == old(self).pending(),
                self.names() == old(self).names(),
                self.sigs() == old(self).sigs(),
                self.rels() == old(self).rels(),
                self.registered() == old(self).registered(),
                self.layout_version_spec() == old(self).layout_version_spec(),
                self.prefabs_spec() == old(self).prefabs_spec(),
            decreases n - i,
        {
            proof {
                let pre = writes@.subrange(0, i + 1);
                assert(pre.drop_last() =~= writes@.subrange(0, i as int));
            }
            let w = writes[i];
            if w.target_offset.validate(self) {
                self.write_offset(w.target_offset.offset, w.value);
            }
            i = i + 1;
        }
        proof {
            assert(writes@.subrange(0, n as int) =~= writes@);
        }
    }

    /// Whether `build` (or `spawn_runtime`) can take the current queue: the
    /// storage, archetype and slot counters have room for it.
    pub open spec fn queue_fits(&self) -> bool {
        &&& self.store().front().len() + sum_unset(widths(self.pending()), Seq::new(self.pending().len(), |i: int| false), self.pending().len() as int) + 512 <= u32::MAX
        &&& self.archs().len() + self.pending().len() < u32::MAX
        &&& self.meta_spec().nodes().len() + self.pending().len() < u32::MAX
        &&& self.pending().len() < usize::MAX
        &&& forall|a: int| 0 <= a < self.archs().len() ==>
            (#[trigger] self.archs()[a]).slot_count_spec() + self.pending().len() < usize::MAX
        &&& self.layout_version_spec() < u64::MAX
    }

    /// Checks `queue_fits`.
    pub fn queue_fits_check(&self) -> (b: bool)
        requires
            self.wf(),
        ensures
            b == self.queue_fits(),
    {
        let ghost ps = self.pending();
        let ghost falses = Seq::new(ps.len(), |i: int| false);
        let n = self.pending_entities.len();
        if n == usize::MAX {
            return false;
        }
        let mut total: u64 = self.storage.float_count() as u64;
        let mut i: usize = 0;
        while i < n
            invariant
                n == ps.len(),
                ps == self.pending(),
                falses == Seq::new(ps.len(), |i: int| false),
                i <= n,
                total == self.store().front().len() + sum_unset(widths(ps), falses, i as int),
                total <= u32::MAX,
                self.wf(),
            decreases n - i,
        {
            proof {
                assert(self.pending()[i as int].wf());
                assert(widths(ps)[i as int] == ps[i as int].schema.field_names@.len());
            }
            let w = self.pending_entities[i].schema.floats_per_entity as u64;
            if total + w > 0xFFFF_FFFF {
                proof {
                    World::lemma_sum_unset_mono(widths(ps), falses, i + 1, n as int);
                }
                return false;
            }
            total = total + w;
            i = i + 1;
        }
        if total + 512 > 0xFFFF_FFFF {
            return false;
        }
        if self.archetypes.len() >= 0xFFFF_FFFF || n >= 0xFFFF_FFFF
            || (self.archetypes.len() as u64) + (n as u64) >= 0xFFFF_FFFF {
            return false;
        }
        let nodes = self.meta_graph.node_count();
        if nodes >= 0xFFFF_FFFF || (nodes as u64) + (n as u64) >= 0xFFFF_FFFF {
            return false;
        }
        let m = self.archetypes.len();
        let mut a: usize = 0;
        while a < m
            invariant
                m == self.archs().len(),
                n == self.pending().len(),
                n < usize::MAX,
                a <= m,
                self.wf(),
                forall|b: int| 0 <= b < a ==> (#[trigger] self.archs()[b]).slot_count_spec() + n < usize::MAX,
            decreases m - a,
        {
            proof {
                assert(self.archs()[a as int].wf());
            }
            if self.archetypes[a].total_slots() >= usize::MAX - n {
                return false;
            }
            a = a + 1;
        }
        self.layout_version < u64::MAX
    }

    /// Sums over longer prefixes are at least as large.
    proof fn lemma_sum_unset_mono(vals: Seq<int>, flags: Seq<bool>, k1: int, k2: int)
        requires
            0 <= k1 <= k2 <= flags.len(),
            k2 <= vals.len(),
            forall|i: int| 0 <= i < vals.len() ==> #[trigger] vals[i] >= 0,
        ensures
            sum_unset(vals, flags, k1) <= sum_unset(vals, flags, k2),
        decreases k2 - k1,
    {
        if k1 < k2 {
            World::lemma_sum_unset_mono(vals, flags, k1, k2 - 1);
        }
    }

    /// What removing the entities placed under the indices of `ids` from
    /// `w`, whose values are `front`, does, giving `w1`: each such index
    /// holds no entity any more, the attributes of entities under other
    /// indices stay where they were with their values, and the queue stays.
    pub open spec fn despawned_from(w: World, front: Seq<u64>, w1: World, ids: Seq<EntityId>) -> bool {
        &&& forall|k: int| 0 <= k < ids.len() ==> w1.unplaced((#[trigger] ids[k]).index as int)
        &&& forall|e2: EntityHandle, a2: InternedStr|
            (forall|k: int| 0 <= k < ids.len() ==> (#[trigger] ids[k]).index != e2.0.index)
            ==> #[trigger] w1.pos(e2, a2) == w.pos(e2, a2)
                && (w.pos(e2, a2) matches Some(p) ==> w1.read_spec(e2, a2) == Some(front[p]))
        &&& w1.pending() == w.pending()
    }

    /// How applying commands `c` to `w` gives `w2`, with `ws` the worlds
    /// around the spawn requests: `ws[0]` has the writes applied (to
    /// entities not removed) and the removals done; then the spawns in order;
    /// then, only where spawns were requested, what the queue holds is
    /// placed if it fits.
    pub open spec fn commands_trace(w: World, w2: World, c: CommandBuffer, ws: Seq<World>) -> bool {
        let first = ws[0];
        let last = ws.last();
        &&& World::despawned_from(w, w.writes_applied(w.store().front(), c.write_requests@), first, c.despawn_requests@)
        &&& if c.spawn_requests@.len() > 0 && last.pending().len() > 0 && last.queue_fits() {
            &&& w2.pending() == Seq::<PendingEntity>::empty()
            &&& forall|p: int| 0 <= p < last.pending().len() ==> w2.placed_as(#[trigger] last.pending()[p])
            &&& forall|e2: EntityHandle, a2: InternedStr| last.pos(e2, a2) is Some ==>
                #[trigger] w2.pos(e2, a2) == last.pos(e2, a2) && w2.read_spec(e2, a2) == last.read_spec(e2, a2)
        } else {
            w2 == last
        }
    }

    /// Whether applying commands `c` to `w` gives `w2` (see `commands_trace`).
    pub open spec fn commands_applied(w: World, w2: World, c: CommandBuffer) -> bool {
        exists|ws: Seq<World>| #[trigger] World::spawn_trace(ws, c.spawn_requests@) && World::commands_trace(w, w2, c, ws)
    }

    /// Applies the commands queued during a tick: writes whose entity is
    /// still alive, then despawns, then spawns of registered archetypes,
    /// then, where spawns were requested, places whatever the queue holds if
    /// it fits (`queue_fits`).
    pub fn process_commands(&mut self, commands: CommandBuffer)
        requires
            old(self).wf(),
            old(self).prefabs_fit(),
            forall|k: int| 0 <= k < commands.despawn_requests@.len()
                ==> old(self).despawn_fits(#[trigger] commands.despawn_requests@[k]),
        ensures
            final(self).wf(),
            final(self).prefabs_fit(),
            forall|e2: EntityHandle, a2: InternedStr| old(self).pos(e2, a2) is Some
                && (forall|k: int| 0 <= k < commands.despawn_requests@.len() ==> (#[trigger] commands.despawn_requests@[k]).index != e2.0.index)
                ==> #[trigger] final(self).read_spec(e2, a2)
                    == Some(old(self).writes_applied(old(self).store().front(), commands.write_requests@)[old(self).pos(e2, a2).unwrap()]),
            World::commands_applied(*old(self), *final(self), commands),
    {
        let ghost c = commands;
        let CommandBuffer { spawn_requests, write_requests, despawn_requests } = commands;
        self.apply_writes(&write_requests);
        let ghost w1 = *self;
        proof {
            assert forall|k: int| 0 <= k < despawn_requests@.len() implies self.despawn_fits(#[trigger] despawn_requests@[k]) by {
                assert(old(self).despawn_fits(despawn_requests@[k]));
            }
            assert forall|e2: EntityHandle, a2: InternedStr| old(self).pos(e2, a2) is Some implies
                #[trigger] w1.read_spec(e2, a2) == Some(old(self).writes_applied(old(self).store().front(), write_requests@)[old(self).pos(e2, a2).unwrap()]) by {
                assert(w1.pos(e2, a2) == old(self).pos(e2, a2));
            }
        }
        self.apply_despawns(&despawn_requests);
        let ghost w2 = *self;
        let has_spawns = spawn_requests.len() > 0;
        self.spawn_all(&spawn_requests);
        let ghost w3 = *self;
        if has_spawns && self.pending_entities.len() > 0 && self.queue_fits_check() {
            self.spawn_runtime();
        }
        proof {
            let ws = choose|ws: Seq<World>| #[trigger] World::spawn_trace(ws, spawn_requests@) && ws[0] == w2 && ws.last() == w3;
            assert(World::despawned_from(*old(self), old(self).writes_applied(old(self).store().front(), write_requests@), ws[0], despawn_requests@)) by {
                assert forall|e2: EntityHandle, a2: InternedStr|
                    (forall|k: int| 0 <= k < despawn_requests@.len() ==> (#[trigger] despawn_requests@[k]).index != e2.0.index)
                    implies #[trigger] w2.pos(e2, a2) == old(self).pos(e2, a2)
                        && (old(self).pos(e2, a2) matches Some(p) ==> w2.read_spec(e2, a2)
                            == Some(old(self).writes_applied(old(self).store().front(), write_requests@)[p])) by {
                    assert(w1.pos(e2, a2) == old(self).pos(e2, a2));
                    assert(w2.pos(e2, a2) == w1.pos(e2, a2));
                }
            }
            assert(World::commands_trace(*old(self), *self, c, ws));
        }
        proof {
            assert forall|e2: EntityHandle, a2: InternedStr| old(self).pos(e2, a2) is Some
                && (forall|k: int| 0 <= k < despawn_requests@.len() ==> (#[trigger] despawn_requests@[k]).index != e2.0.index)
                implies #[trigger] self.read_spec(e2, a2)
                    == Some(old(self).writes_applied(old(self).store().front(), write_requests@)[old(self).pos(e2, a2).unwrap()]) by {
                assert(w2.read_spec(e2, a2) == w1.read_spec(e2, a2));
                assert(w2.pos(e2, a2) is Some);
                assert(w3.read_spec(e2, a2) == w2.read_spec(e2, a2));
                assert(w3.pos(e2, a2) is Some);
            }
        }
    }

    /// What spawning registered archetype `name` with `overrides` does to
    /// `w`, giving `w2` (see `spawn_deferred`): when the registration has an
    /// archetype and the spawn fits, a new id is placed there with the
    /// overrides or the registered defaults and nothing else in place moves;
    /// otherwise nothing changes.
    pub open spec fn spawn_step(w: World, w2: World, name: Seq<char>, ov: Seq<(Seq<char>, u64)>) -> bool {
        if w.prefab_of(name) matches Some(v) && v.2 matches Some(a) && w.spawn_fits(a as int) {
            let v = w.prefab_of(name).unwrap();
            let a = v.2.unwrap() as int;
            &&& exists|h: EntityHandle|
                #[trigger] EntityAllocator::allocate_post(w.allocator_spec(), w2.allocator_spec(), h.0)
                && w2.placed_with(h, a, w.prefab_defaults(v.0, v.1, a, ov))
            &&& forall|e2: EntityHandle, a2: InternedStr| w.pos(e2, a2) is Some ==>
                #[trigger] w2.pos(e2, a2) == w.pos(e2, a2) && w2.read_spec(e2, a2) == w.read_spec(e2, a2)
            &&& w2.names() == w.names()
            &&& w2.pending() == w.pending()
            &&& w2.rels() == w.rels()
            &&& w2.sigs() == w.sigs()
            &&& w2.archs().len() == w.archs().len()
            &&& w2.layout_version_spec() == w.layout_version_spec()
            &&& w2.prefabs_spec() == w.prefabs_spec()
        } else {
            w2 == w
        }
    }

    /// `ws` are the worlds before and after each of the spawn requests
    /// `reqs`, taken in order.
    pub open spec fn spawn_trace(ws: Seq<World>, reqs: Seq<SpawnRequest>) -> bool {
        &&& ws.len() == reqs.len() + 1
        &&& forall|k: int| 0 <= k < reqs.len() ==>
            World::spawn_step(#[trigger] ws[k], ws[k + 1], reqs[k].archetype_name@, overrides_view(reqs[k].overrides@))
    }

    /// Spawns each request in order (see `spawn_deferred`).
    fn spawn_all(&mut self, requests: &Vec<SpawnRequest>)
        requires
            old(self).wf(),
            old(self).prefabs_fit(),
        ensures
            final(self).wf(),
            final(self).prefabs_fit(),
            final(self).prefabs_spec() == old(self).prefabs_spec(),
            forall|e2: EntityHandle, a2: InternedStr| old(self).pos(e2, a2) is Some ==>
                #[trigger] final(self).pos(e2, a2) == old(self).pos(e2, a2) && final(self).read_spec(e2, a2) == old(self).read_spec(e2, a2),
            exists|ws: Seq<World>| #[trigger] World::spawn_trace(ws, requests@) && ws[0] == *old(self) && ws.last() == *final(self),
    {
        let n = requests.len();
        let mut i: usize = 0;
        let ghost mut trace: Seq<World> = seq![*self];
        while i < n
            invariant
                n == requests@.len(),
                i <= n,
                self.wf(),
                self.prefabs_fit(),
                self.prefabs_spec() == old(self).prefabs_spec(),
                forall|e2: EntityHandle, a2: InternedStr| old(self).pos(e2, a2) is Some ==>
                    #[trigger] self.pos(e2, a2) == old(self).pos(e2, a2) && self.read_spec(e2, a2) == old(self).read_spec(e2, a2),
                trace.len() == i + 1,
                trace[0] == *old(self),
                trace.last() == *self,
                forall|k: int| 0 <= k < i ==>
                    World::spawn_step(#[trigger] trace[k], trace[k + 1], requests@[k].archetype_name@, overrides_view(requests@[k].overrides@)),
            decreases n - i,
        {
            let req = &requests[i];
            let ghost before = *self;
            let ov = req.overrides.as_slice();
            let r = self.spawn_deferred(req.archetype_name.as_str(), ov);
            proof {
                assert(ov@ == req.overrides@);
                match r {
                    Some(h) => {
                        assert(EntityAllocator::allocate_post(before.allocator_spec(), self.allocator_spec(), h.0));
                    },
                    None => {},
                }
                assert(World::spawn_step(before, *self, req.archetype_name@, overrides_view(req.overrides@)));
                let t2 = trace.push(*self);
                assert forall|k: int| 0 <= k < i + 1 implies
                    World::spawn_step(#[trigger] t2[k], t2[k + 1], requests@[k].archetype_name@, overrides_view(requests@[k].overrides@)) by {
                    if k < i {
                        assert(t2[k] == trace[k]);
                        assert(t2[k + 1] == trace[k + 1]);
                    }
                }
                trace = t2;
            }
            i = i + 1;
        }
        proof {
            assert(World::spawn_trace(trace, requests@));
        }
    }

    /// Starts a tick: writes go to the front buffer until `finish_tick`.
    pub fn begin_tick(&mut self)
        requires
            old(self).wf(),
        ensures
            final(self).wf(),
            final(self).store().in_tick(),
            final(self).store().front() == old(self).store().front(),
            final(self).store().back() == old(self).store().back(),
            final(self).store().mode_spec() == old(self).store().mode_spec(),
            final(self).archs() == old(self).archs(),
            final(self).locs() == old(self).locs(),
            final(self).allocator_spec() == old(self).allocator_spec(),
            final(self).pending() == old(self).pending(),
            final(self).prefabs_spec() == old(self).prefabs_spec(),
            final(self).layout_version_spec() == old(self).layout_version_spec(),
    {
        self.storage.begin_tick();
        proof {
            World::lemma_wf_new_store(*old(self), *self);
        }
    }

    /// Float positions this tick's reads and writes may use.
    pub fn tick_len(&self) -> (n: usize)
        requires
            self.wf(),
        ensures
            n as int == self.store().tick_len(),
    {
        self.storage.tick_len_exec()
    }

    /// Another entity's value during a tick: the values as of the start of
    /// the tick in double mode, else the current ones.
    pub fn tick_read(&self, abs: usize) -> (v: u64)
        requires
            self.wf(),
            (abs as int) < self.store().tick_len(),
        ensures
            v == self.store().read_view()[abs as int],
    {
        self.storage.tick_read(abs)
    }

    /// An entity's own value during a tick: the current one.
    pub fn tick_read_own(&self, abs: usize) -> (v: u64)
        requires
            self.wf(),
            (abs as int) < self.store().tick_len(),
        ensures
            v == self.store().front()[abs as int],
    {
        self.storage.tick_read_front(abs)
    }

    /// A resonator's write during a tick.
    pub fn tick_write(&mut self, abs: usize, value: u64)
        requires
            old(self).wf(),
            (abs as int) < old(self).store().tick_len(),
        ensures
            final(self).wf(),
            final(self).store().front() == old(self).store().front().update(abs as int, value),
            final(self).store().back() == old(self).store().back(),
            final(self).store().mode_spec() == old(self).store().mode_spec(),
            final(self).store().in_tick() == old(self).store().in_tick(),
            final(self).archs() == old(self).archs(),
            final(self).locs() == old(self).locs(),
            final(self).allocator_spec() == old(self).allocator_spec(),
            final(self).pending() == old(self).pending(),
            final(self).prefabs_spec() == old(self).prefabs_spec(),
            final(self).layout_version_spec() == old(self).layout_version_spec(),
    {
        self.storage.tick_write(abs, value);
        proof {
            World::lemma_wf_new_store(*old(self), *self);
        }
    }

    /// Float block and id of each live entity of archetype `arch_idx`, in
    /// slot order.
    pub fn collect_batch(&self, arch_idx: usize) -> (r: Vec<(FloatOffset, EntityId)>)
        requires
            self.wf(),
            (arch_idx as int) < self.archs().len(),
        ensures
            r@ == self.archs()[arch_idx as int].alive_entries_spec().map_values(|e: AliveEntry| (e.2, e.1)),
    {
        proof {
            assert(self.archs()[arch_idx as int].wf());
        }
        self.archetypes[arch_idx].collect_alive_batch()
    }

    /// How ending a tick of `w` gives `f`, through `w0` (writes committed:
    /// the values stay and, in double mode, the back buffer holds them),
    /// `w1` (the entities under the indices of `ids` removed) and `w2` (the
    /// queued commands `c` applied); `f` is `w2` out of the tick.
    pub open spec fn tick_finished(w: World, w0: World, w1: World, w2: World, f: World, ids: Seq<EntityId>, c: CommandBuffer) -> bool {
        &&& w0.store().front() == w.store().front()
        &&& w.store().mode_spec() == BufferMode::Double ==> w0.store().back() == w0.store().front()
        &&& forall|e2: EntityHandle, a2: InternedStr| #[trigger] w0.pos(e2, a2) == w.pos(e2, a2)
        &&& w0.pending() == w.pending()
        &&& World::despawned_from(w0, w0.store().front(), w1, ids)
        &&& World::commands_applied(w1, w2, c)
        &&& f.store().front() == w2.store().front()
        &&& f.archs() == w2.archs()
        &&& f.locs() == w2.locs()
        &&& f.allocator_spec() == w2.allocator_spec()
        &&& f.pending() == w2.pending()
    }

    /// Ends a tick: commits the writes, removes the entities whose removal
    /// was requested, applies the queued commands (see `process_commands`)
    /// and returns the number of removal requests.
    pub fn finish_tick(&mut self, despawns: Vec<EntityId>, commands: CommandBuffer) -> (count: u64)
        requires
            old(self).wf(),
            old(self).prefabs_fit(),
            despawns@.len() <= u64::MAX,
            forall|k: int| 0 <= k < despawns@.len() ==> old(self).despawn_fits(#[trigger] despawns@[k]),
            forall|k: int| 0 <= k < commands.despawn_requests@.len()
                ==> old(self).despawn_fits(#[trigger] commands.despawn_requests@[k]),
        ensures
            final(self).wf(),
            final(self).prefabs_fit(),
            !final(self).store().in_tick(),
            count == despawns@.len(),
            forall|e2: EntityHandle, a2: InternedStr| old(self).pos(e2, a2) is Some
                && (forall|k: int| 0 <= k < despawns@.len() ==> (#[trigger] despawns@[k]).index != e2.0.index)
                && (forall|k: int| 0 <= k < commands.despawn_requests@.len() ==> (#[trigger] commands.despawn_requests@[k]).index != e2.0.index)
                && (forall|k: int| 0 <= k < commands.write_requests@.len()
                    ==> (#[trigger] commands.write_requests@[k]).target_offset.offset != old(self).pos(e2, a2).unwrap())
                ==> #[trigger] final(self).read_spec(e2, a2) == old(self).read_spec(e2, a2),
            exists|w0: World, w1: World, w2: World|
                #[trigger] World::tick_finished(*old(self), w0, w1, w2, *final(self), despawns@, commands),
    {
        let ghost w_in = *old(self);
        let ghost cmd = commands;
        let ghost writes = commands.write_requests@;
        let ghost cds = commands.despawn_requests@;
        self.storage.commit();
        let ghost w0 = *self;
        proof {
            World::lemma_wf_new_store(*old(self), *self);
            assert forall|e2: EntityHandle, a2: InternedStr| #[trigger] w0.read_spec(e2, a2) == w_in.read_spec(e2, a2)
                && w0.pos(e2, a2) == w_in.pos(e2, a2) by {}
            assert forall|k: int| 0 <= k < despawns@.len() implies self.despawn_fits(#[trigger] despawns@[k]) by {
                assert(old(self).despawn_fits(despawns@[k]));
            }
        }
        let count = despawns.len() as u64;
        self.apply_despawns(&despawns);
        proof {
            assert forall|k: int| 0 <= k < commands.despawn_requests@.len()
                implies self.despawn_fits(#[trigger] commands.despawn_requests@[k]) by {
                assert(old(self).despawn_fits(commands.despawn_requests@[k]));
            }
        }
        let ghost w1 = *self;
        self.process_commands(commands);
        let ghost before = *self;
        self.storage.end_tick();
        proof {
            World::lemma_wf_new_store(before, *self);
            assert(World::despawned_from(w0, w0.store().front(), w1, despawns@)) by {
                assert forall|e2: EntityHandle, a2: InternedStr|
                    (forall|k: int| 0 <= k < despawns@.len() ==> (#[trigger] despawns@[k]).index != e2.0.index)
                    implies #[trigger] w1.pos(e2, a2) == w0.pos(e2, a2)
                        && (w0.pos(e2, a2) matches Some(p) ==> w1.read_spec(e2, a2) == Some(w0.store().front()[p])) by {
                    assert(w1.read_spec(e2, a2) == w0.read_spec(e2, a2));
                }
            }
            assert(World::tick_finished(w_in, w0, w1, before, *self, despawns@, cmd));
            assert forall|e2: EntityHandle, a2: InternedStr| w_in.pos(e2, a2) is Some
                && (forall|k: int| 0 <= k < despawns@.len() ==> (#[trigger] despawns@[k]).index != e2.0.index)
                && (forall|k: int| 0 <= k < cds.len() ==> (#[trigger] cds[k]).index != e2.0.index)
                && (forall|k: int| 0 <= k < writes.len() ==> (#[trigger] writes[k]).target_offset.offset != w_in.pos(e2, a2).unwrap())
                implies #[trigger] self.read_spec(e2, a2) == w_in.read_spec(e2, a2) by {
                let p = w_in.pos(e2, a2).unwrap();
                assert(w1.read_spec(e2, a2) == w0.read_spec(e2, a2));
                assert(w1.pos(e2, a2) is Some);
                assert(w1.pos(e2, a2) == Some(p));
                World::lemma_writes_untouched(w1, w1.store().front(), writes, p);
                assert(before.read_spec(e2, a2) == Some(w1.writes_applied(w1.store().front(), writes)[p]));
                assert(self.read_spec(e2, a2) == before.read_spec(e2, a2));
            }
        }
        count
    }

    /// Writes that miss position `p` leave it as it was.
    proof fn lemma_writes_untouched(w: World, front: Seq<u64>, writes: Seq<WriteRequest>, p: int)
        requires
            0 <= p < front.len(),
            forall|k: int| 0 <= k < writes.len() ==> (#[trigger] writes[k]).target_offset.offset != p,
        ensures
            w.writes_applied(front, writes).len() == front.len(),
            w.writes_applied(front, writes)[p] == front[p],
        decreases writes.len(),
    {
        if writes.len() > 0 {
            assert forall|k: int| 0 <= k < writes.drop_last().len() implies (#[trigger] writes.drop_last()[k]).target_offset.offset != p by {
                assert(writes.drop_last()[k] == writes[k]);
            }
            World::lemma_writes_untouched(w, front, writes.drop_last(), p);
            assert(writes.last().target_offset.offset != p);
        }
    }

    /// Summary of each archetype, in order.
    pub fn archetype_info(&self) -> (r: Vec<ArchetypeInfo>)
        requires
            self.wf(),
        ensures
            r@.len() == self.archs().len(),
            forall|i: int| 0 <= i < r@.len() ==> {
                let a = self.archs()[i];
                &&& (#[trigger] r@[i]).name@ == a.name_spec()
                &&& r@[i].alive == a.alive_entries_spec().len()
                &&& r@[i].total_slots == a.slot_count_spec()
                &&& r@[i].floats_per_entity == a.schema_spec().floats_per_entity
                &&& r@[i].resonator_count == a.resonator_types_spec().len()
            },
    {
        let n = self.archetypes.len();
        let mut out: Vec<ArchetypeInfo> = Vec::new();
        let mut i: usize = 0;
        while i < n
            invariant
                self.wf(),
                n == self.archs().len(),
                i <= n,
                out@.len() == i,
                forall|j: int| 0 <= j < i ==> {
                    let a = self.archs()[j];
                    &&& (#[trigger] out@[j]).name@ == a.name_spec()
                    &&& out@[j].alive == a.alive_entries_spec().len()
                    &&& out@[j].total_slots == a.slot_count_spec()
                    &&& out@[j].floats_per_entity == a.schema_spec().floats_per_entity
                    &&& out@[j].resonator_count == a.resonator_types_spec().len()
                },
            decreases n - i,
        {
            let a = &self.archetypes[i];
            proof {
                assert(self.archs()[i as int].wf());
            }
            out.push(ArchetypeInfo {
                name: a.name().to_owned(),
                alive: a.alive_count(),
                total_slots: a.total_slots(),
                floats_per_entity: a.schema().floats_per_entity,
                resonator_count: a.resonator_count(),
            });
            i = i + 1;
        }
        out
    }

    /// Warnings about the archetypes: live entities without resonators, or
    /// no live entities, archetype by archetype.
    pub fn validation_warnings(&self) -> (r: Vec<BuildWarning>)
        requires
            self.wf(),
        ensures
            r@.map_values(|w: BuildWarning| warning_view(w)) == all_warnings(self.archs()),
    {
        let n = self.archetypes.len();
        let mut out: Vec<BuildWarning> = Vec::new();
        let mut i: usize = 0;
        while i < n
            invariant
                self.wf(),
                n == self.archs().len(),
                i <= n,
                out@.map_values(|w: BuildWarning| warning_view(w)) == all_warnings(self.archs().subrange(0, i as int)),
            decreases n - i,
        {
            let a = &self.archetypes[i];
            proof {
                assert(self.archs()[i as int].wf());
                let next = self.archs().subrange(0, i + 1);
                assert(next.drop_last() =~= self.archs().subrange(0, i as int));
            }
            let ghost start = out@;
            let alive = a.alive_count();
            if alive > 0 && a.resonator_count() == 0 {
                out.push(BuildWarning::EntityWithoutResonators { archetype_name: a.name().to_owned(), entity_count: alive });
            }
            if alive == 0 {
                out.push(BuildWarning::EmptyArchetype { name: a.name().to_owned() });
            }
            proof {
                assert(out@.map_values(|w: BuildWarning| warning_view(w))
                    =~= start.map_values(|w: BuildWarning| warning_view(w)) + warnings_for(*a));
            }
            i = i + 1;
        }
        proof {
            assert(self.archs().subrange(0, n as int) =~= self.archs());
        }
        out
    }

    /// Builds (see `build`), then reports the archetypes' warnings.
    pub fn build_with_validation(&mut self) -> (r: Vec<BuildWarning>)
        requires
            old(self).wf(),
            old(self).queue_fits(),
        ensures
            final(self).wf(),
            final(self).pending() == Seq::<PendingEntity>::empty(),
            forall|p: int| 0 <= p < old(self).pending().len() ==> final(self).placed_as(#[trigger] old(self).pending()[p]),
            r@.map_values(|w: BuildWarning| warning_view(w)) == all_warnings(final(self).archs()),
    {
        self.build();
        self.validation_warnings()
    }

    /// Attribute-to-field bindings of archetype `arch_idx`, for resonators.
    pub fn field_map(&self, arch_idx: usize) -> (m: FieldMap)
        requires
            self.wf(),
            (arch_idx as int) < self.archs().len(),
        ensures
            m.interner_spec().wf(),
            m.interner_spec().names() == self.names().names(),
            forall|id: InternedStr| #[trigger] m.lookup(id) == self.archs()[arch_idx as int].schema_spec().find_spec(id),
    {
        let names = &self.archetypes[arch_idx].schema().field_names;
        proof {
            self.lemma_arch_width(arch_idx as int);
        }
        let ghost sch = self.archs()[arch_idx as int].schema_spec();
        let n = names.len();
        let mut fields: HashMap<u32, FieldIndex> = HashMap::new();
        let mut i: usize = 0;
        while i < n
            invariant
                n == names@.len(),
                *names == sch.field_names,
                sch.wf(),
                n <= u16::MAX,
                i <= n,
                forall|k: u32| #[trigger] fields@.contains_key(k) <==> exists|j: int| 0 <= j < i && sch.field_names@[j].0 == k,
                forall|j: int| 0 <= j < i ==> #[trigger] fields@[sch.field_names@[j].0] == FieldIndex(j as u16),
            decreases n - i,
        {
            fields.insert(names[i].0, FieldIndex(i as u16));
            proof {
                assert forall|j: int| 0 <= j < i implies sch.field_names@[j].0 != sch.field_names@[i as int].0 by {
                    assert(sch.field_names@[j] != sch.field_names@[i as int]);
                }
                assert forall|k: u32| #[trigger] fields@.contains_key(k) <==> exists|j: int| 0 <= j < i + 1 && sch.field_names@[j].0 == k by {
                    if k == sch.field_names@[i as int].0 {
                        assert(0 <= i < i + 1 && sch.field_names@[i as int].0 == k);
                    }
                    if exists|j: int| 0 <= j < i + 1 && sch.field_names@[j].0 == k {
                        let j = choose|j: int| 0 <= j < i + 1 && sch.field_names@[j].0 == k;
                        if j < i {
                            assert(exists|j2: int| 0 <= j2 < i && sch.field_names@[j2].0 == k);
                        }
                    }
                }
            }
            i = i + 1;
        }
        let m = FieldMap::new(fields, self.interner.clone_for_read());
        proof {
            assert forall|id: InternedStr| #[trigger] m.lookup(id) == sch.find_spec(id) by {
                if sch.field_names@.contains(id) {
                    let j = choose|j: int| 0 <= j < n && sch.field_names@[j] == id;
                    sch.lemma_find_at(j);
                    assert(fields@.contains_key(id.0));
                } else if fields@.contains_key(id.0) {
                    let j = choose|j: int| 0 <= j < n && sch.field_names@[j].0 == id.0;
                    assert(sch.field_names@[j] == id);
                }
            }
        }
        m
    }

    /// The named values of the first `k` fields of the block at `base` of
    /// archetype `a`, skipping fields whose name is not interned.
    pub open spec fn snapshot_attrs(&self, a: int, base: int, k: int) -> Seq<(Seq<char>, u64)>
        decreases k,
    {
        if k <= 0 {
            Seq::empty()
        } else {
            let prev = self.snapshot_attrs(a, base, k - 1);
            let id = self.archs()[a].schema_spec().field_names@[k - 1];
            if (id.0 as int) < self.names().names().len() {
                prev.push((self.names().names()[id.0 as int], self.read_abs_spec(base + k - 1)))
            } else {
                prev
            }
        }
    }

    /// Snapshot of the live entity of entry `e` of archetype `a`.
    pub open spec fn entity_snapshot_spec(&self, a: int, e: AliveEntry) -> (u32, u32, Seq<char>, Seq<(Seq<char>, u64)>) {
        (e.1.index, e.1.generation, self.archs()[a].name_spec(), self.snapshot_attrs(a, e.2.0 as int, self.width(a)))
    }

    /// Snapshots of the live entities of the first `k` archetypes.
    pub open spec fn snapshot_prefix(&self, k: int) -> Seq<(u32, u32, Seq<char>, Seq<(Seq<char>, u64)>)>
        decreases k,
    {
        if k <= 0 {
            Seq::empty()
        } else {
            self.snapshot_prefix(k - 1) + self.entries_snapshot(k - 1, self.archs()[k - 1].alive_entries_spec())
        }
    }

    /// The attribute names of a snapshot entry are distinct.
    proof fn lemma_snapshot_attrs_names(&self, a: int, base: int, k: int, q: int)
        requires
            self.wf(),
            0 <= a < self.archs().len(),
            0 <= k <= self.width(a),
            0 <= q < self.snapshot_attrs(a, base, k).len(),
        ensures
            exists|f: int| 0 <= f < k && #[trigger] self.archs()[a].schema_spec().field_names@[f].0 < self.names().names().len()
                && self.snapshot_attrs(a, base, k)[q].0 == self.names().names()[self.archs()[a].schema_spec().field_names@[f].0 as int],
        decreases k,
    {
        let prev = self.snapshot_attrs(a, base, k - 1);
        if q < prev.len() {
            self.lemma_snapshot_attrs_names(a, base, k - 1, q);
        } else {
            let f = k - 1;
            assert(self.archs()[a].schema_spec().field_names@[f].0 < self.names().names().len());
        }
    }

    /// Snapshot entry of live entry `e` of archetype `a`.
    fn snapshot_entity(&self, a: usize, e: AliveEntry) -> (r: EntitySnapshot)
        requires
            self.wf(),
            (a as int) < self.archs().len(),
            e.2.0 + self.width(a as int) <= self.store().front().len(),
        ensures
            entity_view(r) == self.entity_snapshot_spec(a as int, e),
    {
        let arch = &self.archetypes[a];
        proof {
            self.lemma_arch_width(a as int);
        }
        let mut snap = EntitySnapshot::new(e.1.index, e.1.generation, arch.name().to_owned());
        let names = &arch.schema().field_names;
        let n = names.len();
        let base = e.2.0 as usize;
        let mut f: usize = 0;
        while f < n
            invariant
                self.wf(),
                (a as int) < self.archs().len(),
                *arch == self.archs()[a as int],
                *names == arch.schema_spec().field_names,
                arch.schema_spec().wf(),
                n == names@.len(),
                n == self.width(a as int),
                base == e.2.0,
                base + n <= self.store().front().len(),
                f <= n,
                entity_view(snap) == (e.1.index, e.1.generation, arch.name_spec(), self.snapshot_attrs(a as int, base as int, f as int)),
            decreases n - f,
        {
            let id = names[f];
            if (id.0 as usize) < self.interner.len() {
                let name = self.interner.resolve(id).to_owned();
                let value = self.read_offset(base + f);
                proof {
                    // names already present come from other fields, hence differ
                    let prev = self.snapshot_attrs(a as int, base as int, f as int);
                    assert forall|q: int| 0 <= q < prev.len() implies prev[q].0 != name@ by {
                        self.lemma_snapshot_attrs_names(a as int, base as int, f as int, q);
                        let g = choose|g: int| 0 <= g < f && #[trigger] self.archs()[a as int].schema_spec().field_names@[g].0 < self.names().names().len()
                            && prev[q].0 == self.names().names()[self.archs()[a as int].schema_spec().field_names@[g].0 as int];
                        let idg = names@[g];
                        assert(idg != id);
                        assert(idg.0 != id.0);
                        self.names().lemma_distinct(idg.0 as int, id.0 as int);
                    }
                    lemma_lookup_named_none(prev, name@);
                }
                snap.add_attribute(name, value);
            }
            f = f + 1;
        }
        snap
    }

    /// Snapshots of the entries `es` of archetype `a`.
    pub open spec fn entries_snapshot(&self, a: int, es: Seq<AliveEntry>) -> Seq<(u32, u32, Seq<char>, Seq<(Seq<char>, u64)>)> {
        es.map_values(|e: AliveEntry| self.entity_snapshot_spec(a, e))
    }

    /// Snapshot of every live entity, archetype by archetype, each in slot
    /// order, with the current layout version.
    pub fn snapshot(&self) -> (r: SchemaSnapshot)
        requires
            self.wf(),
        ensures
            r.version == self.layout_version_spec(),
            entities_view(r.entities@) == self.snapshot_prefix(self.archs().len() as int),
    {
        let mut snapshot = SchemaSnapshot::new(self.layout_version);
        proof {
            assert(entities_view(snapshot.entities@) =~= self.snapshot_prefix(0));
        }
        let count = self.archetypes.len();
        let mut a: usize = 0;
        while a < count
            invariant
                self.wf(),
                count == self.archs().len(),
                a <= count,
                snapshot.version == self.layout_version_spec(),
                entities_view(snapshot.entities@) == self.snapshot_prefix(a as int),
            decreases count - a,
        {
            let arch = &self.archetypes[a];
            proof {
                assert(self.archs()[a as int].wf());
            }
            let entries = arch.alive_entries();
            let ghost start = entities_view(snapshot.entities@);
            let m = entries.len();
            let mut j: usize = 0;
            while j < m
                invariant
                    self.wf(),
                    count == self.archs().len(),
                    a < count,
                    *arch == self.archs()[a as int],
                    m == entries@.len(),
                    entries@ == arch.alive_entries_spec(),
                    j <= m,
                    snapshot.version == self.layout_version_spec(),
                    entities_view(snapshot.entities@) == start + self.entries_snapshot(a as int, entries@.subrange(0, j as int)),
                decreases m - j,
            {
                proof {
                    assert(arch.wf());
                    arch.lemma_alive_entry(arch.slot_count_spec() as int, j as int);
                    let i = entries@[j as int].0 as int;
                    assert(self.is_slot(a as int, i));
                    assert(self.archs()[a as int].offset_seq()[i].0 + self.width(a as int) <= self.store().front().len());
                }
                let es = self.snapshot_entity(a, entries[j]);
                let ghost before = snapshot.entities@;
                snapshot.add_entity(es);
                proof {
                    assert(entities_view(snapshot.entities@) =~= entities_view(before).push(entity_view(es)));
                    assert(entries@.subrange(0, j + 1) =~= entries@.subrange(0, j as int).push(entries@[j as int]));
                    assert(self.entries_snapshot(a as int, entries@.subrange(0, j + 1))
                        =~= self.entries_snapshot(a as int, entries@.subrange(0, j as int)).push(self.entity_snapshot_spec(a as int, entries@[j as int])));
                }
                j = j + 1;
            }
            proof {
                assert(entries@.subrange(0, m as int) =~= entries@);
                assert(self.snapshot_prefix(a + 1) == self.snapshot_prefix(a as int) + self.entries_snapshot(a as int, entries@));
            }
            a = a + 1;
        }
        snapshot
    }

    /// Queues entity `name` with the attributes `attrs` in order, as an
    /// entity builder does, and returns its handle.
    pub(crate) fn queue_entity(&mut self, name: &str, attrs: &Vec<(String, u64)>, types: &Vec<String>) -> (h: EntityHandle)
        requires
            old(self).wf(),
            old(self).allocator_spec().free().len() == 0 ==> old(self).allocator_spec().next() < u32::MAX,
            old(self).names().names().len() + 1 + attrs@.len() < u32::MAX,
            attrs@.len() < u16::MAX,
        ensures
            final(self).wf(),
            EntityAllocator::allocate_post(old(self).allocator_spec(), final(self).allocator_spec(), h.0),
            final(self).pending().len() == old(self).pending().len() + 1,
            final(self).pending().subrange(0, old(self).pending().len() as int) == old(self).pending(),
            final(self).pending().last().entity_id == h.0,
            final(self).queued_as(final(self).pending().last(), name@, attrs_view(attrs@), strings_view(types@)),
            World::spawned_as(*old(self), *final(self), h, name@, attrs_view(attrs@), strings_view(types@)),
            old(self).names().names().len() <= final(self).names().names().len() <= old(self).names().names().len() + 1 + attrs@.len(),
            final(self).names().names().subrange(0, old(self).names().names().len() as int) == old(self).names().names(),
            final(self).archs() == old(self).archs(),
            final(self).locs() == old(self).locs(),
            final(self).store() == old(self).store(),
            final(self).prefabs_spec() == old(self).prefabs_spec(),
            final(self).layout_version_spec() == old(self).layout_version_spec(),
    {
        let ghost n0 = old(self).names();
        let mut b = self.entity(name);
        let n = attrs.len();
        let mut j: usize = 0;
        while j < n
            invariant
                n == attrs@.len(),
                j <= n,
                n < u16::MAX,
                b.ready_in(*b.world),
                after_borrow(*self) == *final(b.world),
                b.schema.floats_per_entity as int <= j,
                n0.names().len() <= b.world.names().names().len() <= n0.names().len() + 1 + j,
                n0.names().len() + 1 + n < u32::MAX,
                b.world.names().names().subrange(0, n0.names().len() as int) == n0.names(),
                b.world.names().find_spec(name@) == Some(b.name),
                b.defaults@.len() == j,
                b.resonator_types@.len() == 0,
                forall|q: int| 0 <= q < j ==> {
                    let id = b.world.names().find_spec((#[trigger] attrs@[q]).0@);
                    &&& id is Some
                    &&& b.schema.find_spec(id.unwrap()) is Some
                    &&& b.defaults@[q] == (b.schema.find_spec(id.unwrap()).unwrap(), attrs@[q].1)
                },
                EntityAllocator::allocate_post(old(self).allocator_spec(), b.world.allocator_spec(), b.entity_id),
                b.world.pending() == old(self).pending(),
                b.world.archs() == old(self).archs(),
                b.world.locs() == old(self).locs(),
                b.world.store() == old(self).store(),
                b.world.prefabs_spec() == old(self).prefabs_spec(),
                b.world.layout_version_spec() == old(self).layout_version_spec(),
            decreases n - j,
        {
            let ghost b1 = b.schema;
            let ghost d1 = b.defaults@;
            let ghost names1 = b.world.names();
            let ghost e1 = b.entity_id;
            let ghost nm1 = b.name;
            b = b.attr(attrs[j].0.as_str(), attrs[j].1);
            proof {
                let names2 = b.world.names();
                // names only grow, so every earlier name keeps its id
                assert(names2.names().subrange(0, names1.names().len() as int) == names1.names());
                assert(names2.names().subrange(0, n0.names().len() as int) =~= n0.names()) by {
                    assert(names2.names().subrange(0, n0.names().len() as int)
                        =~= names2.names().subrange(0, names1.names().len() as int).subrange(0, n0.names().len() as int));
                }
                names1.lemma_find_prefix(&names2, name@);
                assert forall|q: int| 0 <= q < j + 1 implies {
                    let id = b.world.names().find_spec((#[trigger] attrs@[q]).0@);
                    &&& id is Some
                    &&& b.schema.find_spec(id.unwrap()) is Some
                    &&& b.defaults@[q] == (b.schema.find_spec(id.unwrap()).unwrap(), attrs@[q].1)
                } by {
                    if q < j {
                        let id1 = names1.find_spec(attrs@[q].0@);
                        names1.lemma_find_prefix(&names2, attrs@[q].0@);
                        b1.lemma_find_spec(id1.unwrap());
                        let f = b1.find_spec(id1.unwrap()).unwrap();
                        assert(b.schema.field_names@[f.0 as int] == id1.unwrap());
                        b.schema.lemma_find_at(f.0 as int);
                        assert(b.defaults@[q] == d1[q]);
                    }
                }
            }
            j = j + 1;
        }
        let m = types.len();
        let mut t: usize = 0;
        while t < m
            invariant
                m == types@.len(),
                t <= m,
                n == attrs@.len(),
                b.ready_in(*b.world),
                after_borrow(*self) == *final(b.world),
                b.world.names().find_spec(name@) == Some(b.name),
                b.defaults@.len() == n,
                strings_view(b.resonator_types@) == strings_view(types@).subrange(0, t as int),
                forall|q: int| 0 <= q < n ==> {
                    let id = b.world.names().find_spec((#[trigger] attrs@[q]).0@);
                    &&& id is Some
                    &&& b.schema.find_spec(id.unwrap()) is Some
                    &&& b.defaults@[q] == (b.schema.find_spec(id.unwrap()).unwrap(), attrs@[q].1)
                },
                EntityAllocator::allocate_post(old(self).allocator_spec(), b.world.allocator_spec(), b.entity_id),
                n0.names().len() <= b.world.names().names().len() <= n0.names().len() + 1 + n,
                b.world.names().names().subrange(0, n0.names().len() as int) == n0.names(),
                b.world.pending() == old(self).pending(),
                b.world.archs() == old(self).archs(),
                b.world.locs() == old(self).locs(),
                b.world.store() == old(self).store(),
                b.world.prefabs_spec() == old(self).prefabs_spec(),
                b.world.layout_version_spec() == old(self).layout_version_spec(),
            decreases m - t,
        {
            b = b.resonator_type(types[t].as_str());
            proof {
                assert(strings_view(types@).subrange(0, t + 1) =~= strings_view(types@).subrange(0, t as int).push(types@[t as int]@));
            }
            t = t + 1;
        }
        proof {
            assert(strings_view(types@).subrange(0, m as int) =~= strings_view(types@));
        }
        let ghost pe = b.pending_spec();
        let h = b.done();
        proof {
            let av = attrs_view(attrs@);
            assert forall|q: int| 0 <= q < av.len() implies {
                let id = self.names().find_spec((#[trigger] av[q]).0);
                &&& id is Some
                &&& pe.schema.find_spec(id.unwrap()) is Some
                &&& pe.defaults@[q] == (pe.schema.find_spec(id.unwrap()).unwrap(), av[q].1)
            } by {
                assert(av[q] == (attrs@[q].0@, attrs@[q].1));
            }
            assert(self.pending().last() == pe);
            assert(attrs_view(attrs@).len() == attrs@.len());
            assert(self.pending().subrange(0, old(self).pending().len() as int) =~= old(self).pending());
            assert(self.names().names().subrange(0, old(self).names().names().len() as int) =~= old(self).names().names());
            assert(self.archs() =~= old(self).archs());
            assert(self.locs() =~= old(self).locs());
            assert(self.prefabs_spec() =~= old(self).prefabs_spec());
        }
        h
    }

    /// What queueing an entity made from `name`, `attrs` and `types` does:
    /// a new id is handed out and the entity appended to the queue.
    pub open spec fn spawned_as(w1: World, w2: World, h: EntityHandle, name: Seq<char>, attrs: Seq<(Seq<char>, u64)>, types: Seq<Seq<char>>) -> bool {
        &&& EntityAllocator::allocate_post(w1.allocator_spec(), w2.allocator_spec(), h.0)
        &&& w2.pending().len() == w1.pending().len() + 1
        &&& w2.pending().subrange(0, w1.pending().len() as int) == w1.pending()
        &&& w2.pending().last().entity_id == h.0
        &&& w2.queued_as(w2.pending().last(), name, attrs, types)
        &&& w1.names().names().len() <= w2.names().names().len() <= w1.names().names().len() + 1 + attrs.len()
        &&& w2.names().names().subrange(0, w1.names().names().len() as int) == w1.names().names()
        &&& w2.archs() == w1.archs()
        &&& w2.locs() == w1.locs()
        &&& w2.store() == w1.store()
        &&& w2.prefabs_spec() == w1.prefabs_spec()
        &&& w2.layout_version_spec() == w1.layout_version_spec()
    }

    /// Whether queued entity `pe` was made from archetype name `name` and
    /// the named values `attrs`, as an entity builder makes it.
    pub open spec fn queued_as(&self, pe: PendingEntity, name: Seq<char>, attrs: Seq<(Seq<char>, u64)>, types: Seq<Seq<char>>) -> bool {
        &&& self.names().find_spec(name) == Some(pe.name)
        &&& pe.defaults@.len() == attrs.len()
        &&& forall|j: int| 0 <= j < attrs.len() ==> {
            let id = self.names().find_spec((#[trigger] attrs[j]).0);
            &&& id is Some
            &&& pe.schema.find_spec(id.unwrap()) is Some
            &&& pe.defaults@[j] == (pe.schema.find_spec(id.unwrap()).unwrap(), attrs[j].1)
        }
        &&& strings_view(pe.resonator_types@) == types
    }

    /// Interning more names keeps how a queued entity was made.
    pub(crate) proof fn lemma_queued_as_grow(w1: World, w2: World, pe: PendingEntity, name: Seq<char>, attrs: Seq<(Seq<char>, u64)>, types: Seq<Seq<char>>)
        requires
            w1.wf(),
            w2.wf(),
            w1.queued_as(pe, name, attrs, types),
            w1.names().names().len() <= w2.names().names().len(),
            w2.names().names().subrange(0, w1.names().names().len() as int) == w1.names().names(),
        ensures
            w2.queued_as(pe, name, attrs, types),
    {
        w1.names().lemma_find_prefix(&w2.names(), name);
        assert forall|j: int| 0 <= j < attrs.len() implies {
            let id = w2.names().find_spec((#[trigger] attrs[j]).0);
            &&& id is Some
            &&& pe.schema.find_spec(id.unwrap()) is Some
            &&& pe.defaults@[j] == (pe.schema.find_spec(id.unwrap()).unwrap(), attrs[j].1)
        } by {
            w1.names().lemma_find_prefix(&w2.names(), attrs[j].0);
        }
    }

    /// Names a snapshot interns at most: each entity's archetype name and
    /// attribute names.
    pub open spec fn snapshot_name_count(es: Seq<EntitySnapshot>) -> int
        decreases es.len(),
    {
        if es.len() == 0 {
            0
        } else {
            Self::snapshot_name_count(es.drop_last()) + 1 + es.last().attributes@.len()
        }
    }

    proof fn lemma_name_count_prefix(es: Seq<EntitySnapshot>, k: int)
        requires
            0 <= k <= es.len(),
        ensures
            Self::snapshot_name_count(es.subrange(0, k)) <= Self::snapshot_name_count(es),
        decreases es.len(),
    {
        if k < es.len() {
            assert(es.drop_last() =~= es.subrange(0, es.len() - 1));
            Self::lemma_name_count_prefix(es.drop_last(), k);
            assert(es.drop_last().subrange(0, k) =~= es.subrange(0, k));
        } else {
            assert(es.subrange(0, k) =~= es);
        }
    }

    /// Replaces the world's entities with those of `snapshot`: archetypes,
    /// ids, locations, relations and the queue are reset, then each entity
    /// is queued, in order, with its archetype name and attribute values;
    /// they are placed by the next build. Storage, names, registrations and
    /// the layout version are kept.
    pub fn restore(&mut self, snapshot: SchemaSnapshot) -> (r: Result<(), String>)
        requires
            old(self).wf(),
            snapshot.entities@.len() < u32::MAX,
            old(self).names().names().len() + Self::snapshot_name_count(snapshot.entities@) < u32::MAX,
            forall|k: int| 0 <= k < snapshot.entities@.len() ==> (#[trigger] snapshot.entities@[k]).attributes@.len() < u16::MAX,
        ensures
            r is Ok,
            final(self).wf(),
            final(self).archs().len() == 0,
            final(self).locs().len() == 0,
            final(self).pending().len() == snapshot.entities@.len(),
            forall|k: int| 0 <= k < snapshot.entities@.len() ==> {
                &&& (#[trigger] final(self).pending()[k]).entity_id == (EntityId { index: k as u32, generation: 0 })
                &&& final(self).queued_as(final(self).pending()[k], snapshot.entities@[k].archetype_name@,
                    attrs_view(snapshot.entities@[k].attributes@), Seq::empty())
            },
            final(self).store() == old(self).store(),
            final(self).names().names().subrange(0, old(self).names().names().len() as int) == old(self).names().names(),
            final(self).prefabs_spec() == old(self).prefabs_spec(),
            final(self).layout_version_spec() == old(self).layout_version_spec(),
    {
        self.archetypes = Vec::new();
        self.archetype_signatures = Vec::new();
        self.allocator = EntityAllocator::new();
        self.entity_locations = Vec::new();
        self.pending_entities = Vec::new();
        self.relations = RelationGraph::new();
        self.meta_graph = MetaGraph::new();
        self.cached_entities = Vec::new();
        self.entities_dirty = true;
        self.next_archetype_id = 0;
        proof {
            assert(self.sigs() =~= Seq::<Seq<InternedStr>>::empty());
            assert(self.archs() =~= Seq::<Archetype>::empty());
            assert(self.locs() =~= Seq::<Option<EntityLoc>>::empty());
            assert(self.pending() =~= Seq::<PendingEntity>::empty());
            assert(self.blocks_wf());
            assert(self.locations_wf());
            assert(self.pending_wf());
            assert(self.wf());
        }
        let ghost n0 = old(self).names();
        let ghost es = snapshot.entities@;
        let n = snapshot.entities.len();
        let mut k: usize = 0;
        while k < n
            invariant
                n == es.len(),
                es == snapshot.entities@,
                n < u32::MAX,
                k <= n,
                self.wf(),
                n0.names().len() + Self::snapshot_name_count(es) < u32::MAX,
                forall|q: int| 0 <= q < es.len() ==> (#[trigger] es[q]).attributes@.len() < u16::MAX,
                self.archs().len() == 0,
                self.locs().len() == 0,
                self.allocator_spec().free().len() == 0,
                self.allocator_spec().next() == k,
                self.pending().len() == k,
                forall|q: int| 0 <= q < k ==> {
                    &&& (#[trigger] self.pending()[q]).entity_id == (EntityId { index: q as u32, generation: 0 })
                    &&& self.queued_as(self.pending()[q], es[q].archetype_name@, attrs_view(es[q].attributes@), Seq::empty())
                },
                self.store() == old(self).store(),
                n0.names().len() <= self.names().names().len() <= n0.names().len() + Self::snapshot_name_count(es.subrange(0, k as int)),
                self.names().names().subrange(0, n0.names().len() as int) == n0.names(),
                self.prefabs_spec() == old(self).prefabs_spec(),
                self.layout_version_spec() == old(self).layout_version_spec(),
            decreases n - k,
        {
            let ghost before = *self;
            proof {
                Self::lemma_name_count_prefix(es, k + 1);
                assert(es.subrange(0, k + 1).drop_last() =~= es.subrange(0, k as int));
            }
            let e = &snapshot.entities[k];
            let no_types: Vec<String> = Vec::new();
            proof {
                assert(strings_view(no_types@) =~= Seq::<Seq<char>>::empty());
            }
            self.queue_entity(e.archetype_name.as_str(), &e.attributes, &no_types);
            proof {
                assert(self.names().names().subrange(0, n0.names().len() as int) =~= n0.names()) by {
                    assert(self.names().names().subrange(0, n0.names().len() as int)
                        =~= self.names().names().subrange(0, before.names().names().len() as int).subrange(0, n0.names().len() as int));
                }
                assert forall|q: int| 0 <= q < k + 1 implies {
                    &&& (#[trigger] self.pending()[q]).entity_id == (EntityId { index: q as u32, generation: 0 })
                    &&& self.queued_as(self.pending()[q], es[q].archetype_name@, attrs_view(es[q].attributes@), Seq::empty())
                } by {
                    if q < k {
                        assert(self.pending().subrange(0, k as int)[q] == self.pending()[q]);
                        assert(before.pending()[q] == self.pending()[q]);
                        World::lemma_queued_as_grow(before, *self, self.pending()[q], es[q].archetype_name@, attrs_view(es[q].attributes@), Seq::empty());
                    }
                }
            }
            k = k + 1;
        }
        Ok(())
    }

    /// Only the name table changed.
    pub open spec fn only_names_changed(w1: World, w2: World) -> bool {
        &&& w2.archs() == w1.archs()
        &&& w2.locs() == w1.locs()
        &&& w2.allocator_spec() == w1.allocator_spec()
        &&& w2.store() == w1.store()
        &&& w2.pending() == w1.pending()
        &&& w2.sigs() == w1.sigs()
        &&& w2.rels() == w1.rels()
        &&& w2.registered() == w1.registered()
        &&& w2.layout_version_spec() == w1.layout_version_spec()
    }

    /// Registered resonator type names.
    pub closed spec fn registered(&self) -> Seq<Seq<char>> {
        self.resonator_names@.map_values(|s: String| s@)
    }

    /// Whether resonator type `name` is registered.
    pub fn is_registered(&self, name: &str) -> (b: bool)
        ensures
            b == self.registered().contains(name@),
    {
        let n = self.resonator_names.len();
        let mut i: usize = 0;
        while i < n
            invariant
                n == self.resonator_names@.len(),
                i <= n,
                forall|j: int| 0 <= j < i ==> self.registered()[j] != name@,
            decreases n - i,
        {
            if crate::interning::str_eq(self.resonator_names[i].as_str(), name) {
                proof {
                    assert(self.registered()[i as int] == name@);
                }
                return true;
            }
            i = i + 1;
        }
        false
    }

    /// Registers resonator type `name` (its factory lives with the caller);
    /// a name registered twice is kept once.
    pub fn register_resonator(&mut self, name: &str)
        requires
            old(self).wf(),
        ensures
            final(self).wf(),
            old(self).registered().contains(name@) ==> final(self).registered() == old(self).registered(),
            !old(self).registered().contains(name@) ==> final(self).registered() == old(self).registered().push(name@),
            final(self).archs() == old(self).archs(),
            final(self).locs() == old(self).locs(),
            final(self).store() == old(self).store(),
            final(self).pending() == old(self).pending(),
            final(self).allocator_spec() == old(self).allocator_spec(),
            final(self).names() == old(self).names(),
            final(self).rels() == old(self).rels(),
    {
        if !self.is_registered(name) {
            self.resonator_names.push(name.to_owned());
            proof {
                assert(self.registered() =~= old(self).registered().push(name@));
                World::lemma_pending_frame(*old(self), *self);
            }
        }
    }

    /// Attaches to archetype `arch_idx` the registered names of `types`.
    fn attach_resonators(&mut self, arch_idx: usize, types: &Vec<String>)
        requires
            old(self).wf(),
            (arch_idx as int) < old(self).archs().len(),
        ensures
            final(self).wf(),
            final(self).meta_spec() == old(self).meta_spec(),
            final(self).archs().len() == old(self).archs().len(),
            forall|b: int| 0 <= b < old(self).archs().len() && b != arch_idx ==> #[trigger] final(self).archs()[b] == old(self).archs()[b],
            final(self).archs()[arch_idx as int].resonator_types_spec() == old(self).archs()[arch_idx as int].resonator_types_spec()
                + registered_only(types@.map_values(|s: String| s@), old(self).registered()),
            final(self).archs()[arch_idx as int].same_slots(old(self).archs()[arch_idx as int]),
            final(self).locs() == old(self).locs(),
            final(self).store() == old(self).store(),
            final(self).pending() == old(self).pending(),
            final(self).allocator_spec() == old(self).allocator_spec(),
            final(self).names() == old(self).names(),
            final(self).rels() == old(self).rels(),
            final(self).sigs() == old(self).sigs(),
            final(self).registered() == old(self).registered(),
            final(self).next_archetype_id_spec() == old(self).next_archetype_id_spec(),
            final(self).layout_version_spec() == old(self).layout_version_spec(),
            final(self).prefabs_spec() == old(self).prefabs_spec(),
            forall|e2: EntityHandle, a2: InternedStr| #[trigger] final(self).pos(e2, a2) == old(self).pos(e2, a2),
            forall|e2: EntityHandle, a2: InternedStr| #[trigger] final(self).read_spec(e2, a2) == old(self).read_spec(e2, a2),
    {
        let n = types.len();
        let ghost tv = types@.map_values(|s: String| s@);
        let ghost reg = self.registered();
        let mut i: usize = 0;
        while i < n
            invariant
                self.wf(),
                n == types@.len(),
                i <= n,
                tv == types@.map_values(|s: String| s@),
                reg == self.registered(),
                reg == old(self).registered(),
                (arch_idx as int) < self.archs().len(),
                self.archs()[arch_idx as int].wf(),
                self.archs().len() == old(self).archs().len(),
                forall|b: int| 0 <= b < old(self).archs().len() && b != arch_idx ==> #[trigger] self.archs()[b] == old(self).archs()[b],
                self.archs()[arch_idx as int].resonator_types_spec() == old(self).archs()[arch_idx as int].resonator_types_spec()
                    + registered_only(tv.subrange(0, i as int), reg),
                self.archs()[arch_idx as int].same_slots(old(self).archs()[arch_idx as int]),
                *self == (World { archetypes: self.archetypes, ..*old(self) }),
            decreases n - i,
        {
            let ghost before = *self;
            if self.is_registered(types[i].as_str()) {
                let t = types[i].clone();
                self.archetypes[arch_idx].push_resonator_type(t);
                proof {
                    World::lemma_same_slots_wf(before, *self, arch_idx as int);
                }
            }
            proof {
                let pre = tv.subrange(0, i as int);
                assert(tv.subrange(0, i + 1) =~= pre.push(tv[i as int]));
                pre.lemma_filter_push(tv[i as int], |t: Seq<char>| reg.contains(t));
                assert(self.archs()[arch_idx as int].resonator_types_spec() =~= old(self).archs()[arch_idx as int].resonator_types_spec()
                    + registered_only(tv.subrange(0, i + 1), reg));
            }
            i = i + 1;
        }
        proof {
            assert(tv.subrange(0, n as int) =~= tv);
            World::lemma_same_slots_frame(*old(self), *self, arch_idx as int);
        }
    }

    /// Changing only the resonator names of one archetype keeps a world well
    /// formed.
    proof fn lemma_same_slots_wf(w1: World, w2: World, a: int)
        requires
            w1.wf(),
            0 <= a < w1.archs().len(),
            w2.archs().len() == w1.archs().len(),
            forall|b: int| 0 <= b < w1.archs().len() && b != a ==> #[trigger] w2.archs()[b] == w1.archs()[b],
            w2.archs()[a].same_slots(w1.archs()[a]),
            w2.archs()[a].wf(),
            w2 == (World { archetypes: w2.archetypes, ..w1 }),
        ensures
            w2.wf(),
    {
        World::lemma_same_slots_frame(w1, w2, a);
        assert forall|b: int| 0 <= b < w2.archs().len() implies #[trigger] w2.archs()[b].same_slots(w1.archs()[b]) by {}
        assert(w2.archetypes_wf()) by {
            assert forall|b: int| 0 <= b < w2.archs().len() implies {
                &&& (#[trigger] w2.archs()[b]).wf()
                &&& w2.archs()[b].id_spec() == ArchetypeId(b as u32)
                &&& Self::is_signature_of(w2.sigs()[b], w2.archs()[b].schema_spec())
            } by {
                assert(w2.archs()[b].same_slots(w1.archs()[b]));
            }
        }
        assert(w2.blocks_wf()) by {
            assert forall|b: int, j: int| w2.is_slot(b, j)
                implies (#[trigger] w2.archs()[b].offset_seq()[j]).0 + w2.width(b) <= w2.store().front().len() by {
                assert(w2.archs()[b].same_slots(w1.archs()[b]));
            }
            assert forall|b: int, j: int, c: int, m: int|
                w2.is_slot(b, j) && w2.is_slot(c, m) && (b != c || j != m)
                implies disjoint_blocks(
                    (#[trigger] w2.archs()[b].offset_seq()[j]).0 as int, w2.width(b),
                    (#[trigger] w2.archs()[c].offset_seq()[m]).0 as int, w2.width(c)) by {
                assert(w2.archs()[b].same_slots(w1.archs()[b]));
                assert(w2.archs()[c].same_slots(w1.archs()[c]));
                assert(w1.is_slot(b, j) && w1.is_slot(c, m));
            }
        }
        assert(w2.locations_wf()) by {
            assert forall|q: int| 0 <= q < w2.locs().len() && (#[trigger] w2.locs()[q]) is Some implies {
                let l = w2.locs()[q].unwrap();
                &&& w2.is_slot(l.archetype_idx as int, l.inner_idx as int)
                &&& w2.archs()[l.archetype_idx as int].is_alive_spec(l.inner_idx as int)
                &&& w2.archs()[l.archetype_idx as int].entity_seq()[l.inner_idx as int].index == q
            } by {
                assert(w1.locs()[q] is Some);
                let l = w1.locs()[q].unwrap();
                assert(w1.is_slot(l.archetype_idx as int, l.inner_idx as int));
                assert(w2.archs()[l.archetype_idx as int].same_slots(w1.archs()[l.archetype_idx as int]));
            }
            assert forall|b: int, j: int| w2.is_slot(b, j) && w2.archs()[b].is_alive_spec(j) implies {
                let e = #[trigger] w2.archs()[b].entity_seq()[j];
                &&& (e.index as int) < w2.locs().len()
                &&& w2.locs()[e.index as int] == Some(EntityLoc { archetype_idx: b as usize, inner_idx: j as usize })
                &&& w2.allocator_spec().is_alive_spec(e)
            } by {
                assert(w2.archs()[b].same_slots(w1.archs()[b]));
                assert(w1.is_slot(b, j));
            }
        }
        World::lemma_pending_frame(w1, w2);
    }

    /// Changing only resonator names leaves every position and value.
    proof fn lemma_same_slots_frame(w1: World, w2: World, a: int)
        requires
            w1.wf(),
            0 <= a < w1.archs().len(),
            w2.archs().len() == w1.archs().len(),
            forall|b: int| 0 <= b < w1.archs().len() && b != a ==> #[trigger] w2.archs()[b] == w1.archs()[b],
            w2.archs()[a].same_slots(w1.archs()[a]),
            w2 == (World { archetypes: w2.archetypes, ..w1 }),
        ensures
            forall|e2: EntityHandle, a2: InternedStr| #[trigger] w2.pos(e2, a2) == w1.pos(e2, a2),
            forall|e2: EntityHandle, a2: InternedStr| #[trigger] w2.read_spec(e2, a2) == w1.read_spec(e2, a2),
    {
        assert(w2.locs() == w1.locs());
        assert(w2.allocator_spec() == w1.allocator_spec());
        assert(w2.store() == w1.store());
        assert forall|e2: EntityHandle, a2: InternedStr| #[trigger] w2.pos(e2, a2) == w1.pos(e2, a2) by {
            assert(w2.loc_of(e2) == w1.loc_of(e2));
            if w1.loc_of(e2) is Some {
                let b = w1.loc_of(e2).unwrap().archetype_idx as int;
                assert(w1.locs()[e2.0.index as int] is Some);
                if b != a {
                    assert(w2.archs()[b] == w1.archs()[b]);
                } else {
                    assert(w2.archs()[a].same_slots(w1.archs()[a]));
                }
            }
        }
        assert forall|e2: EntityHandle, a2: InternedStr| #[trigger] w2.read_spec(e2, a2) == w1.read_spec(e2, a2) by {
            assert(w2.pos(e2, a2) == w1.pos(e2, a2));
        }
    }

    /// Placed entities keep their location, archetype field set and values.
    pub open spec fn keeps_placements(w1: World, w2: World) -> bool {
        &&& w2.allocator_spec() == w1.allocator_spec()
        &&& w2.locs().len() >= w1.locs().len()
        &&& forall|q: int| 0 <= q < w1.locs().len() && w1.locs()[q] is Some ==> #[trigger] w2.locs()[q] == w1.locs()[q]
        &&& w2.archs().len() >= w1.archs().len()
        &&& forall|a: int| 0 <= a < w1.archs().len() ==> #[trigger] w2.sigs()[a] == w1.sigs()[a]
            && w2.archs()[a].schema_spec() == w1.archs()[a].schema_spec()
        &&& forall|e2: EntityHandle, a2: InternedStr| w1.read_spec(e2, a2) is Some ==> #[trigger] w2.read_spec(e2, a2) == w1.read_spec(e2, a2)
    }

    proof fn lemma_placed_as_kept(w1: World, w2: World, pe: PendingEntity)
        requires
            w1.wf(),
            w1.placed_as(pe),
            World::keeps_placements(w1, w2),
        ensures
            w2.placed_as(pe),
    {
        let h = EntityHandle(pe.entity_id);
        assert(w1.loc_of(h) is Some);
        assert(w1.locs()[pe.entity_id.index as int] is Some);
        assert(w2.loc_of(h) == w1.loc_of(h));
        let a = w1.loc_of(h).unwrap().archetype_idx as int;
        assert(0 <= a < w1.archs().len());
        assert(w2.sigs()[a] == w1.sigs()[a]);
        assert(w2.archs()[a].schema_spec() == w1.archs()[a].schema_spec());
        assert forall|f: int| 0 <= f < w2.width(a) implies
            #[trigger] w2.read_spec(h, w2.archs()[a].schema_spec().field_names@[f]) == Some(default_value(pe.defaults@, f)) by {
            assert(w1.read_spec(h, w1.archs()[a].schema_spec().field_names@[f]) == Some(default_value(pe.defaults@, f)));
        }
    }

    /// Placement keeps earlier placements.
    proof fn lemma_place_keeps(w1: World, w2: World, a: int, id: EntityId, loc: EntityLoc)
        requires
            w1.wf(),
            w1.unplaced(id.index as int),
            World::place_post(w1, w2, a, id, loc),
            forall|e2: EntityHandle, a2: InternedStr| w1.pos(e2, a2) is Some ==>
                #[trigger] w2.pos(e2, a2) == w1.pos(e2, a2) && w2.read_spec(e2, a2) == w1.read_spec(e2, a2),
        ensures
            World::keeps_placements(w1, w2),
    {
        assert forall|q: int| 0 <= q < w1.locs().len() && w1.locs()[q] is Some implies #[trigger] w2.locs()[q] == w1.locs()[q] by {
            assert(q != id.index as int);
        }
        assert forall|b: int| 0 <= b < w1.archs().len() implies #[trigger] w2.sigs()[b] == w1.sigs()[b]
            && w2.archs()[b].schema_spec() == w1.archs()[b].schema_spec() by {
            if b != a {
                assert(w2.archs()[b] == w1.archs()[b]);
            }
        }
        assert forall|e2: EntityHandle, a2: InternedStr| w1.read_spec(e2, a2) is Some implies #[trigger] w2.read_spec(e2, a2) == w1.read_spec(e2, a2) by {
            assert(w1.pos(e2, a2) is Some);
        }
    }

    /// The entity just placed with `pe`'s defaults is placed as `pe`.
    proof fn lemma_placed_fresh(w1: World, w2: World, a: int, pe: PendingEntity, loc: EntityLoc)
        requires
            w1.wf(),
            w2.wf(),
            0 <= a < w1.archs().len(),
            World::place_post(w1, w2, a, pe.entity_id, loc),
            w2.loc_of(EntityHandle(pe.entity_id)) == Some(loc),
            Self::is_signature_of(w1.sigs()[a], pe.schema),
            pe.wf(),
            forall|f: int| 0 <= f < w1.width(a) ==>
                #[trigger] w2.store().front()[w1.store().front().len() + f] == default_value(pe.defaults@, f),
        ensures
            w2.placed_as(pe),
    {
        let h = EntityHandle(pe.entity_id);
        let sch = w2.archs()[a].schema_spec();
        assert(Self::is_signature_of(w1.sigs()[a], w1.archs()[a].schema_spec()));
        assert forall|f: int| 0 <= f < w2.width(a) implies
            #[trigger] w2.read_spec(h, sch.field_names@[f]) == Some(default_value(pe.defaults@, f)) by {
            sch.lemma_find_at(f);
            assert(w2.store().front()[w1.store().front().len() + f] == default_value(pe.defaults@, f));
        }
    }

    /// Attaching resonators keeps placements.
    proof fn lemma_attach_keeps(w1: World, w2: World, a: int)
        requires
            0 <= a < w1.archs().len(),
            w2.archs().len() == w1.archs().len(),
            forall|b: int| 0 <= b < w1.archs().len() && b != a ==> #[trigger] w2.archs()[b] == w1.archs()[b],
            w2.archs()[a].same_slots(w1.archs()[a]),
            w2.locs() == w1.locs(),
            w2.allocator_spec() == w1.allocator_spec(),
            w2.sigs() == w1.sigs(),
            forall|e2: EntityHandle, a2: InternedStr| #[trigger] w2.read_spec(e2, a2) == w1.read_spec(e2, a2),
        ensures
            World::keeps_placements(w1, w2),
    {
        assert forall|b: int| 0 <= b < w1.archs().len() implies #[trigger] w2.sigs()[b] == w1.sigs()[b]
            && w2.archs()[b].schema_spec() == w1.archs()[b].schema_spec() by {
            if b != a {
                assert(w2.archs()[b] == w1.archs()[b]);
            }
        }
    }

    /// Once the room count drops, the slack is not needed.
    proof fn lemma_build_inv_slack(w: World, w0: World, ps: Seq<PendingEntity>, sv: Seq<Seq<InternedStr>>, flags: Seq<bool>)
        requires
            w.build_inv(w0, ps, sv, flags, 1),
            w.archs().len() + sum_unset(ones(ps.len()), flags, ps.len() as int) < u32::MAX,
        ensures
            w.build_inv(w0, ps, sv, flags, 0),
    {
    }

    /// The invariant of `build` holds once the queue is taken out.
    proof fn lemma_build_inv_start(w0: World, w: World, ps: Seq<PendingEntity>, sv: Seq<Seq<InternedStr>>, flags: Seq<bool>)
        requires
            w0.wf(),
            ps == w0.pending(),
            w.wf(),
            w == (World { pending_entities: w.pending_entities, ..w0 }),
            w.pending() == Seq::<PendingEntity>::empty(),
            sv.len() == ps.len(),
            forall|j: int| 0 <= j < ps.len() ==> Self::is_signature_of(#[trigger] sv[j], ps[j].schema),
            flags == Seq::new(ps.len(), |i: int| false),
            w0.store().front().len() + sum_unset(widths(ps), flags, ps.len() as int) + 512 <= u32::MAX,
            w0.archs().len() + ps.len() < u32::MAX,
            w0.meta_spec().nodes().len() + ps.len() < u32::MAX,
            ps.len() < usize::MAX,
            forall|a: int| 0 <= a < w0.archs().len() ==> (#[trigger] w0.archs()[a]).slot_count_spec() + ps.len() < usize::MAX,
        ensures
            w.build_inv(w0, ps, sv, flags, 0),
    {
        let n = ps.len();
        lemma_sum_unset_ones(n, flags, n as int);
        assert(w.archs() == w0.archs());
        assert(w.locs() == w0.locs());
        assert(w.store() == w0.store());
        assert(w.registered() == w0.registered());
        assert forall|j: int| 0 <= j < n && !flags[j] implies w.unplaced((#[trigger] ps[j]).entity_id.index as int) by {
            assert(w0.unplaced(w0.pending()[j].entity_id.index as int));
        }
        assert forall|j: int| 0 <= j < n implies w0.allocator_spec().is_alive_spec((#[trigger] ps[j]).entity_id) by {
            assert(w0.pending()[j].wf());
        }
        assert forall|e2: EntityHandle, a2: InternedStr| w0.pos(e2, a2) is Some implies
            #[trigger] w.pos(e2, a2) == w0.pos(e2, a2) && w.read_spec(e2, a2) == w0.read_spec(e2, a2) by {
        }
    }

    /// A new archetype for a group keeps the invariant of `build`, with the
    /// slack of the group leader still to be placed.
    proof fn lemma_build_inv_new_archetype(w1: World, w2: World, w0: World, ps: Seq<PendingEntity>, sv: Seq<Seq<InternedStr>>, flags: Seq<bool>, sig: Seq<InternedStr>)
        requires
            w1.build_inv(w0, ps, sv, flags, 0),
            w2.wf(),
            sum_unset(ones(ps.len()), flags, ps.len() as int) >= 1,
            w1.sigs().contains(sig) ==> w2 == w1,
            !w1.sigs().contains(sig) ==> w2.archs().len() == w1.archs().len() + 1
                && w2.archs()[w1.archs().len() as int].slot_count_spec() == 0,
            w2.archs().len() >= w1.archs().len(),
            forall|b: int| 0 <= b < w1.archs().len() ==> #[trigger] w2.archs()[b] == w1.archs()[b],
            forall|e2: EntityHandle, a2: InternedStr| #[trigger] w2.pos(e2, a2) == w1.pos(e2, a2),
            forall|e2: EntityHandle, a2: InternedStr| #[trigger] w2.read_spec(e2, a2) == w1.read_spec(e2, a2),
            forall|b: int| 0 <= b < w1.archs().len() ==> #[trigger] w2.sigs()[b] == w1.sigs()[b],
            w2.locs() == w1.locs(),
            w2.allocator_spec() == w1.allocator_spec(),
            w2.store() == w1.store(),
            w2.pending() == w1.pending(),
            w2.names() == w1.names(),
            w2.rels() == w1.rels(),
            w2.registered() == w1.registered(),
            w2.layout_version_spec() == w1.layout_version_spec(),
            w2.prefabs_spec() == w1.prefabs_spec(),
            w2.meta_spec() == w1.meta_spec(),
        ensures
            w2.build_inv(w0, ps, sv, flags, 1),
    {
        let n = ps.len();
        lemma_sum_unset_ones(n, flags, n as int);
        assert(World::keeps_placements(w1, w2)) by {
            assert forall|b: int| 0 <= b < w1.archs().len() implies #[trigger] w2.sigs()[b] == w1.sigs()[b]
                && w2.archs()[b].schema_spec() == w1.archs()[b].schema_spec() by {
                assert(w2.archs()[b] == w1.archs()[b]);
            }
        }
        assert forall|j: int| 0 <= j < n && flags[j] implies w2.placed_as(#[trigger] ps[j]) by {
            World::lemma_placed_as_kept(w1, w2, ps[j]);
        }
        assert forall|a: int| 0 <= a < w2.archs().len() implies
            (#[trigger] w2.archs()[a]).slot_count_spec() + sum_unset(ones(n), flags, n as int) < usize::MAX by {
            if a < w1.archs().len() {
                assert(w2.archs()[a] == w1.archs()[a]);
            }
        }
    }

    /// Flags outside the model do not matter.
    proof fn lemma_wf_flags(w1: World, w2: World)
        requires
            w1.wf(),
            w2 == (World { built: w2.built, layout_version: w2.layout_version, entities_dirty: w2.entities_dirty, cached_entities: w2.cached_entities, ..w1 }),
        ensures
            w2.wf(),
            w2.archs() == w1.archs(),
            w2.locs() == w1.locs(),
            w2.allocator_spec() == w1.allocator_spec(),
            w2.store() == w1.store(),
            w2.sigs() == w1.sigs(),
            w2.names() == w1.names(),
            w2.pending() == w1.pending(),
            w2.rels() == w1.rels(),
            w2.registered() == w1.registered(),
            forall|e2: EntityHandle, a2: InternedStr| #[trigger] w2.pos(e2, a2) == w1.pos(e2, a2),
            forall|e2: EntityHandle, a2: InternedStr| #[trigger] w2.read_spec(e2, a2) == w1.read_spec(e2, a2),
            forall|pe: PendingEntity| w1.placed_as(pe) ==> #[trigger] w2.placed_as(pe),
    {
        assert(w2.archs() == w1.archs());
        assert(w2.locs() == w1.locs());
        assert(w2.store() == w1.store());
        assert(w2.sigs() == w1.sigs());
        assert(w2.blocks_wf());
        assert(w2.locations_wf());
        World::lemma_pending_frame(w1, w2);
        assert forall|pe: PendingEntity| w1.placed_as(pe) implies #[trigger] w2.placed_as(pe) by {
            let h = EntityHandle(pe.entity_id);
            assert(w2.loc_of(h) == w1.loc_of(h));
            let a = w1.loc_of(h).unwrap().archetype_idx as int;
            assert forall|f: int| 0 <= f < w2.width(a) implies
                #[trigger] w2.read_spec(h, w2.archs()[a].schema_spec().field_names@[f]) == Some(default_value(pe.defaults@, f)) by {
                assert(w1.read_spec(h, w1.archs()[a].schema_spec().field_names@[f]) == Some(default_value(pe.defaults@, f)));
            }
        }
    }

    /// Emptying the queue keeps a world well formed.
    proof fn lemma_wf_empty_queue(w1: World, w2: World)
        requires
            w1.wf(),
            w2.pending() == Seq::<PendingEntity>::empty(),
            w2 == (World { pending_entities: w2.pending_entities, ..w1 }),
        ensures
            w2.wf(),
    {
        assert(w2.archs() == w1.archs());
        assert(w2.locs() == w1.locs());
        assert(w2.allocator_spec() == w1.allocator_spec());
        assert(w2.store() == w1.store());
        assert(w2.sigs() == w1.sigs());
        assert(w2.names() == w1.names());
        assert(w2.blocks_wf());
        assert(w2.locations_wf());
    }

    /// The queue stays well formed when only an unqueued, unplaced slot
    /// gains a location.
    proof fn lemma_pending_frame_locs(w1: World, w2: World, id: EntityId)
        requires
            w1.pending_wf(),
            w1.allocator_spec().is_alive_spec(id),
            forall|p: int| 0 <= p < w1.pending().len() ==> (#[trigger] w1.pending()[p]).entity_id.index != id.index,
            w2.pending() == w1.pending(),
            w2.allocator_spec() == w1.allocator_spec(),
            w2.names() == w1.names(),
            forall|q: int| 0 <= q < w2.locs().len() && q != id.index ==> #[trigger] w2.locs()[q] == if q < w1.locs().len() { w1.locs()[q] } else { None },
        ensures
            w2.pending_wf(),
    {
        assert forall|p: int| 0 <= p < w2.pending().len() implies {
            &&& (#[trigger] w2.pending()[p]).wf()
            &&& w2.allocator_spec().is_alive_spec(w2.pending()[p].entity_id)
            &&& w2.unplaced(w2.pending()[p].entity_id.index as int)
            &&& (w2.pending()[p].name.0 as int) < w2.names().names().len()
        } by {
            assert(w1.pending()[p] == w2.pending()[p]);
            let q = w1.pending()[p].entity_id.index as int;
            assert(w1.unplaced(q));
            if q < w2.locs().len() {
                assert(w2.locs()[q] == if q < w1.locs().len() { w1.locs()[q] } else { None });
            }
        }
    }

    /// The queue stays well formed when it, the locations, the allocator
    /// and the names do not change.
    proof fn lemma_pending_frame(w1: World, w2: World)
        requires
            w1.pending_wf(),
            w2.pending() == w1.pending(),
            w2.locs() == w1.locs(),
            w2.allocator_spec() == w1.allocator_spec(),
            w2.names() == w1.names(),
        ensures
            w2.pending_wf(),
    {
        assert forall|p: int| 0 <= p < w2.pending().len() implies {
            &&& (#[trigger] w2.pending()[p]).wf()
            &&& w2.allocator_spec().is_alive_spec(w2.pending()[p].entity_id)
            &&& w2.unplaced(w2.pending()[p].entity_id.index as int)
            &&& (w2.pending()[p].name.0 as int) < w2.names().names().len()
        } by {
            assert(w1.pending()[p] == w2.pending()[p]);
            assert(w1.unplaced(w1.pending()[p].entity_id.index as int));
        }
    }

    /// Two attributes of live entities share a storage position only if they
    /// are the same attribute of the same entity.
    pub proof fn lemma_pos_injective(&self, e1: EntityHandle, a1: InternedStr, e2: EntityHandle, a2: InternedStr)
        requires
            self.wf(),
            self.pos(e1, a1) is Some,
            self.pos(e1, a1) == self.pos(e2, a2),
        ensures
            e1 == e2,
            a1 == a2,
    {
        let l1 = self.loc_of(e1).unwrap();
        let l2 = self.loc_of(e2).unwrap();
        let (x1, i1) = (l1.archetype_idx as int, l1.inner_idx as int);
        let (x2, i2) = (l2.archetype_idx as int, l2.inner_idx as int);
        assert(self.locs()[e1.0.index as int] is Some);
        assert(self.locs()[e2.0.index as int] is Some);
        assert(self.is_slot(x1, i1));
        assert(self.is_slot(x2, i2));
        let s1 = self.archs()[x1].schema_spec();
        let s2 = self.archs()[x2].schema_spec();
        s1.lemma_find_spec(a1);
        s2.lemma_find_spec(a2);
        if x1 != x2 || i1 != i2 {
            assert(disjoint_blocks(
                self.archs()[x1].offset_seq()[i1].0 as int, self.width(x1),
                self.archs()[x2].offset_seq()[i2].0 as int, self.width(x2)));
            assert(false);
        }
        assert(e1.0.index == e2.0.index);
        assert(e1.0 == e2.0);
        s1.lemma_find_injective(a1, a2);
    }
}

} // verus!
