//! Entity ids, the generational allocator, archetype schemas and archetypes.

use vstd::prelude::*;
use crate::interning::InternedStr;
use crate::storage::{FieldIndex, FloatOffset};

verus! {

/// Identifier of an archetype (a group of entities sharing one schema).
#[derive(Clone, Copy, Debug, PartialEq, Eq, Structural, Hash)]
pub struct ArchetypeId(pub u32);

/// A generational entity id: a slot index plus the generation of that slot.
#[derive(Clone, Copy, Debug, PartialEq, Eq, Structural, Hash, PartialOrd, Ord)]
pub struct EntityId {
    pub index: u32,
    pub generation: u32,
}

impl EntityId {
    pub fn new(index: u32, generation: u32) -> (id: Self)
        ensures
            id.index == index,
            id.generation == generation,
    {
        EntityId { index, generation }
    }
}


/// Generational allocator of entity ids.
///
/// Slot `i` carries a generation and an alive bit; a freed slot is pushed on a
/// free list and handed out again, under its bumped generation, by the next
/// allocation.
pub struct EntityAllocator {
    next_index: u32,
    generations: Vec<u32>,
    alive_bits: Vec<bool>,
    free_list: Vec<u32>,
}

impl EntityAllocator {
    /// Generation of every slot handed out so far, by slot index.
    pub closed spec fn gens(&self) -> Seq<u32> {
        self.generations@
    }

    /// Alive bit of every slot handed out so far, by slot index.
    pub closed spec fn alive(&self) -> Seq<bool> {
        self.alive_bits@
    }

    /// Free list, last entry handed out first.
    pub closed spec fn free(&self) -> Seq<u32> {
        self.free_list@
    }

    /// Number of slots handed out so far (the next fresh index).
    pub closed spec fn next(&self) -> nat {
        self.next_index as nat
    }

    pub open spec fn wf(&self) -> bool {
        &&& self.gens().len() == self.next()
        &&& self.alive().len() == self.next()
        &&& forall|i: int| 0 <= i < self.free().len() ==> (#[trigger] self.free()[i]) < self.next()
    }

    /// Whether `id` names a live slot under its current generation.
    pub open spec fn is_alive_spec(&self, id: EntityId) -> bool {
        &&& (id.index as int) < self.gens().len()
        &&& self.gens()[id.index as int] == id.generation
        &&& self.alive()[id.index as int]
    }

    /// Generation of a slot, 0 for a slot never handed out.
    pub open spec fn generation_spec(&self, index: u32) -> u32 {
        if (index as int) < self.gens().len() { self.gens()[index as int] } else { 0 }
    }

    /// What `allocate` does: reuse the last free slot, else open a fresh one.
    pub open spec fn allocate_post(old: Self, new: Self, id: EntityId) -> bool {
        if old.free().len() > 0 {
            let index = old.free().last();
            &&& id.index == index
            &&& id.generation == old.gens()[index as int]
            &&& new.free() == old.free().drop_last()
            &&& new.gens() == old.gens()
            &&& new.alive() == old.alive().update(index as int, true)
            &&& new.next() == old.next()
        } else {
            &&& id.index as nat == old.next()
            &&& id.generation == 0
            &&& new.free() == old.free()
            &&& new.gens() == old.gens().push(0)
            &&& new.alive() == old.alive().push(true)
            &&& new.next() == old.next() + 1
        }
    }

    /// Every free slot is dead and listed once.
    pub open spec fn free_ok(&self) -> bool {
        &&& forall|i: int| 0 <= i < self.free().len() ==> !self.alive()[#[trigger] self.free()[i] as int]
        &&& forall|i: int, j: int| 0 <= i < j < self.free().len() ==> #[trigger] self.free()[i] != #[trigger] self.free()[j]
    }

    /// From a well-formed allocator whose free slots are dead and listed
    /// once, `allocate` hands out an id that was not alive and is alive
    /// afterwards, and the free slots stay dead and listed once.
    pub proof fn law_allocate_gives_a_dead_id(a1: Self, a2: Self, id: EntityId)
        requires
            a1.wf(),
            a1.free_ok(),
            Self::allocate_post(a1, a2, id),
        ensures
            !a1.is_alive_spec(id),
            a2.is_alive_spec(id),
            a2.wf(),
            a2.free_ok(),
    {
        if a1.free().len() > 0 {
            let last = a1.free().len() - 1;
            assert(a1.free()[last] == a1.free().last());
            assert(!a1.alive()[a1.free()[last] as int]);
            assert forall|i: int| 0 <= i < a2.free().len() implies !a2.alive()[#[trigger] a2.free()[i] as int] by {
                assert(a2.free()[i] == a1.free()[i]);
                assert(a1.free()[i] != a1.free()[last]);
            }
            assert forall|i: int, j: int| 0 <= i < j < a2.free().len() implies #[trigger] a2.free()[i] != #[trigger] a2.free()[j] by {
                assert(a2.free()[i] == a1.free()[i]);
                assert(a2.free()[j] == a1.free()[j]);
            }
        } else {
            assert forall|i: int| 0 <= i < a2.free().len() implies !a2.alive()[#[trigger] a2.free()[i] as int] by {
                assert(a1.free()[i] < a1.next());
            }
        }
    }

    /// Freeing a live id keeps the free slots dead and listed once; the id
    /// is dead afterwards. (Freeing an id twice lists its slot twice.)
    pub proof fn law_deallocate_keeps_free_slots_dead(a1: Self, a2: Self, id: EntityId)
        requires
            a1.wf(),
            a1.free_ok(),
            a1.is_alive_spec(id),
            Self::deallocate_post(a1, a2, id),
        ensures
            !a2.is_alive_spec(id),
            a2.free_ok(),
    {
        let k = id.index;
        assert forall|i: int| 0 <= i < a1.free().len() implies #[trigger] a1.free()[i] != k by {
            assert(!a1.alive()[a1.free()[i] as int]);
        }
        assert forall|i: int| 0 <= i < a2.free().len() implies !a2.alive()[#[trigger] a2.free()[i] as int] by {
            if i < a1.free().len() {
                assert(a2.free()[i] == a1.free()[i]);
            }
        }
        assert forall|i: int, j: int| 0 <= i < j < a2.free().len() implies #[trigger] a2.free()[i] != #[trigger] a2.free()[j] by {
            assert(a2.free()[i] == a1.free()[i]);
            if j < a1.free().len() {
                assert(a2.free()[j] == a1.free()[j]);
            }
        }
    }

    /// What `deallocate` does: for a known slot, bump its generation, clear its
    /// alive bit and push it on the free list; otherwise nothing.
    /// The slot freed last is the next one handed out, one generation on
    /// (the generation wraps at `u32::MAX`).
    pub proof fn law_freed_slot_comes_back_next(a1: Self, a2: Self, a3: Self, id: EntityId, next: EntityId)
        requires
            a1.is_alive_spec(id),
            Self::deallocate_post(a1, a2, id),
            Self::allocate_post(a2, a3, next),
        ensures
            next.index == id.index,
            next.generation == (id.generation + 1) as u32,
    {
        assert(a2.free().last() == id.index);
    }

    pub open spec fn deallocate_post(old: Self, new: Self, id: EntityId) -> bool {
        if (id.index as int) < old.gens().len() {
            &&& new.gens() == old.gens().update(id.index as int, (old.gens()[id.index as int] + 1) as u32)
            &&& new.alive() == old.alive().update(id.index as int, false)
            &&& new.free() == old.free().push(id.index)
            &&& new.next() == old.next()
        } else {
            new == old
        }
    }

    pub fn new() -> (a: Self)
        ensures
            a.wf(),
            a.gens() == Seq::<u32>::empty(),
            a.alive() == Seq::<bool>::empty(),
            a.free() == Seq::<u32>::empty(),
            a.next() == 0,
    {
        EntityAllocator {
            next_index: 0,
            generations: Vec::new(),
            alive_bits: Vec::new(),
            free_list: Vec::new(),
        }
    }

    /// Hands out an id: the most recently freed slot under its current
    /// generation, or else a fresh slot with generation 0.
    pub fn allocate(&mut self) -> (id: EntityId)
        requires
            old(self).wf(),
            old(self).free().len() == 0 ==> old(self).next() < u32::MAX,
        ensures
            final(self).wf(),
            Self::allocate_post(*old(self), *final(self), id),
            final(self).is_alive_spec(id),
    {
        match self.free_list.pop() {
            Some(index) => {
                self.alive_bits.set(index as usize, true);
                EntityId::new(index, self.generations[index as usize])
            },
            None => {
                let index = self.next_index;
                self.next_index = self.next_index + 1;
                let idx = index as usize;
                if self.generations.len() <= idx {
                    self.generations.resize(idx + 1, 0);
                    self.alive_bits.resize(idx + 1, false);
                }
                self.alive_bits.set(idx, true);
                proof {
                    assert(self.generations@ =~= old(self).generations@.push(0));
                    assert(self.alive_bits@ =~= old(self).alive_bits@.push(true));
                }
                EntityId::new(index, 0)
            },
        }
    }

    /// Frees the slot of `id`: its generation is bumped, so every id issued
    /// for it before is stale from now on.
    pub fn deallocate(&mut self, id: EntityId)
        requires
            old(self).wf(),
            (id.index as int) < old(self).gens().len() ==> old(self).gens()[id.index as int] < u32::MAX,
        ensures
            final(self).wf(),
            Self::deallocate_post(*old(self), *final(self), id),
    {
        let idx = id.index as usize;
        if idx < self.generations.len() {
            let g = self.generations[idx];
            self.generations.set(idx, g + 1);
            self.alive_bits.set(idx, false);
            self.free_list.push(id.index);
            proof {
                assert forall|i: int| 0 <= i < self.free().len() implies (#[trigger] self.free()[i]) < self.next() by {
                    if i < old(self).free().len() {
                        assert(old(self).free()[i] == self.free()[i]);
                    }
                }
            }
        }
    }

    pub fn is_alive(&self, id: EntityId) -> (b: bool)
        requires
            self.wf(),
        ensures
            b == self.is_alive_spec(id),
    {
        let idx = id.index as usize;
        idx < self.generations.len() && self.generations[idx] == id.generation && self.alive_bits[idx]
    }

    pub fn generation_of(&self, index: u32) -> (g: u32)
        requires
            self.wf(),
        ensures
            g == self.generation_spec(index),
    {
        let idx = index as usize;
        if idx < self.generations.len() {
            self.generations[idx]
        } else {
            0
        }
    }

    /// Whether `allocate` has an id to hand out.
    pub fn can_allocate(&self) -> (b: bool)
        ensures
            b == (self.free().len() > 0 || self.next() < u32::MAX),
    {
        self.free_list.len() > 0 || self.next_index < u32::MAX
    }

    pub fn is_alive_index(&self, index: u32) -> (b: bool)
        requires
            self.wf(),
        ensures
            b == ((index as int) < self.alive().len() && self.alive()[index as int]),
    {
        let idx = index as usize;
        idx < self.alive_bits.len() && self.alive_bits[idx]
    }
}


/// Whether no name occurs twice in `s`.
pub open spec fn distinct_names(s: Seq<InternedStr>) -> bool {
    forall|i: int, j: int| 0 <= i < s.len() && 0 <= j < s.len() && i != j ==> s[i] != s[j]
}

/// Whether `s` is strictly ascending by id.
pub open spec fn strictly_sorted(s: Seq<InternedStr>) -> bool {
    forall|i: int, j: int| 0 <= i < j < s.len() ==> s[i].0 < s[j].0
}

/// The attribute layout shared by the entities of an archetype: field `i`
/// is the `i`-th name added.
#[derive(Clone, Debug)]
pub struct ArchetypeSchema {
    pub field_names: Vec<InternedStr>,
    pub floats_per_entity: u16,
    pub ints_per_entity: u16,
}

impl ArchetypeSchema {
    pub open spec fn wf(&self) -> bool {
        &&& distinct_names(self.field_names@)
        &&& self.field_names@.len() == self.floats_per_entity as nat
    }

    /// Field index of `name`, if the schema has it.
    pub open spec fn find_spec(&self, name: InternedStr) -> Option<FieldIndex> {
        if self.field_names@.contains(name) {
            Some(FieldIndex(self.field_names@.index_of(name) as u16))
        } else {
            None
        }
    }

    /// A found field is in range and names `name`.
    pub proof fn lemma_find_spec(&self, name: InternedStr)
        requires
            self.wf(),
            self.find_spec(name) is Some,
        ensures
            (self.find_spec(name).unwrap().0 as int) < self.field_names@.len(),
            self.field_names@[self.find_spec(name).unwrap().0 as int] == name,
            (self.find_spec(name).unwrap().0 as int) < self.floats_per_entity,
    {
        let fl = self.field_names@;
        let k = choose|k: int| 0 <= k < fl.len() && fl[k] == name;
        assert(fl[k] == name);
        let i = fl.index_of(name);
        assert(0 <= i < fl.len() && fl[i] == name);
    }

    /// The name of field `f` is found at `f`.
    pub proof fn lemma_find_at(&self, f: int)
        requires
            self.wf(),
            0 <= f < self.field_names@.len(),
        ensures
            self.find_spec(self.field_names@[f]) == Some(FieldIndex(f as u16)),
    {
        let fl = self.field_names@;
        assert(fl.contains(fl[f]));
        let i = fl.index_of(fl[f]);
        assert(0 <= i < fl.len() && fl[i] == fl[f]);
        assert(i == f);
    }

    /// Distinct found names have distinct fields.
    pub proof fn lemma_find_injective(&self, a: InternedStr, b: InternedStr)
        requires
            self.wf(),
            self.find_spec(a) is Some,
            self.find_spec(a) == self.find_spec(b),
        ensures
            a == b,
    {
        self.lemma_find_spec(a);
        self.lemma_find_spec(b);
    }

    pub fn new() -> (s: Self)
        ensures
            s.wf(),
            s.field_names@ == Seq::<InternedStr>::empty(),
            s.ints_per_entity == 0,
    {
        ArchetypeSchema { field_names: Vec::new(), floats_per_entity: 0, ints_per_entity: 0 }
    }

    /// Adds a float field `name` unless present; returns its index.
    pub fn add_float(&mut self, name: InternedStr) -> (idx: FieldIndex)
        requires
            old(self).wf(),
            !old(self).field_names@.contains(name) ==> old(self).floats_per_entity < u16::MAX,
        ensures
            final(self).wf(),
            final(self).ints_per_entity == old(self).ints_per_entity,
            old(self).field_names@.contains(name) ==> final(self).field_names@ == old(self).field_names@,
            !old(self).field_names@.contains(name) ==> final(self).field_names@ == old(self).field_names@.push(name),
            final(self).find_spec(name) == Some(idx),
    {
        if let Some(idx) = self.find_field(name) {
            return idx;
        }
        let idx = FieldIndex(self.floats_per_entity);
        self.field_names.push(name);
        self.floats_per_entity = self.floats_per_entity + 1;
        proof {
            assert(self.field_names@[idx.0 as int] == name);
            assert(self.field_names@.contains(name));
            let k = self.field_names@.index_of(name);
            assert(self.field_names@[k] == name);
            assert(k == idx.0 as int);
        }
        idx
    }

    /// Field index of `name`, if the schema has it.
    pub fn find_field(&self, name: InternedStr) -> (r: Option<FieldIndex>)
        requires
            self.wf(),
        ensures
            r == self.find_spec(name),
            r matches Some(f) ==> (f.0 as int) < self.field_names@.len() && self.field_names@[f.0 as int] == name,
    {
        let n = self.field_names.len();
        let mut i: usize = 0;
        while i < n
            invariant
                n == self.field_names@.len(),
                i <= n,
                self.wf(),
                forall|j: int| 0 <= j < i ==> self.field_names@[j] != name,
            decreases n - i,
        {
            if self.field_names[i].0 == name.0 {
                proof {
                    assert(self.field_names@[i as int] == name);
                    assert(self.field_names@.contains(name));
                    let k = self.field_names@.index_of(name);
                    assert(self.field_names@[k] == name);
                    assert(k == i as int);
                }
                return Some(FieldIndex(i as u16));
            }
            i = i + 1;
        }
        None
    }

    /// A field-by-field copy.
    pub fn copy(&self) -> (r: Self)
        ensures
            r.field_names@ == self.field_names@,
            r.floats_per_entity == self.floats_per_entity,
            r.ints_per_entity == self.ints_per_entity,
    {
        let mut names: Vec<InternedStr> = Vec::new();
        let n = self.field_names.len();
        let mut i: usize = 0;
        while i < n
            invariant
                n == self.field_names@.len(),
                i <= n,
                names@ == self.field_names@.subrange(0, i as int),
            decreases n - i,
        {
            names.push(self.field_names[i]);
            i = i + 1;
            proof {
                assert(names@ =~= self.field_names@.subrange(0, i as int));
            }
        }
        proof {
            assert(names@ =~= self.field_names@);
        }
        ArchetypeSchema {
            field_names: names,
            floats_per_entity: self.floats_per_entity,
            ints_per_entity: self.ints_per_entity,
        }
    }

    /// Whether the schema has a field `name`.
    pub fn has_field(&self, name: InternedStr) -> (b: bool)
        requires
            self.wf(),
        ensures
            b == self.field_names@.contains(name),
    {
        self.find_field(name).is_some()
    }

    /// The field names in ascending order of id: the key under which
    /// archetypes with the same fields are found again.
    pub fn signature(&self) -> (sig: Vec<InternedStr>)
        requires
            self.wf(),
        ensures
            strictly_sorted(sig@),
            sig@.len() == self.field_names@.len(),
            forall|x: InternedStr| sig@.contains(x) <==> self.field_names@.contains(x),
    {
        let mut sig: Vec<InternedStr> = Vec::new();
        let n = self.field_names.len();
        let mut i: usize = 0;
        while i < n
            invariant
                n == self.field_names@.len(),
                i <= n,
                self.wf(),
                sig@.len() == i,
                strictly_sorted(sig@),
                forall|x: InternedStr| sig@.contains(x) <==> self.field_names@.subrange(0, i as int).contains(x),
            decreases n - i,
        {
            let x = self.field_names[i];
            let mut p: usize = 0;
            while p < sig.len() && sig[p].0 < x.0
                invariant
                    p <= sig@.len(),
                    forall|j: int| 0 <= j < p ==> sig@[j].0 < x.0,
                decreases sig@.len() - p,
            {
                p = p + 1;
            }
            proof {
                assert(!self.field_names@.subrange(0, i as int).contains(x)) by {
                    if self.field_names@.subrange(0, i as int).contains(x) {
                        let j = choose|j: int| 0 <= j < i && self.field_names@.subrange(0, i as int)[j] == x;
                        assert(self.field_names@[j] == self.field_names@[i as int]);
                    }
                }
                assert(!sig@.contains(x));
                if p < sig@.len() {
                    assert(sig@[p as int].0 != x.0) by {
                        if sig@[p as int].0 == x.0 {
                            assert(sig@[p as int] == x);
                        }
                    }
                }
            }
            let ghost old_sig = sig@;
            let ghost pre = self.field_names@.subrange(0, i as int);
            let ghost pre1 = self.field_names@.subrange(0, i + 1);
            sig.insert(p, x);
            proof {
                assert forall|a: int, b: int| 0 <= a < b < sig@.len() implies sig@[a].0 < sig@[b].0 by {
                    if b < p {
                    } else if b == p {
                    } else if a < p {
                        assert(sig@[b] == old_sig[b - 1]);
                        if p < old_sig.len() {
                            assert(old_sig[p as int].0 <= old_sig[b - 1].0);
                        }
                    } else if a == p {
                        assert(sig@[b] == old_sig[b - 1]);
                        assert(old_sig[p as int].0 <= old_sig[b - 1].0);
                    } else {
                        assert(sig@[a] == old_sig[a - 1]);
                        assert(sig@[b] == old_sig[b - 1]);
                    }
                }
                assert forall|y: InternedStr| sig@.contains(y) <==> pre1.contains(y) by {
                    if sig@.contains(y) {
                        let k = choose|k: int| 0 <= k < sig@.len() && sig@[k] == y;
                        if k == p {
                            assert(pre1[i as int] == y);
                        } else if k < p {
                            assert(old_sig[k] == y);
                            assert(old_sig.contains(y));
                            let m = choose|m: int| 0 <= m < i && pre[m] == y;
                            assert(pre1[m] == y);
                        } else {
                            assert(old_sig[k - 1] == y);
                            assert(old_sig.contains(y));
                            let m = choose|m: int| 0 <= m < i && pre[m] == y;
                            assert(pre1[m] == y);
                        }
                    }
                    if pre1.contains(y) {
                        let m = choose|m: int| 0 <= m < i + 1 && pre1[m] == y;
                        if m == i {
                            assert(sig@[p as int] == y);
                        } else {
                            assert(pre[m] == y);
                            assert(old_sig.contains(y));
                            let k = choose|k: int| 0 <= k < old_sig.len() && old_sig[k] == y;
                            if k < p {
                                assert(sig@[k] == y);
                            } else {
                                assert(sig@[k + 1] == y);
                            }
                        }
                    }
                }
            }
            i = i + 1;
        }
        proof {
            assert(self.field_names@.subrange(0, n as int) =~= self.field_names@);
        }
        sig
    }
}


/// One live slot of an archetype: slot position, entity, float block.
pub type AliveEntry = (usize, EntityId, FloatOffset);

/// A group of entities sharing one schema; freed slots are reused.
pub struct Archetype {
    id: ArchetypeId,
    schema: ArchetypeSchema,
    entities: Vec<EntityId>,
    float_offsets: Vec<FloatOffset>,
    resonator_types: Vec<String>,
    name: String,
    alive: Vec<bool>,
    free_indices: Vec<usize>,
}

impl Archetype {
    pub closed spec fn id_spec(&self) -> ArchetypeId {
        self.id
    }

    pub closed spec fn schema_spec(&self) -> ArchetypeSchema {
        self.schema
    }

    pub closed spec fn name_spec(&self) -> Seq<char> {
        self.name@
    }

    /// Entity of each slot.
    pub closed spec fn entity_seq(&self) -> Seq<EntityId> {
        self.entities@
    }

    /// Float block of each slot.
    pub closed spec fn offset_seq(&self) -> Seq<FloatOffset> {
        self.float_offsets@
    }

    /// Alive bit of each slot.
    pub closed spec fn alive_seq(&self) -> Seq<bool> {
        self.alive@
    }

    /// Freed slots, the last one reused first.
    pub closed spec fn free_seq(&self) -> Seq<usize> {
        self.free_indices@
    }

    /// Resonator type names attached to this archetype.
    pub closed spec fn resonator_types_spec(&self) -> Seq<Seq<char>> {
        self.resonator_types@.map_values(|s: String| s@)
    }

    pub open spec fn wf(&self) -> bool {
        &&& self.schema_spec().wf()
        &&& self.offset_seq().len() == self.entity_seq().len()
        &&& self.alive_seq().len() == self.entity_seq().len()
        &&& self.entity_seq().len() <= usize::MAX
        &&& self.free_wf()
    }

    /// Any vector's length fits in `usize`.
    /// Entry `q` of the live slots among the first `k` is a live slot below
    /// `k`, with that slot's id and block.
    pub proof fn lemma_alive_entry(&self, k: int, q: int)
        requires
            self.wf(),
            0 <= k <= self.slot_count_spec(),
            0 <= q < self.alive_prefix(k).len(),
        ensures
            0 <= self.alive_prefix(k)[q].0 < k,
            self.alive_seq()[self.alive_prefix(k)[q].0 as int],
            self.alive_prefix(k)[q].1 == self.entity_seq()[self.alive_prefix(k)[q].0 as int],
            self.alive_prefix(k)[q].2 == self.offset_seq()[self.alive_prefix(k)[q].0 as int],
        decreases k,
    {
        if k > 0 {
            let rest = self.alive_prefix(k - 1);
            if q < rest.len() {
                self.lemma_alive_entry(k - 1, q);
            }
        }
    }

    /// The free list holds each dead slot exactly once and nothing else.
    pub closed spec fn free_wf(&self) -> bool {
        &&& self.float_offsets@.len() == self.entities@.len()
        &&& self.alive@.len() == self.entities@.len()
        &&& forall|k: int| 0 <= k < self.free_indices@.len() ==> {
            &&& (#[trigger] self.free_indices@[k]) < self.entities@.len()
            &&& !self.alive@[self.free_indices@[k] as int]
        }
        &&& forall|k1: int, k2: int| 0 <= k1 < k2 < self.free_indices@.len()
            ==> self.free_indices@[k1] != self.free_indices@[k2]
        &&& forall|i: int| 0 <= i < self.alive@.len() && !(#[trigger] self.alive@[i])
            ==> self.free_indices@.contains(i as usize)
    }

    /// Same id, schema, name and slots as `other`.
    pub open spec fn same_slots(&self, other: Self) -> bool {
        &&& self.id_spec() == other.id_spec()
        &&& self.schema_spec() == other.schema_spec()
        &&& self.name_spec() == other.name_spec()
        &&& self.entity_seq() == other.entity_seq()
        &&& self.offset_seq() == other.offset_seq()
        &&& self.alive_seq() == other.alive_seq()
        &&& self.free_seq() == other.free_seq()
    }

    pub open spec fn slot_count_spec(&self) -> nat {
        self.entity_seq().len()
    }

    /// Whether slot `i` is live.
    pub open spec fn is_alive_spec(&self, i: int) -> bool {
        0 <= i < self.alive_seq().len() && self.alive_seq()[i]
    }

    /// The live slots among the first `k`, in slot order.
    pub open spec fn alive_prefix(&self, k: int) -> Seq<AliveEntry>
        decreases k,
    {
        if k <= 0 {
            Seq::empty()
        } else {
            let rest = self.alive_prefix(k - 1);
            if self.alive_seq()[k - 1] {
                rest.push(((k - 1) as usize, self.entity_seq()[k - 1], self.offset_seq()[k - 1]))
            } else {
                rest
            }
        }
    }

    /// The live slots in slot order.
    pub open spec fn alive_entries_spec(&self) -> Seq<AliveEntry> {
        self.alive_prefix(self.slot_count_spec() as int)
    }

    pub fn new(id: ArchetypeId, schema: ArchetypeSchema, name: String) -> (a: Self)
        requires
            schema.wf(),
        ensures
            a.wf(),
            a.id_spec() == id,
            a.schema_spec() == schema,
            a.name_spec() == name@,
            a.entity_seq() == Seq::<EntityId>::empty(),
            a.free_seq() == Seq::<usize>::empty(),
            a.resonator_types_spec() == Seq::<Seq<char>>::empty(),
    {
        let a = Archetype {
            id,
            schema,
            entities: Vec::new(),
            float_offsets: Vec::new(),
            resonator_types: Vec::new(),
            name,
            alive: Vec::new(),
            free_indices: Vec::new(),
        };
        proof {
            assert(a.resonator_types_spec() =~= Seq::<Seq<char>>::empty());
        }
        a
    }

    /// Puts an entity in the most recently freed slot, or in a new slot at
    /// the end; returns the slot.
    pub fn add_entity(&mut self, entity_id: EntityId, float_offset: FloatOffset) -> (idx: usize)
        requires
            old(self).wf(),
            old(self).slot_count_spec() < usize::MAX,
        ensures
            final(self).wf(),
            final(self).id_spec() == old(self).id_spec(),
            final(self).schema_spec() == old(self).schema_spec(),
            final(self).name_spec() == old(self).name_spec(),
            final(self).resonator_types_spec() == old(self).resonator_types_spec(),
            old(self).free_seq().len() > 0 ==> idx == old(self).free_seq().last()
                && final(self).free_seq() == old(self).free_seq().drop_last()
                && final(self).slot_count_spec() == old(self).slot_count_spec(),
            old(self).free_seq().len() == 0 ==> idx == old(self).slot_count_spec()
                && final(self).free_seq() == old(self).free_seq()
                && final(self).slot_count_spec() == old(self).slot_count_spec() + 1,
            (idx as int) < final(self).slot_count_spec(),
            final(self).entity_seq() == old(self).entity_seq().update(idx as int, entity_id)
                || final(self).entity_seq() == old(self).entity_seq().push(entity_id),
            final(self).entity_seq()[idx as int] == entity_id,
            final(self).offset_seq()[idx as int] == float_offset,
            final(self).alive_seq()[idx as int],
            !old(self).is_alive_spec(idx as int),
            forall|i: int| 0 <= i < old(self).slot_count_spec() && i != idx ==> {
                &&& final(self).entity_seq()[i] == old(self).entity_seq()[i]
                &&& final(self).offset_seq()[i] == old(self).offset_seq()[i]
                &&& final(self).alive_seq()[i] == old(self).alive_seq()[i]
            },
    {
        match self.free_indices.pop() {
            Some(reuse_idx) => {
                proof {
                    let k = (old(self).free_indices@.len() - 1) as int;
                    assert(old(self).free_indices@[k] == reuse_idx);
                }
                self.entities.set(reuse_idx, entity_id);
                self.float_offsets.set(reuse_idx, float_offset);
                self.alive.set(reuse_idx, true);
                proof {
                    let of = old(self).free_indices@;
                    assert forall|i: int| 0 <= i < self.alive@.len() && !(#[trigger] self.alive@[i])
                        implies self.free_indices@.contains(i as usize) by {
                        assert(i != reuse_idx as int);
                        assert(of.contains(i as usize));
                        let k = choose|k: int| 0 <= k < of.len() && of[k] == i as usize;
                        assert(k != of.len() - 1);
                        assert(self.free_indices@[k] == i as usize);
                    }
                    assert forall|k: int| 0 <= k < self.free_indices@.len() implies
                        (#[trigger] self.free_indices@[k]) < self.entities@.len()
                        && !self.alive@[self.free_indices@[k] as int] by {
                        assert(of[k] != of[of.len() - 1]);
                    }
                }
                reuse_idx
            },
            None => {
                let idx = self.entities.len();
                self.entities.push(entity_id);
                self.float_offsets.push(float_offset);
                self.alive.push(true);
                proof {
                    assert forall|i: int| 0 <= i < self.alive@.len() && !(#[trigger] self.alive@[i])
                        implies self.free_indices@.contains(i as usize) by {
                        assert(i != idx as int);
                        assert(!old(self).alive@[i]);
                    }
                }
                idx
            },
        }
    }

    /// Frees a live slot; returns whether `inner_idx` was live.
    pub fn remove_entity(&mut self, inner_idx: usize) -> (removed: bool)
        requires
            old(self).wf(),
        ensures
            final(self).wf(),
            removed == old(self).is_alive_spec(inner_idx as int),
            final(self).id_spec() == old(self).id_spec(),
            final(self).schema_spec() == old(self).schema_spec(),
            final(self).name_spec() == old(self).name_spec(),
            final(self).resonator_types_spec() == old(self).resonator_types_spec(),
            final(self).entity_seq() == old(self).entity_seq(),
            final(self).offset_seq() == old(self).offset_seq(),
            removed ==> final(self).alive_seq() == old(self).alive_seq().update(inner_idx as int, false)
                && final(self).free_seq() == old(self).free_seq().push(inner_idx),
            !removed ==> final(self).alive_seq() == old(self).alive_seq()
                && final(self).free_seq() == old(self).free_seq(),
    {
        if inner_idx < self.alive.len() && self.alive[inner_idx] {
            self.alive.set(inner_idx, false);
            self.free_indices.push(inner_idx);
            proof {
                let of = old(self).free_indices@;
                assert forall|k: int| 0 <= k < of.len() implies of[k] != inner_idx by {
                    assert(!old(self).alive@[of[k] as int]);
                }
                assert forall|i: int| 0 <= i < self.alive@.len() && !(#[trigger] self.alive@[i])
                    implies self.free_indices@.contains(i as usize) by {
                    if i == inner_idx as int {
                        assert(self.free_indices@[of.len() as int] == inner_idx);
                    } else {
                        assert(of.contains(i as usize));
                        let k = choose|k: int| 0 <= k < of.len() && of[k] == i as usize;
                        assert(self.free_indices@[k] == i as usize);
                    }
                }
            }
            true
        } else {
            false
        }
    }

    /// The live slots in slot order: (slot, entity, float block).
    pub fn alive_entries(&self) -> (r: Vec<AliveEntry>)
        requires
            self.wf(),
        ensures
            r@ == self.alive_entries_spec(),
    {
        let mut r: Vec<AliveEntry> = Vec::new();
        let n = self.entities.len();
        let mut i: usize = 0;
        while i < n
            invariant
                self.wf(),
                n == self.entities@.len(),
                i <= n,
                r@ == self.alive_prefix(i as int),
            decreases n - i,
        {
            if self.alive[i] {
                r.push((i, self.entities[i], self.float_offsets[i]));
            }
            i = i + 1;
        }
        r
    }

    /// Number of live slots.
    pub fn alive_count(&self) -> (c: usize)
        requires
            self.wf(),
        ensures
            c == self.alive_entries_spec().len(),
    {
        let n = self.entities.len();
        let mut c: usize = 0;
        let mut i: usize = 0;
        while i < n
            invariant
                self.wf(),
                n == self.entities@.len(),
                i <= n,
                c == self.alive_prefix(i as int).len(),
                c <= i,
            decreases n - i,
        {
            if self.alive[i] {
                c = c + 1;
            }
            i = i + 1;
        }
        c
    }

    /// Number of slots, live or freed.
    pub fn total_slots(&self) -> (n: usize)
        ensures
            n == self.slot_count_spec(),
    {
        self.entities.len()
    }

    pub fn is_alive(&self, inner_idx: usize) -> (b: bool)
        ensures
            b == self.is_alive_spec(inner_idx as int),
    {
        inner_idx < self.alive.len() && self.alive[inner_idx]
    }

    /// The live slots in slot order as (float block, entity) pairs.
    pub fn collect_alive_batch(&self) -> (r: Vec<(FloatOffset, EntityId)>)
        requires
            self.wf(),
        ensures
            r@ == self.alive_entries_spec().map_values(|e: AliveEntry| (e.2, e.1)),
    {
        let entries = self.alive_entries();
        let mut r: Vec<(FloatOffset, EntityId)> = Vec::new();
        let n = entries.len();
        let mut i: usize = 0;
        while i < n
            invariant
                n == entries@.len(),
                i <= n,
                r@ == entries@.subrange(0, i as int).map_values(|e: AliveEntry| (e.2, e.1)),
            decreases n - i,
        {
            let (_, eid, off) = entries[i];
            r.push((off, eid));
            i = i + 1;
            proof {
                assert(r@ =~= entries@.subrange(0, i as int).map_values(|e: AliveEntry| (e.2, e.1)));
            }
        }
        proof {
            assert(entries@.subrange(0, n as int) =~= entries@);
        }
        r
    }

    pub fn id(&self) -> (r: ArchetypeId)
        ensures
            r == self.id_spec(),
    {
        self.id
    }

    pub fn schema(&self) -> (r: &ArchetypeSchema)
        ensures
            *r == self.schema_spec(),
    {
        &self.schema
    }

    pub fn name(&self) -> (r: &str)
        ensures
            r@ == self.name_spec(),
    {
        self.name.as_str()
    }

    /// Entity in slot `i`.
    pub fn entity_at(&self, i: usize) -> (e: EntityId)
        requires
            (i as int) < self.slot_count_spec(),
            self.wf(),
        ensures
            e == self.entity_seq()[i as int],
    {
        self.entities[i]
    }

    /// Float block of slot `i`.
    pub fn offset_at(&self, i: usize) -> (o: FloatOffset)
        requires
            (i as int) < self.slot_count_spec(),
            self.wf(),
        ensures
            o == self.offset_seq()[i as int],
    {
        self.float_offsets[i]
    }

    /// Number of resonator types attached.
    pub fn resonator_count(&self) -> (n: usize)
        ensures
            n == self.resonator_types_spec().len(),
    {
        self.resonator_types.len()
    }

    /// The resonator type names attached, in order.
    pub fn resonator_types(&self) -> (r: &Vec<String>)
        ensures
            r@.map_values(|s: String| s@) == self.resonator_types_spec(),
    {
        &self.resonator_types
    }

    /// Attaches a resonator type name.
    pub fn push_resonator_type(&mut self, name: String)
        requires
            old(self).wf(),
        ensures
            final(self).wf(),
            final(self).resonator_types_spec() == old(self).resonator_types_spec().push(name@),
            final(self).id_spec() == old(self).id_spec(),
            final(self).schema_spec() == old(self).schema_spec(),
            final(self).name_spec() == old(self).name_spec(),
            final(self).entity_seq() == old(self).entity_seq(),
            final(self).offset_seq() == old(self).offset_seq(),
            final(self).alive_seq() == old(self).alive_seq(),
            final(self).free_seq() == old(self).free_seq(),
    {
        self.resonator_types.push(name);
        proof {
            assert(self.resonator_types_spec() =~= old(self).resonator_types_spec().push(name@));
        }
    }
}

} // verus!
