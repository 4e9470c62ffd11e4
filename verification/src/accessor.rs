//! Cached attribute positions with generation checks.

use vstd::prelude::*;
use crate::archetype::EntityId;
use crate::entity::EntityHandle;
use crate::typed_attrs::TypedAttr;
use crate::world::World;

verus! {

/// A resolved absolute float position, with the entity it belongs to.
#[derive(Clone, Copy, Debug, PartialEq, Eq, Structural)]
pub struct AttrOffset {
    pub offset: usize,
    pub generation: u32,
    pub entity_index: u32,
}

impl AttrOffset {
    pub fn new(offset: usize, generation: u32, entity_index: u32) -> (a: Self)
        ensures
            a == (AttrOffset { offset, generation, entity_index }),
    {
        AttrOffset { offset, generation, entity_index }
    }

    /// The entity this position was resolved for.
    pub open spec fn entity_spec(&self) -> EntityId {
        EntityId { index: self.entity_index, generation: self.generation }
    }

    /// Whether the entity is still alive with the same generation.
    pub fn validate(&self, world: &World) -> (b: bool)
        requires
            world.wf(),
        ensures
            b == world.allocator_spec().is_alive_spec(self.entity_spec()),
    {
        world.is_alive(EntityHandle(EntityId { index: self.entity_index, generation: self.generation }))
    }
}

/// Position of the attribute named `name` of `entity`, with the entity's id.
pub open spec fn offset_of(world: World, entity: EntityHandle, name: Seq<char>) -> AttrOffset {
    AttrOffset {
        offset: world.attr_pos(entity, name).unwrap() as usize,
        generation: entity.0.generation,
        entity_index: entity.0.index,
    }
}

/// The position resolved for attribute `name` of `entity` holds what
/// `World::read` gives for it, so an accessor slot reads the entity's
/// current value while the layout stays as it was.
pub proof fn law_resolved_position_reads_as_read(world: World, entity: EntityHandle, name: Seq<char>)
    requires
        world.wf(),
        world.attr_pos(entity, name) is Some,
    ensures
        world.read_spec(entity, world.names().find_spec(name).unwrap())
            == Some(world.read_abs_spec(offset_of(world, entity, name).offset as int)),
{
    let id = world.names().find_spec(name).unwrap();
    let loc = world.loc_of(entity).unwrap();
    assert(world.is_slot(loc.archetype_idx as int, loc.inner_idx as int));
    world.archs()[loc.archetype_idx as int].schema_spec().lemma_find_spec(id);
}

/// Positions of several attributes of one entity, resolved once.
pub struct EntityAccessor {
    layout_version: u64,
    offsets: Vec<AttrOffset>,
}

impl EntityAccessor {
    pub closed spec fn offsets_spec(&self) -> Seq<AttrOffset> {
        self.offsets@
    }

    pub closed spec fn layout_version_spec(&self) -> u64 {
        self.layout_version
    }

    /// Resolves `attrs` for a live, placed `entity`; `None` when the entity
    /// is not live and placed or one of the names is not an attribute of it.
    pub fn new(world: &World, entity: EntityHandle, attrs: &[&str]) -> (r: Option<Self>)
        requires
            world.wf(),
        ensures
            r is Some <==> world.loc_of(entity) is Some
                && forall|i: int| 0 <= i < attrs@.len() ==> (#[trigger] world.attr_pos(entity, attrs@[i]@)) is Some,
            r matches Some(acc) ==> {
                &&& acc.layout_version_spec() == world.layout_version_spec()
                &&& acc.offsets_spec().len() == attrs@.len()
                &&& forall|i: int| 0 <= i < attrs@.len() ==> #[trigger] acc.offsets_spec()[i] == offset_of(*world, entity, attrs@[i]@)
            },
    {
        if !world.is_alive(entity) {
            return None;
        }
        match world.location(entity) {
            Some(_) => {},
            None => return None,
        }
        let mut offsets: Vec<AttrOffset> = Vec::new();
        let n = attrs.len();
        let mut i: usize = 0;
        while i < n
            invariant
                world.wf(),
                world.loc_of(entity) is Some,
                n == attrs@.len(),
                i <= n,
                offsets@.len() == i,
                forall|j: int| 0 <= j < i ==> (#[trigger] world.attr_pos(entity, attrs@[j]@)) is Some,
                forall|j: int| 0 <= j < i ==> #[trigger] offsets@[j] == offset_of(*world, entity, attrs@[j]@),
            decreases n - i,
        {
            let name: &str = attrs[i];
            proof {
                assert(name@ == attrs@[i as int]@);
            }
            let id = match world.interner().find(name) {
                Some(id) => id,
                None => {
                    proof {
                        assert(world.attr_pos(entity, attrs@[i as int]@) is None);
                    }
                    return None;
                },
            };
            let p = match world.position(entity, id) {
                Some(p) => p,
                None => {
                    proof {
                        assert(world.attr_pos(entity, attrs@[i as int]@) is None);
                    }
                    return None;
                },
            };
            offsets.push(AttrOffset::new(p, entity.0.generation, entity.0.index));
            i = i + 1;
        }
        Some(EntityAccessor { layout_version: world.layout_version(), offsets })
    }

    /// Position of attribute `A` of a live, placed `entity`.
    pub fn resolve<A: TypedAttr>(world: &World, entity: EntityHandle) -> (r: Option<AttrOffset>)
        requires
            world.wf(),
        ensures
            r is Some <==> world.attr_pos(entity, A::NAME@) is Some,
            r matches Some(o) ==> o == offset_of(*world, entity, A::NAME@),
    {
        if !world.is_alive(entity) {
            return None;
        }
        let id = match world.interner().find(A::NAME) {
            Some(id) => id,
            None => return None,
        };
        match world.position(entity, id) {
            Some(p) => Some(AttrOffset::new(p, entity.0.generation, entity.0.index)),
            None => None,
        }
    }

    /// Whether a build happened since the positions were resolved.
    pub fn is_stale(&self, world: &World) -> (b: bool)
        ensures
            b == (self.layout_version_spec() != world.layout_version_spec()),
    {
        self.layout_version != world.layout_version()
    }

    /// Value at the position of slot `slot`.
    pub fn get(&self, world: &World, slot: usize) -> (v: u64)
        requires
            world.wf(),
            (slot as int) < self.offsets_spec().len(),
        ensures
            v == world.read_abs_spec(self.offsets_spec()[slot as int].offset as int),
    {
        world.read_offset(self.offsets[slot].offset)
    }

    /// Stores `value` at the position of slot `slot`.
    pub fn set(&self, world: &mut World, slot: usize, value: u64)
        requires
            old(world).wf(),
            (slot as int) < self.offsets_spec().len(),
        ensures
            World::wrote_offset(*old(world), *final(world), self.offsets_spec()[slot as int].offset as int, value),
    {
        world.write_offset(self.offsets[slot].offset, value);
    }

    pub fn slot_count(&self) -> (n: usize)
        ensures
            n == self.offsets_spec().len(),
    {
        self.offsets.len()
    }

    pub fn offset_at(&self, slot: usize) -> (o: AttrOffset)
        requires
            (slot as int) < self.offsets_spec().len(),
        ensures
            o == self.offsets_spec()[slot as int],
    {
        self.offsets[slot]
    }

    /// Whether the entity of every slot is still alive with its generation.
    pub fn validate(&self, world: &World) -> (b: bool)
        requires
            world.wf(),
        ensures
            b == forall|i: int| 0 <= i < self.offsets_spec().len()
                ==> world.allocator_spec().is_alive_spec((#[trigger] self.offsets_spec()[i]).entity_spec()),
    {
        let n = self.offsets.len();
        let mut i: usize = 0;
        while i < n
            invariant
                world.wf(),
                n == self.offsets@.len(),
                i <= n,
                forall|j: int| 0 <= j < i
                    ==> world.allocator_spec().is_alive_spec((#[trigger] self.offsets@[j]).entity_spec()),
            decreases n - i,
        {
            if !self.offsets[i].validate(world) {
                proof {
                    assert(!world.allocator_spec().is_alive_spec(self.offsets_spec()[i as int].entity_spec()));
                }
                return false;
            }
            i = i + 1;
        }
        true
    }
}

/// Value at `offset`, without checking its entity.
pub fn read_at(world: &World, offset: AttrOffset) -> (v: u64)
    requires
        world.wf(),
    ensures
        v == world.read_abs_spec(offset.offset as int),
{
    world.read_offset(offset.offset)
}

/// Stores `value` at `offset`, without checking its entity.
pub fn write_at(world: &mut World, offset: AttrOffset, value: u64)
    requires
        old(world).wf(),
    ensures
        World::wrote_offset(*old(world), *final(world), offset.offset as int, value),
{
    world.write_offset(offset.offset, value);
}

/// A live entity's archetype and float block, resolved once.
#[derive(Clone, Copy, Debug)]
pub struct EntityRef {
    archetype_idx: usize,
    inner_idx: usize,
    base_offset: usize,
    layout_version: u64,
    generation: u32,
    entity_index: u32,
}

impl EntityRef {
    pub closed spec fn archetype_idx_spec(&self) -> usize {
        self.archetype_idx
    }

    pub closed spec fn inner_idx_spec(&self) -> usize {
        self.inner_idx
    }

    pub closed spec fn base_offset_spec(&self) -> usize {
        self.base_offset
    }

    pub closed spec fn layout_version_spec(&self) -> u64 {
        self.layout_version
    }

    pub closed spec fn entity_spec(&self) -> EntityId {
        EntityId { index: self.entity_index, generation: self.generation }
    }

    /// Whether this reference can read and write through `world`: its
    /// archetype exists and its block lies in storage.
    pub open spec fn fits(&self, world: World) -> bool {
        &&& (self.archetype_idx_spec() as int) < world.archs().len()
        &&& self.base_offset_spec() + world.width(self.archetype_idx_spec() as int) <= world.store().front().len()
    }

    /// Position of the attribute named `name` in this reference's block.
    pub open spec fn field_pos(&self, world: World, name: Seq<char>) -> Option<int> {
        match world.names().find_spec(name) {
            Some(id) => match world.archs()[self.archetype_idx_spec() as int].schema_spec().find_spec(id) {
                Some(f) => Some(self.base_offset_spec() + f.0),
                None => None,
            },
            None => None,
        }
    }

    /// References a live, placed `entity`.
    pub fn new(world: &World, entity: EntityHandle) -> (r: Option<Self>)
        requires
            world.wf(),
        ensures
            r is Some <==> world.loc_of(entity) is Some,
            r matches Some(er) ==> {
                let loc = world.loc_of(entity).unwrap();
                &&& er.archetype_idx_spec() == loc.archetype_idx
                &&& er.inner_idx_spec() == loc.inner_idx
                &&& er.base_offset_spec() as int == world.block(loc.archetype_idx as int, loc.inner_idx as int)
                &&& er.layout_version_spec() == world.layout_version_spec()
                &&& er.entity_spec() == entity.0
                &&& er.fits(*world)
            },
    {
        if !world.is_alive(entity) {
            return None;
        }
        let loc = match world.location(entity) {
            Some(l) => l,
            None => return None,
        };
        proof {
            world.lemma_loc_slot(entity);
        }
        let arch = world.archetype_at(loc.archetype_idx);
        if !arch.is_alive(loc.inner_idx) {
            return None;
        }
        let base = arch.offset_at(loc.inner_idx).0 as usize;
        Some(EntityRef {
            archetype_idx: loc.archetype_idx,
            inner_idx: loc.inner_idx,
            base_offset: base,
            layout_version: world.layout_version(),
            generation: entity.0.generation,
            entity_index: entity.0.index,
        })
    }

    /// Value of attribute `A`, if the archetype has it.
    pub fn get<A: TypedAttr>(&self, world: &World) -> (r: Option<u64>)
        requires
            world.wf(),
            self.fits(*world),
        ensures
            r == match self.field_pos(*world, A::NAME@) {
                Some(p) => Some(world.store().front()[p]),
                None => None::<u64>,
            },
    {
        let id = match world.interner().find(A::NAME) {
            Some(id) => id,
            None => return None,
        };
        let arch = world.archetype_at(self.archetype_idx);
        let field = match arch.schema().find_field(id) {
            Some(f) => f,
            None => return None,
        };
        proof {
            world.lemma_arch_width(self.archetype_idx as int);
            arch.schema_spec().lemma_find_spec(id);
        }
        Some(world.read_offset(self.base_offset + field.0 as usize))
    }

    /// Stores `value` as attribute `A`; returns whether the archetype has it.
    pub fn set<A: TypedAttr>(&self, world: &mut World, value: u64) -> (ok: bool)
        requires
            old(world).wf(),
            self.fits(*old(world)),
        ensures
            ok == self.field_pos(*old(world), A::NAME@) is Some,
            ok ==> World::wrote_offset(*old(world), *final(world), self.field_pos(*old(world), A::NAME@).unwrap(), value),
            !ok ==> *final(world) == *old(world),
    {
        let id = match world.interner().find(A::NAME) {
            Some(id) => id,
            None => return false,
        };
        let field = match world.archetype_at(self.archetype_idx).schema().find_field(id) {
            Some(f) => f,
            None => return false,
        };
        proof {
            old(world).lemma_arch_width(self.archetype_idx as int);
            old(world).archs()[self.archetype_idx as int].schema_spec().lemma_find_spec(id);
        }
        world.write_offset(self.base_offset + field.0 as usize, value);
        true
    }

    /// Resolved position of attribute `A`, if the archetype has it.
    pub fn absolute_offset<A: TypedAttr>(&self, world: &World) -> (r: Option<AttrOffset>)
        requires
            world.wf(),
            self.fits(*world),
        ensures
            r is Some <==> self.field_pos(*world, A::NAME@) is Some,
            r matches Some(o) ==> o.offset as int == self.field_pos(*world, A::NAME@).unwrap()
                && o.entity_spec() == self.entity_spec(),
    {
        let id = match world.interner().find(A::NAME) {
            Some(id) => id,
            None => return None,
        };
        let field = match world.archetype_at(self.archetype_idx).schema().find_field(id) {
            Some(f) => f,
            None => return None,
        };
        proof {
            world.lemma_arch_width(self.archetype_idx as int);
            world.archs()[self.archetype_idx as int].schema_spec().lemma_find_spec(id);
        }
        Some(AttrOffset::new(self.base_offset + field.0 as usize, self.generation, self.entity_index))
    }

    pub fn is_stale(&self, world: &World) -> (b: bool)
        ensures
            b == (self.layout_version_spec() != world.layout_version_spec()),
    {
        self.layout_version != world.layout_version()
    }

    pub fn base_offset(&self) -> (b: usize)
        ensures
            b == self.base_offset_spec(),
    {
        self.base_offset
    }

    pub fn archetype_idx(&self) -> (a: usize)
        ensures
            a == self.archetype_idx_spec(),
    {
        self.archetype_idx
    }
}

} // verus!
