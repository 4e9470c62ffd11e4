//! Prefabs: named entity templates with default attribute values and
//! resonator types.

use vstd::prelude::*;
use crate::entity::EntityHandle;
use crate::serialization::attrs_view;
use crate::typed_attrs::TypedAttr;
use crate::world::{override_value, strings_view, World, ONE_BITS};

verus! {

struct PrefabAttr {
    name: &'static str,
    default_value: u64,
}

/// A template: archetype name, attributes with defaults, resonator types.
pub struct Prefab {
    name: &'static str,
    attrs: Vec<PrefabAttr>,
    resonator_types: Vec<&'static str>,
}

/// Overrides by name.
pub open spec fn str_overrides_view(o: Seq<(&str, u64)>) -> Seq<(Seq<char>, u64)> {
    o.map_values(|p: (&str, u64)| (p.0@, p.1))
}

/// The template's attributes with each override applied.
pub open spec fn with_overrides(attrs: Seq<(Seq<char>, u64)>, ov: Seq<(Seq<char>, u64)>) -> Seq<(Seq<char>, u64)> {
    attrs.map_values(|a: (Seq<char>, u64)| (a.0, override_value(ov, a.0, a.1)))
}

impl Prefab {
    pub closed spec fn name_spec(&self) -> Seq<char> {
        self.name@
    }

    /// Attribute names with their defaults, in the order added.
    pub closed spec fn attrs_spec(&self) -> Seq<(Seq<char>, u64)> {
        self.attrs@.map_values(|a: PrefabAttr| (a.name@, a.default_value))
    }

    pub closed spec fn types_spec(&self) -> Seq<Seq<char>> {
        self.resonator_types@.map_values(|t: &str| t@)
    }

    pub fn new(name: &'static str) -> (p: Self)
        ensures
            p.name_spec() == name@,
            p.attrs_spec() == Seq::<(Seq<char>, u64)>::empty(),
            p.types_spec() == Seq::<Seq<char>>::empty(),
    {
        let p = Prefab { name, attrs: Vec::new(), resonator_types: Vec::new() };
        proof {
            assert(p.attrs_spec() =~= Seq::<(Seq<char>, u64)>::empty());
            assert(p.types_spec() =~= Seq::<Seq<char>>::empty());
        }
        p
    }

    /// Adds attribute `name` with default `default`.
    pub fn attr(self, name: &'static str, default: u64) -> (p: Self)
        ensures
            p.name_spec() == self.name_spec(),
            p.attrs_spec() == self.attrs_spec().push((name@, default)),
            p.types_spec() == self.types_spec(),
    {
        let mut p = self;
        p.attrs.push(PrefabAttr { name, default_value: default });
        proof {
            assert(p.attrs_spec() =~= self.attrs_spec().push((name@, default)));
        }
        p
    }

    /// Adds attribute `A` with default `default`.
    pub fn attr_typed<A: TypedAttr>(self, default: u64) -> (p: Self)
        ensures
            p.name_spec() == self.name_spec(),
            p.attrs_spec() == self.attrs_spec().push((A::NAME@, default)),
            p.types_spec() == self.types_spec(),
    {
        self.attr(A::NAME, default)
    }

    /// Adds tag `name` (default one, the bits of `1.0`).
    pub fn tag(self, name: &'static str) -> (p: Self)
        ensures
            p.name_spec() == self.name_spec(),
            p.attrs_spec() == self.attrs_spec().push((name@, ONE_BITS)),
            p.types_spec() == self.types_spec(),
    {
        self.attr(name, ONE_BITS)
    }

    /// Adds tag `A`.
    pub fn tag_typed<A: TypedAttr>(self) -> (p: Self)
        ensures
            p.name_spec() == self.name_spec(),
            p.attrs_spec() == self.attrs_spec().push((A::NAME@, ONE_BITS)),
            p.types_spec() == self.types_spec(),
    {
        self.tag(A::NAME)
    }

    /// Adds resonator type `kind_name` (registered with the world first).
    pub fn with_resonator(self, kind_name: &'static str) -> (p: Self)
        ensures
            p.name_spec() == self.name_spec(),
            p.attrs_spec() == self.attrs_spec(),
            p.types_spec() == self.types_spec().push(kind_name@),
    {
        let mut p = self;
        p.resonator_types.push(kind_name);
        proof {
            assert(p.types_spec() =~= self.types_spec().push(kind_name@));
        }
        p
    }

    /// The override of `name` in `overrides`, else `d`.
    fn override_for(overrides: &[(&str, u64)], name: &str, d: u64) -> (v: u64)
        ensures
            v == override_value(str_overrides_view(overrides@), name@, d),
    {
        let ghost ov = str_overrides_view(overrides@);
        let n = overrides.len();
        let mut j: usize = 0;
        while j < n
            invariant
                n == overrides@.len(),
                ov == str_overrides_view(overrides@),
                j <= n,
                forall|q: int| 0 <= q < j ==> ov[q].0 != name@,
            decreases n - j,
        {
            proof {
                assert(ov[j as int] == (overrides@[j as int].0@, overrides@[j as int].1));
            }
            let (n_j, v_j) = overrides[j];
            if crate::interning::str_eq(n_j, name) {
                proof {
                    crate::world::lemma_lookup_named_at(ov, j as int, name@);
                }
                return v_j;
            }
            j = j + 1;
        }
        proof {
            crate::world::lemma_lookup_named_none(ov, name@);
        }
        d
    }

    /// Queues one entity of this template with no overrides.
    pub fn spawn(&self, world: &mut World) -> (h: EntityHandle)
        requires
            old(world).wf(),
            old(world).allocator_spec().free().len() == 0 ==> old(world).allocator_spec().next() < u32::MAX,
            old(world).names().names().len() + 1 + self.attrs_spec().len() < u32::MAX,
            self.attrs_spec().len() < u16::MAX,
        ensures
            final(world).wf(),
            World::spawned_as(*old(world), *final(world), h, self.name_spec(), self.attrs_spec(), self.types_spec()),
    {
        let none: [(&str, u64); 0] = [];
        let h = self.spawn_with(world, &none);
        proof {
            assert(with_overrides(self.attrs_spec(), str_overrides_view(none@)) =~= self.attrs_spec()) by {
                assert forall|i: int| 0 <= i < self.attrs_spec().len() implies
                    #[trigger] with_overrides(self.attrs_spec(), str_overrides_view(none@))[i] == self.attrs_spec()[i] by {
                    crate::world::lemma_lookup_named_none(str_overrides_view(none@), self.attrs_spec()[i].0);
                }
            }
        }
        h
    }

    /// Queues one entity of this template; each attribute takes the first
    /// override with its name, else its default.
    pub fn spawn_with(&self, world: &mut World, overrides: &[(&str, u64)]) -> (h: EntityHandle)
        requires
            old(world).wf(),
            old(world).allocator_spec().free().len() == 0 ==> old(world).allocator_spec().next() < u32::MAX,
            old(world).names().names().len() + 1 + self.attrs_spec().len() < u32::MAX,
            self.attrs_spec().len() < u16::MAX,
        ensures
            final(world).wf(),
            World::spawned_as(*old(world), *final(world), h, self.name_spec(),
                with_overrides(self.attrs_spec(), str_overrides_view(overrides@)), self.types_spec()),
    {
        let ghost want = with_overrides(self.attrs_spec(), str_overrides_view(overrides@));
        let mut attrs: Vec<(String, u64)> = Vec::new();
        let n = self.attrs.len();
        let mut i: usize = 0;
        while i < n
            invariant
                n == self.attrs@.len(),
                i <= n,
                want == with_overrides(self.attrs_spec(), str_overrides_view(overrides@)),
                attrs_view(attrs@) == want.subrange(0, i as int),
            decreases n - i,
        {
            let a = &self.attrs[i];
            let v = Self::override_for(overrides, a.name, a.default_value);
            let ghost before = attrs@;
            attrs.push((a.name.to_owned(), v));
            proof {
                assert(self.attrs_spec()[i as int] == (a.name@, a.default_value));
                assert(attrs_view(attrs@) =~= attrs_view(before).push((a.name@, v)));
                assert(want.subrange(0, i + 1) =~= want.subrange(0, i as int).push(want[i as int]));
            }
            i = i + 1;
        }
        let mut types: Vec<String> = Vec::new();
        let m = self.resonator_types.len();
        let mut t: usize = 0;
        while t < m
            invariant
                m == self.resonator_types@.len(),
                t <= m,
                strings_view(types@) == self.types_spec().subrange(0, t as int),
            decreases m - t,
        {
            let ghost before = types@;
            types.push(self.resonator_types[t].to_owned());
            proof {
                assert(strings_view(types@) =~= strings_view(before).push(self.resonator_types@[t as int]@));
                assert(self.types_spec().subrange(0, t + 1) =~= self.types_spec().subrange(0, t as int).push(self.resonator_types@[t as int]@));
            }
            t = t + 1;
        }
        proof {
            assert(want.subrange(0, n as int) =~= want);
            assert(self.types_spec().subrange(0, m as int) =~= self.types_spec());
        }
        world.queue_entity(self.name, &attrs, &types)
    }

    /// Queues `count` entities of this template.
    pub fn spawn_batch(&self, world: &mut World, count: usize) -> (hs: Vec<EntityHandle>)
        requires
            old(world).wf(),
            old(world).allocator_spec().free().len() == 0,
            old(world).allocator_spec().next() + count < u32::MAX,
            old(world).names().names().len() + count * (1 + self.attrs_spec().len()) < u32::MAX,
            self.attrs_spec().len() < u16::MAX,
        ensures
            final(world).wf(),
            hs@.len() == count,
            final(world).pending().len() == old(world).pending().len() + count,
    {
        let mut hs: Vec<EntityHandle> = Vec::new();
        let mut i: usize = 0;
        while i < count
            invariant
                i <= count,
                world.wf(),
                hs@.len() == i,
                world.pending().len() == old(world).pending().len() + i,
                world.allocator_spec().free().len() == 0,
                world.allocator_spec().next() == old(world).allocator_spec().next() + i,
                old(world).allocator_spec().next() + count < u32::MAX,
                world.names().names().len() <= old(world).names().names().len() + i * (1 + self.attrs_spec().len()),
                old(world).names().names().len() + count * (1 + self.attrs_spec().len()) < u32::MAX,
                self.attrs_spec().len() < u16::MAX,
            decreases count - i,
        {
            proof {
                assert(i * (1 + self.attrs_spec().len()) + (1 + self.attrs_spec().len()) <= count * (1 + self.attrs_spec().len())) by (nonlinear_arith)
                    requires i < count;
            }
            let h = self.spawn(world);
            hs.push(h);
            proof {
                assert((i + 1) * (1 + self.attrs_spec().len()) == i * (1 + self.attrs_spec().len()) + (1 + self.attrs_spec().len())) by (nonlinear_arith);
            }
            i = i + 1;
        }
        hs
    }
}

impl Prefab {
    /// Whether the pending entries of `w` from `start` on were queued from
    /// this template, entry `k` with the overrides `ovs[k]`, as `hs` says.
    pub open spec fn batch_queued(&self, w: World, start: int, hs: Seq<EntityHandle>, ovs: Seq<Vec<(&'static str, u64)>>) -> bool {
        &&& ovs.len() == hs.len()
        &&& w.pending().len() == start + hs.len()
        &&& forall|k: int| 0 <= k < hs.len() ==> {
            &&& (#[trigger] w.pending()[start + k]).entity_id == hs[k].0
            &&& w.queued_as(w.pending()[start + k], self.name_spec(),
                with_overrides(self.attrs_spec(), str_overrides_view(ovs[k]@)), self.types_spec())
        }
    }

    /// Queues `count` entities of this template, entity `i` with the
    /// overrides `configure(i)`.
    pub fn spawn_batch_with<F: Fn(usize) -> Vec<(&'static str, u64)>>(&self, world: &mut World, count: usize, configure: F) -> (hs: Vec<EntityHandle>)
        requires
            old(world).wf(),
            old(world).allocator_spec().free().len() == 0,
            old(world).allocator_spec().next() + count < u32::MAX,
            old(world).names().names().len() + count * (1 + self.attrs_spec().len()) < u32::MAX,
            self.attrs_spec().len() < u16::MAX,
            forall|i: usize| call_requires(configure, (i,)),
        ensures
            final(world).wf(),
            hs@.len() == count,
            final(world).pending().subrange(0, old(world).pending().len() as int) == old(world).pending(),
            exists|ovs: Seq<Vec<(&'static str, u64)>>|
                #[trigger] self.batch_queued(*final(world), old(world).pending().len() as int, hs@, ovs)
                && forall|k: int| 0 <= k < count ==> call_ensures(configure, (k as usize,), #[trigger] ovs[k]),
    {
        let ghost start = old(world).pending().len() as int;
        let mut hs: Vec<EntityHandle> = Vec::new();
        let ghost mut ovs: Seq<Vec<(&'static str, u64)>> = Seq::empty();
        let mut i: usize = 0;
        while i < count
            invariant
                i <= count,
                world.wf(),
                hs@.len() == i,
                start == old(world).pending().len(),
                world.pending().subrange(0, start) == old(world).pending(),
                world.allocator_spec().free().len() == 0,
                world.allocator_spec().next() == old(world).allocator_spec().next() + i,
                old(world).allocator_spec().next() + count < u32::MAX,
                world.names().names().len() <= old(world).names().names().len() + i * (1 + self.attrs_spec().len()),
                old(world).names().names().len() + count * (1 + self.attrs_spec().len()) < u32::MAX,
                self.attrs_spec().len() < u16::MAX,
                forall|j: usize| call_requires(configure, (j,)),
                self.batch_queued(*world, start, hs@, ovs),
                forall|k: int| 0 <= k < i ==> call_ensures(configure, (k as usize,), #[trigger] ovs[k]),
            decreases count - i,
        {
            proof {
                assert(i * (1 + self.attrs_spec().len()) + (1 + self.attrs_spec().len()) <= count * (1 + self.attrs_spec().len())) by (nonlinear_arith)
                    requires i < count;
            }
            let ov = configure(i);
            let ghost before = *world;
            let ovs_slice = ov.as_slice();
            let h = self.spawn_with(world, ovs_slice);
            proof {
                assert(ovs_slice@ == ov@);
                let w2 = *world;
                assert forall|k: int| 0 <= k < hs@.len() implies {
                    &&& (#[trigger] w2.pending()[start + k]).entity_id == hs@[k].0
                    &&& w2.queued_as(w2.pending()[start + k], self.name_spec(),
                        with_overrides(self.attrs_spec(), str_overrides_view(ovs[k]@)), self.types_spec())
                } by {
                    assert(w2.pending()[start + k] == before.pending()[start + k]) by {
                        assert(w2.pending().subrange(0, before.pending().len() as int)[start + k] == w2.pending()[start + k]);
                    }
                    World::lemma_queued_as_grow(before, w2, before.pending()[start + k], self.name_spec(),
                        with_overrides(self.attrs_spec(), str_overrides_view(ovs[k]@)), self.types_spec());
                }
                assert(w2.pending().subrange(0, start) =~= before.pending().subrange(0, start)) by {
                    assert forall|q: int| 0 <= q < start implies w2.pending()[q] == before.pending()[q] by {
                        assert(w2.pending().subrange(0, before.pending().len() as int)[q] == w2.pending()[q]);
                    }
                }
                assert((i + 1) * (1 + self.attrs_spec().len()) == i * (1 + self.attrs_spec().len()) + (1 + self.attrs_spec().len())) by (nonlinear_arith);
            }
            hs.push(h);
            proof {
                ovs = ovs.push(ov);
                let w2 = *world;
                assert forall|k: int| 0 <= k < hs@.len() implies {
                    &&& (#[trigger] w2.pending()[start + k]).entity_id == hs@[k].0
                    &&& w2.queued_as(w2.pending()[start + k], self.name_spec(),
                        with_overrides(self.attrs_spec(), str_overrides_view(ovs[k]@)), self.types_spec())
                } by {
                    if k == i {
                        assert(w2.pending()[start + k] == w2.pending().last());
                    }
                }
            }
            i = i + 1;
        }
        hs
    }
}

/// Prefab construction from a world.
pub trait WorldPrefabExt {
    fn prefab(&self, name: &'static str) -> Prefab;
}

impl WorldPrefabExt for World {
    fn prefab(&self, name: &'static str) -> (p: Prefab)
        ensures
            p.name_spec() == name@,
            p.attrs_spec() == Seq::<(Seq<char>, u64)>::empty(),
            p.types_spec() == Seq::<Seq<char>>::empty(),
    {
        Prefab::new(name)
    }
}

} // verus!
