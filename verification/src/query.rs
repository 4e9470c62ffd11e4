//! Queries: the live entities of the archetypes that have every required
//! attribute and no excluded one.

use vstd::prelude::*;
use crate::archetype::{AliveEntry, Archetype};
use crate::entity::EntityHandle;
use crate::interning::InternedStr;
use crate::typed_attrs::TypedAttr;
use crate::world::World;

verus! {

/// Whether archetype `a` has every attribute of `required` and none of
/// `excluded`.
pub open spec fn arch_matches(a: Archetype, required: Seq<InternedStr>, excluded: Seq<InternedStr>) -> bool {
    &&& forall|i: int| 0 <= i < required.len() ==> a.schema_spec().field_names@.contains(#[trigger] required[i])
    &&& forall|i: int| 0 <= i < excluded.len() ==> !a.schema_spec().field_names@.contains(#[trigger] excluded[i])
}

/// Handles of the live entities of `a`, in slot order.
pub open spec fn arch_handles(a: Archetype) -> Seq<EntityHandle> {
    a.alive_entries_spec().map_values(|x: AliveEntry| EntityHandle(x.1))
}

/// Live entities of the matching archetypes, archetype by archetype.
pub open spec fn query_spec(archs: Seq<Archetype>, required: Seq<InternedStr>, excluded: Seq<InternedStr>) -> Seq<EntityHandle>
    decreases archs.len(),
{
    if archs.len() == 0 {
        Seq::empty()
    } else {
        query_spec(archs.drop_last(), required, excluded)
            + if arch_matches(archs.last(), required, excluded) { arch_handles(archs.last()) } else { Seq::empty() }
    }
}

/// A query selects exactly the live entities of the archetypes whose schema
/// lists every required attribute and no excluded one.
pub proof fn law_query_selects_matching_archetypes(archs: Seq<Archetype>, required: Seq<InternedStr>,
    excluded: Seq<InternedStr>, h: EntityHandle)
    ensures
        query_spec(archs, required, excluded).contains(h) <==> exists|a: int| #![trigger archs[a]]
            0 <= a < archs.len()
            && (forall|i: int| 0 <= i < required.len() ==> archs[a].schema_spec().field_names@.contains(#[trigger] required[i]))
            && (forall|i: int| 0 <= i < excluded.len() ==> !archs[a].schema_spec().field_names@.contains(#[trigger] excluded[i]))
            && archs[a].alive_entries_spec().map_values(|x: AliveEntry| EntityHandle(x.1)).contains(h),
    decreases archs.len(),
{
    if archs.len() > 0 {
        let init = archs.drop_last();
        let n = archs.len() - 1;
        law_query_selects_matching_archetypes(init, required, excluded, h);
        let rest = query_spec(init, required, excluded);
        let last = archs[n];
        assert(last == archs.last());
        let tail = if arch_matches(last, required, excluded) { arch_handles(last) } else { Seq::empty() };
        let all = query_spec(archs, required, excluded);
        assert(all == rest + tail);
        if all.contains(h) {
            let k = choose|k: int| 0 <= k < all.len() && all[k] == h;
            if k < rest.len() {
                assert(rest[k] == h);
                assert(rest.contains(h));
                let a = choose|a: int| #![trigger init[a]]
                    0 <= a < init.len()
                    && (forall|i: int| 0 <= i < required.len() ==> init[a].schema_spec().field_names@.contains(#[trigger] required[i]))
                    && (forall|i: int| 0 <= i < excluded.len() ==> !init[a].schema_spec().field_names@.contains(#[trigger] excluded[i]))
                    && init[a].alive_entries_spec().map_values(|x: AliveEntry| EntityHandle(x.1)).contains(h);
                assert(archs[a] == init[a]);
            } else {
                assert(tail[k - rest.len()] == h);
                assert(arch_matches(last, required, excluded));
                assert(arch_handles(last).contains(h));
                assert(archs[n] == last);
            }
        }
        if exists|a: int| #![trigger archs[a]]
            0 <= a < archs.len()
            && (forall|i: int| 0 <= i < required.len() ==> archs[a].schema_spec().field_names@.contains(#[trigger] required[i]))
            && (forall|i: int| 0 <= i < excluded.len() ==> !archs[a].schema_spec().field_names@.contains(#[trigger] excluded[i]))
            && archs[a].alive_entries_spec().map_values(|x: AliveEntry| EntityHandle(x.1)).contains(h) {
            let a = choose|a: int| #![trigger archs[a]]
                0 <= a < archs.len()
                && (forall|i: int| 0 <= i < required.len() ==> archs[a].schema_spec().field_names@.contains(#[trigger] required[i]))
                && (forall|i: int| 0 <= i < excluded.len() ==> !archs[a].schema_spec().field_names@.contains(#[trigger] excluded[i]))
                && archs[a].alive_entries_spec().map_values(|x: AliveEntry| EntityHandle(x.1)).contains(h);
            if a < n {
                assert(init[a] == archs[a]);
                assert(rest.contains(h));
                let k = choose|k: int| 0 <= k < rest.len() && rest[k] == h;
                assert(all[k] == h);
            } else {
                assert(arch_matches(last, required, excluded));
                let k = choose|k: int| 0 <= k < arch_handles(last).len() && arch_handles(last)[k] == h;
                assert(all[rest.len() + k] == h);
            }
        }
    }
}

/// What a query builder returns is exactly that: with no unknown required
/// name, the live entities of the archetypes of its world that have every
/// required attribute and none excluded; with one, nothing.
pub proof fn law_query_builder_selects(q: QueryBuilder, h: EntityHandle)
    ensures
        q.impossible_spec() ==> !q.result_spec().contains(h),
        !q.impossible_spec() ==> (q.result_spec().contains(h) <==> exists|a: int| #![trigger q.world_spec().archs()[a]]
            0 <= a < q.world_spec().archs().len()
            && (forall|i: int| 0 <= i < q.required_spec().len()
                ==> q.world_spec().archs()[a].schema_spec().field_names@.contains(#[trigger] q.required_spec()[i]))
            && (forall|i: int| 0 <= i < q.excluded_spec().len()
                ==> !q.world_spec().archs()[a].schema_spec().field_names@.contains(#[trigger] q.excluded_spec()[i]))
            && q.world_spec().archs()[a].alive_entries_spec().map_values(|x: AliveEntry| EntityHandle(x.1)).contains(h)),
{
    law_query_selects_matching_archetypes(q.world_spec().archs(), q.required_spec(), q.excluded_spec(), h);
}

/// The entries of `s` whose flag in `keep` is set, in order.
pub open spec fn kept<T>(s: Seq<T>, keep: Seq<bool>) -> Seq<T>
    decreases s.len(),
{
    if s.len() == 0 || keep.len() != s.len() {
        Seq::empty()
    } else {
        let rest = kept(s.drop_last(), keep.drop_last());
        if keep.last() {
            rest.push(s.last())
        } else {
            rest
        }
    }
}

/// Whether `a`'s schema lists every id of `ids`.
fn has_all(a: &Archetype, ids: &Vec<InternedStr>) -> (b: bool)
    requires
        a.wf(),
    ensures
        b == forall|i: int| 0 <= i < ids@.len() ==> a.schema_spec().field_names@.contains(#[trigger] ids@[i]),
{
    let n = ids.len();
    let mut i: usize = 0;
    while i < n
        invariant
            a.wf(),
            n == ids@.len(),
            i <= n,
            forall|j: int| 0 <= j < i ==> a.schema_spec().field_names@.contains(#[trigger] ids@[j]),
        decreases n - i,
    {
        if !a.schema().has_field(ids[i]) {
            return false;
        }
        i = i + 1;
    }
    true
}

/// Whether `a`'s schema lists some id of `ids`.
fn has_any(a: &Archetype, ids: &Vec<InternedStr>) -> (b: bool)
    requires
        a.wf(),
    ensures
        b == exists|i: int| 0 <= i < ids@.len() && a.schema_spec().field_names@.contains(#[trigger] ids@[i]),
{
    let n = ids.len();
    let mut i: usize = 0;
    while i < n
        invariant
            a.wf(),
            n == ids@.len(),
            i <= n,
            forall|j: int| 0 <= j < i ==> !a.schema_spec().field_names@.contains(#[trigger] ids@[j]),
        decreases n - i,
    {
        if a.schema().has_field(ids[i]) {
            return true;
        }
        i = i + 1;
    }
    false
}

/// A query over one world.
pub struct QueryBuilder<'w> {
    world: &'w World,
    required: Vec<InternedStr>,
    excluded: Vec<InternedStr>,
    /// A required attribute is unknown to the world, so nothing matches.
    impossible: bool,
}

impl<'w> QueryBuilder<'w> {
    pub closed spec fn world_spec(&self) -> World {
        *self.world
    }

    /// The world the query runs over, as the reference it holds.
    pub closed spec fn world_ref(&self) -> &'w World {
        self.world
    }

    pub closed spec fn required_spec(&self) -> Seq<InternedStr> {
        self.required@
    }

    pub closed spec fn excluded_spec(&self) -> Seq<InternedStr> {
        self.excluded@
    }

    /// Whether a required attribute is one the world has never named.
    pub closed spec fn impossible_spec(&self) -> bool {
        self.impossible
    }

    /// The entities the query selects: none when a required attribute is
    /// unknown to the world.
    pub open spec fn result_spec(&self) -> Seq<EntityHandle> {
        if self.impossible_spec() {
            Seq::empty()
        } else {
            query_spec(self.world_spec().archs(), self.required_spec(), self.excluded_spec())
        }
    }

    pub fn new(world: &'w World) -> (q: Self)
        ensures
            q.world_spec() == *world,
            q.required_spec() == Seq::<InternedStr>::empty(),
            q.excluded_spec() == Seq::<InternedStr>::empty(),
            !q.impossible_spec(),
    {
        QueryBuilder { world, required: Vec::new(), excluded: Vec::new(), impossible: false }
    }

    /// Requires attribute `A`; a name the world never interned matches no
    /// entity, so the query then selects none.
    pub fn with<A: TypedAttr>(self) -> (q: Self)
        requires
            self.world_spec().wf(),
        ensures
            q.world_spec() == self.world_spec(),
            q.excluded_spec() == self.excluded_spec(),
            q.required_spec() == match self.world_spec().names().find_spec(A::NAME@) {
                Some(id) => self.required_spec().push(id),
                None => self.required_spec(),
            },
            q.impossible_spec() == (self.impossible_spec() || self.world_spec().names().find_spec(A::NAME@) is None),
    {
        let mut q = self;
        match q.world.interner().find(A::NAME) {
            Some(id) => q.required.push(id),
            None => {
                q.impossible = true;
            },
        }
        q
    }

    /// Excludes attribute `A`; a name never interned adds nothing.
    pub fn without<A: TypedAttr>(self) -> (q: Self)
        requires
            self.world_spec().wf(),
        ensures
            q.world_spec() == self.world_spec(),
            q.required_spec() == self.required_spec(),
            q.excluded_spec() == match self.world_spec().names().find_spec(A::NAME@) {
                Some(id) => self.excluded_spec().push(id),
                None => self.excluded_spec(),
            },
            q.impossible_spec() == self.impossible_spec(),
    {
        let mut q = self;
        match q.world.interner().find(A::NAME) {
            Some(id) => q.excluded.push(id),
            None => {},
        }
        q
    }

    /// Whether archetype `idx` matches.
    fn matches(&self, idx: usize) -> (b: bool)
        requires
            self.world_spec().wf(),
            (idx as int) < self.world_spec().archs().len(),
        ensures
            b == arch_matches(self.world_spec().archs()[idx as int], self.required_spec(), self.excluded_spec()),
    {
        let a = self.world.archetype_at(idx);
        proof {
            assert(self.world_spec().archs()[idx as int].wf());
        }
        has_all(a, &self.required) && !has_any(a, &self.excluded)
    }

    /// The live entities of the matching archetypes, archetype by
    /// archetype, each in slot order.
    pub fn execute(self) -> (r: Vec<EntityHandle>)
        requires
            self.world_spec().wf(),
        ensures
            r@ == self.result_spec(),
    {
        if self.impossible {
            return Vec::new();
        }
        let ghost archs = self.world_spec().archs();
        let n = self.world.archetype_count();
        let mut out: Vec<EntityHandle> = Vec::new();
        let mut i: usize = 0;
        while i < n
            invariant
                self.world_spec().wf(),
                archs == self.world_spec().archs(),
                n == archs.len(),
                i <= n,
                out@ == query_spec(archs.subrange(0, i as int), self.required_spec(), self.excluded_spec()),
            decreases n - i,
        {
            proof {
                assert(archs.subrange(0, i + 1).drop_last() =~= archs.subrange(0, i as int));
            }
            if self.matches(i) {
                let a = self.world.archetype_at(i);
                proof {
                    assert(archs[i as int].wf());
                }
                let entries = a.alive_entries();
                let ghost start = out@;
                let m = entries.len();
                let mut j: usize = 0;
                while j < m
                    invariant
                        m == entries@.len(),
                        j <= m,
                        out@ == start + entries@.subrange(0, j as int).map_values(|x: AliveEntry| EntityHandle(x.1)),
                    decreases m - j,
                {
                    out.push(EntityHandle(entries[j].1));
                    j = j + 1;
                    proof {
                        assert(out@ =~= start + entries@.subrange(0, j as int).map_values(|x: AliveEntry| EntityHandle(x.1)));
                    }
                }
                proof {
                    assert(entries@.subrange(0, m as int) =~= entries@);
                    assert(out@ =~= query_spec(archs.subrange(0, i + 1), self.required_spec(), self.excluded_spec()));
                }
            } else {
                proof {
                    assert(out@ =~= query_spec(archs.subrange(0, i + 1), self.required_spec(), self.excluded_spec()));
                }
            }
            i = i + 1;
        }
        proof {
            assert(archs.subrange(0, n as int) =~= archs);
        }
        out
    }

    /// The query narrowed to the entities `keep` accepts.
    pub fn filter<F: Fn(EntityHandle, &World) -> bool>(self, keep: F) -> (q: FilteredQuery<'w, F>)
        ensures
            q.query_spec() == self,
            q.keep_spec() == keep,
    {
        FilteredQuery { query: self, keep }
    }

    /// Number of entities the query selects.
    pub fn count(self) -> (n: usize)
        requires
            self.world_spec().wf(),
        ensures
            n == self.result_spec().len(),
    {
        let r = self.execute();
        r.len()
    }

    /// The first entity the query selects.
    pub fn first(self) -> (r: Option<EntityHandle>)
        requires
            self.world_spec().wf(),
        ensures
            r == if self.result_spec().len() > 0 { Some(self.result_spec()[0]) } else { None::<EntityHandle> },
    {
        let all = self.execute();
        if all.len() > 0 {
            Some(all[0])
        } else {
            None
        }
    }
}

/// A query with a filter: the entities the query selects that the filter
/// accepts, asked once each with the world.
pub struct FilteredQuery<'w, F> {
    query: QueryBuilder<'w>,
    keep: F,
}

impl<'w, F: Fn(EntityHandle, &World) -> bool> FilteredQuery<'w, F> {
    pub closed spec fn query_spec(&self) -> QueryBuilder<'w> {
        self.query
    }

    pub closed spec fn keep_spec(&self) -> F {
        self.keep
    }

    /// Whether `r` is what the filter can keep of the query's entities: each
    /// is kept exactly when the filter, asked with it and the world, can
    /// answer `true`.
    pub open spec fn selects(&self, r: Seq<EntityHandle>) -> bool {
        exists|bs: Seq<bool>| #[trigger] kept(self.query_spec().result_spec(), bs) == r
            && bs.len() == self.query_spec().result_spec().len()
            && forall|i: int| 0 <= i < bs.len() ==> call_ensures(self.keep_spec(),
                (self.query_spec().result_spec()[i], self.query_spec().world_ref()), bs[i])
    }

    /// Requires attribute `A` too, as `QueryBuilder::with` does.
    pub fn with<A: TypedAttr>(self) -> (q: Self)
        requires
            self.query_spec().world_spec().wf(),
        ensures
            q.keep_spec() == self.keep_spec(),
            q.query_spec().world_spec() == self.query_spec().world_spec(),
            q.query_spec().excluded_spec() == self.query_spec().excluded_spec(),
            q.query_spec().required_spec() == match self.query_spec().world_spec().names().find_spec(A::NAME@) {
                Some(id) => self.query_spec().required_spec().push(id),
                None => self.query_spec().required_spec(),
            },
            q.query_spec().impossible_spec() == (self.query_spec().impossible_spec()
                || self.query_spec().world_spec().names().find_spec(A::NAME@) is None),
    {
        let FilteredQuery { query, keep } = self;
        FilteredQuery { query: query.with::<A>(), keep }
    }

    /// Excludes attribute `A` too, as `QueryBuilder::without` does.
    pub fn without<A: TypedAttr>(self) -> (q: Self)
        requires
            self.query_spec().world_spec().wf(),
        ensures
            q.keep_spec() == self.keep_spec(),
            q.query_spec().world_spec() == self.query_spec().world_spec(),
            q.query_spec().required_spec() == self.query_spec().required_spec(),
            q.query_spec().excluded_spec() == match self.query_spec().world_spec().names().find_spec(A::NAME@) {
                Some(id) => self.query_spec().excluded_spec().push(id),
                None => self.query_spec().excluded_spec(),
            },
            q.query_spec().impossible_spec() == self.query_spec().impossible_spec(),
    {
        let FilteredQuery { query, keep } = self;
        FilteredQuery { query: query.without::<A>(), keep }
    }

    /// With a filter that answers the same for the same entity and world,
    /// there is one selection: `execute`, `count` and `first` of such a
    /// query speak of the same entities.
    pub proof fn law_pure_filter_selects_once(&self, r1: Seq<EntityHandle>, r2: Seq<EntityHandle>)
        requires
            forall|h: EntityHandle, w: &World, b1: bool, b2: bool|
                call_ensures(self.keep_spec(), (h, w), b1) && call_ensures(self.keep_spec(), (h, w), b2) ==> b1 == b2,
            self.selects(r1),
            self.selects(r2),
        ensures
            r1 == r2,
    {
        let all = self.query_spec().result_spec();
        let w = self.query_spec().world_ref();
        let bs1 = choose|bs: Seq<bool>| #[trigger] kept(all, bs) == r1 && bs.len() == all.len()
            && forall|i: int| 0 <= i < bs.len() ==> call_ensures(self.keep_spec(), (all[i], w), bs[i]);
        let bs2 = choose|bs: Seq<bool>| #[trigger] kept(all, bs) == r2 && bs.len() == all.len()
            && forall|i: int| 0 <= i < bs.len() ==> call_ensures(self.keep_spec(), (all[i], w), bs[i]);
        assert forall|i: int| 0 <= i < bs1.len() implies bs1[i] == bs2[i] by {
            assert(call_ensures(self.keep_spec(), (all[i], w), bs1[i]));
            assert(call_ensures(self.keep_spec(), (all[i], w), bs2[i]));
        }
        assert(bs1 =~= bs2);
    }

    /// The entities the filter keeps, in the query's order.
    pub fn execute(self) -> (r: Vec<EntityHandle>)
        requires
            self.query_spec().world_spec().wf(),
            forall|h: EntityHandle, w: &World| call_requires(self.keep_spec(), (h, w)),
        ensures
            self.selects(r@),
    {
        let ghost me = self;
        let FilteredQuery { query, keep } = self;
        proof {
            assert(keep == me.keep_spec());
            assert(query == me.query_spec());
        }
        let world = query.world;
        let ghost all = query.result_spec();
        let ghost wr = query.world_ref();
        let handles = query.execute();
        let mut out: Vec<EntityHandle> = Vec::new();
        let ghost mut bs: Seq<bool> = Seq::empty();
        let mut i: usize = 0;
        while i < handles.len()
            invariant
                handles@ == all,
                world == wr,
                i <= handles@.len(),
                bs.len() == i,
                forall|h: EntityHandle, w: &World| call_requires(keep, (h, w)),
                out@ == kept(all.subrange(0, i as int), bs),
                forall|q: int| 0 <= q < i ==> call_ensures(keep, (all[q], wr), #[trigger] bs[q]),
            decreases handles@.len() - i,
        {
            let h = handles[i];
            let b = keep(h, world);
            proof {
                let bs2 = bs.push(b);
                assert(all.subrange(0, i + 1).drop_last() =~= all.subrange(0, i as int));
                assert(bs2.drop_last() =~= bs);
                assert(all.subrange(0, i + 1).last() == h);
            }
            if b {
                out.push(h);
            }
            proof {
                bs = bs.push(b);
            }
            i = i + 1;
        }
        proof {
            assert(all.subrange(0, i as int) =~= all);
            assert(me.selects(out@));
        }
        out
    }

    /// Number of entities the filter keeps.
    pub fn count(self) -> (n: usize)
        requires
            self.query_spec().world_spec().wf(),
            forall|h: EntityHandle, w: &World| call_requires(self.keep_spec(), (h, w)),
        ensures
            exists|r: Seq<EntityHandle>| self.selects(r) && n == r.len(),
    {
        let r = self.execute();
        r.len()
    }

    /// The first entity the filter keeps.
    pub fn first(self) -> (r: Option<EntityHandle>)
        requires
            self.query_spec().world_spec().wf(),
            forall|h: EntityHandle, w: &World| call_requires(self.keep_spec(), (h, w)),
        ensures
            exists|v: Seq<EntityHandle>| self.selects(v)
                && r == if v.len() > 0 { Some(v[0]) } else { None::<EntityHandle> },
    {
        let all = self.execute();
        if all.len() > 0 {
            Some(all[0])
        } else {
            None
        }
    }
}

/// Live entities that have attribute `A`, archetype by archetype.
pub fn with_attr<A: TypedAttr>(world: &World) -> (r: Vec<EntityHandle>)
    requires
        world.wf(),
    ensures
        r@ == match world.names().find_spec(A::NAME@) {
            Some(id) => query_spec(world.archs(), seq![id], Seq::empty()),
            None => Seq::<EntityHandle>::empty(),
        },
{
    match world.interner().find(A::NAME) {
        Some(_) => {
            let q = QueryBuilder::new(world).with::<A>();
            q.execute()
        },
        None => Vec::new(),
    }
}

/// Number of live entities that have attribute `A`.
pub fn count_with<A: TypedAttr>(world: &World) -> (n: usize)
    requires
        world.wf(),
    ensures
        n == match world.names().find_spec(A::NAME@) {
            Some(id) => query_spec(world.archs(), seq![id], Seq::empty()).len(),
            None => 0,
        },
{
    with_attr::<A>(world).len()
}

impl World {
    /// A query over this world.
    pub fn query(&self) -> (q: QueryBuilder<'_>)
        ensures
            q.world_spec() == *self,
            q.required_spec() == Seq::<InternedStr>::empty(),
            q.excluded_spec() == Seq::<InternedStr>::empty(),
            !q.impossible_spec(),
    {
        QueryBuilder::new(self)
    }
}

} // verus!
