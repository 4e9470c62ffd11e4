//! Relations between entities (parent/child, targeting, ownership), kept
//! as a forward list per source and a backward list per target.

use vstd::prelude::*;
use std::collections::HashMap;
use crate::archetype::EntityId;
use crate::interning::str_eq;

verus! {

broadcast use vstd::std_specs::hash::group_hash_axioms;

/// A kind of relation, named by `NAME`.
pub trait Relation {
    const NAME: &'static str;
}

/// One edge as stored in a list: relation id and the entity at the other end.
pub type Edge = (u32, EntityId);

/// Hash key of an entity id: index in the high half, generation in the low.
pub open spec fn key_spec(e: EntityId) -> u64 {
    (e.index as int * 0x1_0000_0000 + e.generation as int) as u64
}

pub fn entity_key(e: EntityId) -> (k: u64)
    ensures
        k == key_spec(e),
{
    proof {
        assert(e.index as int * 0x1_0000_0000 + e.generation as int <= u64::MAX) by (nonlinear_arith)
            requires e.index <= u32::MAX, e.generation <= u32::MAX;
    }
    (e.index as u64) * 0x1_0000_0000 + (e.generation as u64)
}

/// Distinct entity ids have distinct keys.
pub proof fn lemma_key_injective(a: EntityId, b: EntityId)
    ensures
        key_spec(a) == key_spec(b) ==> a == b,
{
    assert(a.index as int * 0x1_0000_0000 + a.generation as int <= u64::MAX) by (nonlinear_arith)
        requires a.index <= u32::MAX, a.generation <= u32::MAX;
    assert(b.index as int * 0x1_0000_0000 + b.generation as int <= u64::MAX) by (nonlinear_arith)
        requires b.index <= u32::MAX, b.generation <= u32::MAX;
    if key_spec(a) == key_spec(b) {
        assert(a.index == b.index && a.generation == b.generation) by (nonlinear_arith)
            requires
                a.index as int * 0x1_0000_0000 + a.generation as int == b.index as int * 0x1_0000_0000 + b.generation as int,
                a.generation < 0x1_0000_0000,
                b.generation < 0x1_0000_0000,
                0 <= a.generation, 0 <= b.generation;
    }
}

/// The list of `m` under `e`, empty when there is none.
pub open spec fn list_of(m: Map<u64, Vec<Edge>>, e: EntityId) -> Seq<Edge> {
    if m.contains_key(key_spec(e)) { m[key_spec(e)]@ } else { Seq::empty() }
}

/// Holds of the edges of relation `rel`.
pub open spec fn has_rel(rel: u32) -> spec_fn(Edge) -> bool {
    |x: Edge| x.0 == rel
}

/// Holds of every edge but `(rel, other)`.
pub open spec fn not_edge(rel: u32, other: EntityId) -> spec_fn(Edge) -> bool {
    |x: Edge| !(x.0 == rel && x.1 == other)
}

/// Holds of the edges of other relations than `rel`.
pub open spec fn not_rel(rel: u32) -> spec_fn(Edge) -> bool {
    |x: Edge| x.0 != rel
}

/// Far end of an edge.
pub open spec fn edge_end(x: Edge) -> EntityId {
    x.1
}

/// The entities at the far end of the edges with relation id `rel`, in order.
pub open spec fn ends_with(list: Seq<Edge>, rel: u32) -> Seq<EntityId> {
    list.filter(has_rel(rel)).map_values(|x: Edge| edge_end(x))
}

/// `list` without the edges `(rel, other)`.
pub open spec fn without_edge(list: Seq<Edge>, rel: u32, other: EntityId) -> Seq<Edge> {
    list.filter(not_edge(rel, other))
}

/// `list` without the edges of relation `rel`.
pub open spec fn without_rel(list: Seq<Edge>, rel: u32) -> Seq<Edge> {
    list.filter(not_rel(rel))
}

/// Holds of every edge `y` of the list of `x` but those whose far end is
/// `other` and whose relation links `x` in `listed`.
pub open spec fn strip(listed: Seq<Edge>, x: EntityId, other: EntityId) -> spec_fn(Edge) -> bool {
    |y: Edge| !(y.1 == other && listed.contains((y.0, x)))
}

/// Two filters in a row are one filter by both predicates.
pub proof fn lemma_filter_filter(s: Seq<Edge>, p: spec_fn(Edge) -> bool, q: spec_fn(Edge) -> bool)
    ensures
        s.filter(p).filter(q) == s.filter(|y: Edge| p(y) && q(y)),
    decreases s.len(),
{
    let pq = |y: Edge| p(y) && q(y);
    if s.len() == 0 {
        assert(s.filter(p) =~= Seq::<Edge>::empty());
        assert(s.filter(p).filter(q) =~= Seq::<Edge>::empty());
        assert(s.filter(pq) =~= Seq::<Edge>::empty());
    } else {
        let init = s.drop_last();
        let x = s.last();
        assert(s =~= init.push(x));
        lemma_filter_filter(init, p, q);
        init.lemma_filter_push(x, p);
        init.lemma_filter_push(x, pq);
        if p(x) {
            init.filter(p).lemma_filter_push(x, q);
        }
    }
}

/// A filter that keeps everything keeps the sequence.
pub proof fn lemma_filter_true(s: Seq<Edge>, p: spec_fn(Edge) -> bool)
    requires
        forall|y: Edge| #[trigger] p(y),
    ensures
        s.filter(p) == s,
    decreases s.len(),
{
    if s.len() == 0 {
        assert(s.filter(p) =~= s);
    } else {
        let init = s.drop_last();
        assert(s =~= init.push(s.last()));
        lemma_filter_true(init, p);
        init.lemma_filter_push(s.last(), p);
    }
}

/// `x` is in `s` filtered by `p` exactly when it is in `s` and meets `p`.
proof fn lemma_filter_has(s: Seq<Edge>, p: spec_fn(Edge) -> bool, x: Edge)
    ensures
        s.filter(p).contains(x) <==> s.contains(x) && p(x),
{
    if s.filter(p).contains(x) {
        s.lemma_filter_contains_rev(p, x);
        let i = choose|i: int| 0 <= i < s.filter(p).len() && s.filter(p)[i] == x;
        s.lemma_filter_pred(p, i);
    }
    if s.contains(x) && p(x) {
        let i = choose|i: int| 0 <= i < s.len() && s[i] == x;
        s.lemma_filter_contains(p, i);
    }
}

/// The far ends of the `rel` edges of `list` are those of its `rel` edges.
proof fn lemma_ends_with_has(list: Seq<Edge>, rel: u32, x: EntityId)
    ensures
        ends_with(list, rel).contains(x) <==> list.contains((rel, x)),
{
    let f = list.filter(has_rel(rel));
    if ends_with(list, rel).contains(x) {
        let i = choose|i: int| 0 <= i < ends_with(list, rel).len() && ends_with(list, rel)[i] == x;
        list.lemma_filter_pred(has_rel(rel), i);
        assert(f[i] == (rel, x));
        lemma_filter_has(list, has_rel(rel), (rel, x));
    }
    if list.contains((rel, x)) {
        lemma_filter_has(list, has_rel(rel), (rel, x));
        let i = choose|i: int| 0 <= i < f.len() && f[i] == (rel, x);
        assert(ends_with(list, rel)[i] == x);
    }
}

/// In a table that lists every edge at both ends, `t` is among the targets
/// of relation `rel` from `s` exactly when `s` is among its sources into `t`.
pub proof fn law_targets_and_sources_agree(g: RelationGraph, s: EntityId, t: EntityId, rel: u32)
    requires
        g.mirrored(),
    ensures
        ends_with(g.fwd(s), rel).contains(t) <==> ends_with(g.bwd(t), rel).contains(s),
{
    lemma_ends_with_has(g.fwd(s), rel, t);
    lemma_ends_with_has(g.bwd(t), rel, s);
    assert(g.fwd(s).contains((rel, t)) <==> g.bwd(t).contains((rel, s)));
}

/// Appending an edge appends its far end to the ends of its relation, and
/// leaves those of other relations.
proof fn lemma_ends_with_push(list: Seq<Edge>, y: Edge, rel: u32)
    ensures
        ends_with(list.push(y), rel) == if y.0 == rel { ends_with(list, rel).push(y.1) } else { ends_with(list, rel) },
{
    list.lemma_filter_push(y, has_rel(rel));
    if y.0 == rel {
        assert(ends_with(list.push(y), rel) =~= ends_with(list, rel).push(y.1));
    }
}

/// A list with no edge of relation `rel` has no ends for it.
proof fn lemma_ends_with_none(list: Seq<Edge>, rel: u32)
    requires
        forall|x: Edge| #[trigger] list.contains(x) ==> x.0 != rel,
    ensures
        ends_with(list, rel) == Seq::<EntityId>::empty(),
{
    let f = list.filter(has_rel(rel));
    if f.len() > 0 {
        assert(f.contains(f[0]));
        lemma_filter_has(list, has_rel(rel), f[0]);
    }
    assert(f =~= Seq::<Edge>::empty());
    assert(ends_with(list, rel) =~= Seq::<EntityId>::empty());
}

/// `x` is in `s` with `y` appended exactly when it is in `s` or is `y`.
proof fn lemma_push_has(s: Seq<Edge>, y: Edge, x: Edge)
    ensures
        s.push(y).contains(x) <==> s.contains(x) || x == y,
{
    if s.push(y).contains(x) {
        let i = choose|i: int| 0 <= i < s.push(y).len() && s.push(y)[i] == x;
        if i < s.len() {
            assert(s[i] == x);
        }
    }
    if s.contains(x) {
        let i = choose|i: int| 0 <= i < s.len() && s[i] == x;
        assert(s.push(y)[i] == x);
    }
    if x == y {
        assert(s.push(y)[s.len() as int] == y);
    }
}

/// How often `x` occurs in `s`.
pub open spec fn count_in<T>(s: Seq<T>, x: T) -> nat
    decreases s.len(),
{
    if s.len() == 0 {
        0
    } else {
        count_in(s.drop_last(), x) + if s.last() == x { 1nat } else { 0nat }
    }
}

proof fn lemma_count_push<T>(s: Seq<T>, y: T, x: T)
    ensures
        count_in(s.push(y), x) == count_in(s, x) + if y == x { 1nat } else { 0nat },
{
    assert(s.push(y).drop_last() =~= s);
}

/// Filtering by `p` keeps every occurrence of `x` when `p` holds of it,
/// and none otherwise.
proof fn lemma_count_filter(s: Seq<Edge>, p: spec_fn(Edge) -> bool, x: Edge)
    ensures
        count_in(s.filter(p), x) == if p(x) { count_in(s, x) } else { 0nat },
    decreases s.len(),
{
    if s.len() == 0 {
        assert(s.filter(p) =~= s);
    } else {
        let init = s.drop_last();
        let y = s.last();
        assert(s =~= init.push(y));
        lemma_count_filter(init, p, x);
        init.lemma_filter_push(y, p);
        lemma_count_push(init.filter(p), y, x);
    }
}

/// `x` occurs in `s` exactly when `s` contains it.
proof fn lemma_count_has(s: Seq<Edge>, x: Edge)
    ensures
        count_in(s, x) > 0 <==> s.contains(x),
    decreases s.len(),
{
    if s.len() > 0 {
        let init = s.drop_last();
        assert(s =~= init.push(s.last()));
        lemma_count_has(init, x);
        lemma_push_has(init, s.last(), x);
    }
}

/// `t` occurs among the ends of the `rel` edges of `list` as often as the
/// edge `(rel, t)` occurs in it.
proof fn lemma_count_ends(list: Seq<Edge>, rel: u32, t: EntityId)
    ensures
        count_in(ends_with(list, rel), t) == count_in(list, (rel, t)),
    decreases list.len(),
{
    if list.len() == 0 {
        assert(list.filter(has_rel(rel)) =~= Seq::<Edge>::empty());
        assert(ends_with(list, rel) =~= Seq::<EntityId>::empty());
    } else {
        let init = list.drop_last();
        let y = list.last();
        assert(list =~= init.push(y));
        lemma_count_ends(init, rel, t);
        lemma_ends_with_push(init, y, rel);
        lemma_count_push(ends_with(init, rel), y.1, t);
        lemma_count_push(init, y, (rel, t));
    }
}

/// In a table whose two ends agree edge for edge, `t` is among the targets
/// of relation `name` from `s` exactly as often as `s` is among its sources
/// into `t`.
pub proof fn law_targets_and_sources_count_alike(g: RelationGraph, name: Seq<char>, s: EntityId, t: EntityId)
    requires
        g.counted(),
    ensures
        count_in(g.targets_of(name, s), t) == count_in(g.sources_of(name, t), s),
{
    if let Some(rel) = g.rel_id_spec(name) {
        lemma_count_ends(g.fwd(s), rel, t);
        lemma_count_ends(g.bwd(t), rel, s);
        assert(count_in(g.fwd(s), (rel, t)) == count_in(g.bwd(t), (rel, s)));
    }
}

/// Adding an edge at both ends keeps the ends agreeing edge for edge.
proof fn lemma_count_add(g1: RelationGraph, g2: RelationGraph, source: EntityId, target: EntityId, rel: u32)
    requires
        g1.counted(),
        forall|e: EntityId| #[trigger] g2.fwd(e) == if e == source { g1.fwd(source).push((rel, target)) } else { g1.fwd(e) },
        forall|e: EntityId| #[trigger] g2.bwd(e) == if e == target { g1.bwd(target).push((rel, source)) } else { g1.bwd(e) },
    ensures
        g2.counted(),
{
    assert forall|s: EntityId, t: EntityId, r: u32| count_in(g2.fwd(s), (r, t)) == count_in(g2.bwd(t), (r, s)) by {
        assert(g2.fwd(s) == if s == source { g1.fwd(source).push((rel, target)) } else { g1.fwd(s) });
        assert(g2.bwd(t) == if t == target { g1.bwd(target).push((rel, source)) } else { g1.bwd(t) });
        lemma_count_push(g1.fwd(source), (rel, target), (r, t));
        lemma_count_push(g1.bwd(target), (rel, source), (r, s));
        assert(count_in(g1.fwd(s), (r, t)) == count_in(g1.bwd(t), (r, s)));
    }
}

/// Removing the edges `(rel, target)` out of `source` and their mirrors
/// keeps the ends agreeing edge for edge.
proof fn lemma_count_remove(g1: RelationGraph, g2: RelationGraph, source: EntityId, target: EntityId, rel: u32)
    requires
        g1.counted(),
        forall|e: EntityId| #[trigger] g2.fwd(e) == if e == source { without_edge(g1.fwd(source), rel, target) } else { g1.fwd(e) },
        forall|e: EntityId| #[trigger] g2.bwd(e) == if e == target { without_edge(g1.bwd(target), rel, source) } else { g1.bwd(e) },
    ensures
        g2.counted(),
{
    assert forall|s: EntityId, t: EntityId, r: u32| count_in(g2.fwd(s), (r, t)) == count_in(g2.bwd(t), (r, s)) by {
        assert(g2.fwd(s) == if s == source { without_edge(g1.fwd(source), rel, target) } else { g1.fwd(s) });
        assert(g2.bwd(t) == if t == target { without_edge(g1.bwd(target), rel, source) } else { g1.bwd(t) });
        lemma_count_filter(g1.fwd(source), not_edge(rel, target), (r, t));
        lemma_count_filter(g1.bwd(target), not_edge(rel, source), (r, s));
        assert(count_in(g1.fwd(s), (r, t)) == count_in(g1.bwd(t), (r, s)));
    }
}

/// Removing every `rel` edge out of `source`, at both ends, keeps the ends
/// agreeing edge for edge.
proof fn lemma_count_remove_all(g1: RelationGraph, g2: RelationGraph, source: EntityId, rel: u32)
    requires
        g1.counted(),
        forall|e: EntityId| #[trigger] g2.fwd(e) == if e == source { without_rel(g1.fwd(source), rel) } else { g1.fwd(e) },
        forall|x: EntityId| #[trigger] g2.bwd(x) == g1.bwd(x).filter(strip(g1.fwd(source).filter(has_rel(rel)), x, source)),
    ensures
        g2.counted(),
{
    let f = g1.fwd(source).filter(has_rel(rel));
    assert forall|s: EntityId, t: EntityId, r: u32| count_in(g2.fwd(s), (r, t)) == count_in(g2.bwd(t), (r, s)) by {
        assert(g2.fwd(s) == if s == source { without_rel(g1.fwd(source), rel) } else { g1.fwd(s) });
        assert(g2.bwd(t) == g1.bwd(t).filter(strip(f, t, source)));
        lemma_count_filter(g1.fwd(source), not_rel(rel), (r, t));
        lemma_count_filter(g1.bwd(t), strip(f, t, source), (r, s));
        lemma_filter_has(g1.fwd(source), has_rel(rel), (r, t));
        lemma_count_has(g1.fwd(source), (r, t));
        assert(count_in(g1.fwd(s), (r, t)) == count_in(g1.bwd(t), (r, s)));
    }
}

/// Removing every edge out of and into `e` keeps the ends agreeing edge
/// for edge.
proof fn lemma_count_remove_entity(g1: RelationGraph, g2: RelationGraph, e: EntityId)
    requires
        g1.counted(),
        g2.fwd(e) == Seq::<Edge>::empty(),
        g2.bwd(e) == Seq::<Edge>::empty(),
        forall|x: EntityId| x != e ==> #[trigger] g2.bwd(x) == g1.bwd(x).filter(strip(g1.fwd(e), x, e)),
        forall|x: EntityId| x != e ==> #[trigger] g2.fwd(x)
            == g1.fwd(x).filter(strip(g1.bwd(e).filter(strip(g1.fwd(e), e, e)), x, e)),
    ensures
        g2.counted(),
{
    let b1 = g1.bwd(e).filter(strip(g1.fwd(e), e, e));
    assert forall|s: EntityId, t: EntityId, r: u32| count_in(g2.fwd(s), (r, t)) == count_in(g2.bwd(t), (r, s)) by {
        assert(count_in(g1.fwd(s), (r, t)) == count_in(g1.bwd(t), (r, s)));
        assert(count_in(Seq::<Edge>::empty(), (r, t)) == 0);
        assert(count_in(Seq::<Edge>::empty(), (r, s)) == 0);
        if s == e {
            if t != e {
                assert(g2.bwd(t) == g1.bwd(t).filter(strip(g1.fwd(e), t, e)));
                lemma_count_filter(g1.bwd(t), strip(g1.fwd(e), t, e), (r, s));
                lemma_count_has(g1.fwd(e), (r, t));
            }
        } else if t == e {
            assert(g2.fwd(s) == g1.fwd(s).filter(strip(b1, s, e)));
            lemma_count_filter(g1.fwd(s), strip(b1, s, e), (r, t));
            lemma_filter_has(g1.bwd(e), strip(g1.fwd(e), e, e), (r, s));
            lemma_count_has(g1.bwd(e), (r, s));
        } else {
            assert(g2.fwd(s) == g1.fwd(s).filter(strip(b1, s, e)));
            assert(g2.bwd(t) == g1.bwd(t).filter(strip(g1.fwd(e), t, e)));
            lemma_count_filter(g1.fwd(s), strip(b1, s, e), (r, t));
            lemma_count_filter(g1.bwd(t), strip(g1.fwd(e), t, e), (r, s));
        }
    }
}

/// Removing the edges `(rel, target)` out of `source` and `(rel, source)`
/// into `target` keeps every edge listed at both ends.
proof fn lemma_mirror_remove(g1: RelationGraph, g2: RelationGraph, source: EntityId, target: EntityId, rel: u32)
    requires
        g1.mirrored(),
        forall|e: EntityId| #[trigger] g2.fwd(e) == if e == source { without_edge(g1.fwd(source), rel, target) } else { g1.fwd(e) },
        forall|e: EntityId| #[trigger] g2.bwd(e) == if e == target { without_edge(g1.bwd(target), rel, source) } else { g1.bwd(e) },
    ensures
        g2.mirrored(),
{
    assert forall|s: EntityId, t: EntityId, r: u32| g2.fwd(s).contains((r, t)) <==> g2.bwd(t).contains((r, s)) by {
        lemma_filter_has(g1.fwd(source), not_edge(rel, target), (r, t));
        lemma_filter_has(g1.bwd(target), not_edge(rel, source), (r, s));
        assert(g1.fwd(s).contains((r, t)) <==> g1.bwd(t).contains((r, s)));
        assert(g2.fwd(s) == if s == source { without_edge(g1.fwd(source), rel, target) } else { g1.fwd(s) });
        assert(g2.bwd(t) == if t == target { without_edge(g1.bwd(target), rel, source) } else { g1.bwd(t) });
    }
}

/// Removing every `rel` edge out of `source`, at both ends, keeps every
/// edge listed at both ends.
proof fn lemma_mirror_remove_all(g1: RelationGraph, g2: RelationGraph, source: EntityId, rel: u32)
    requires
        g1.mirrored(),
        forall|e: EntityId| #[trigger] g2.fwd(e) == if e == source { without_rel(g1.fwd(source), rel) } else { g1.fwd(e) },
        forall|x: EntityId| #[trigger] g2.bwd(x) == g1.bwd(x).filter(strip(g1.fwd(source).filter(has_rel(rel)), x, source)),
    ensures
        g2.mirrored(),
{
    let f = g1.fwd(source).filter(has_rel(rel));
    assert forall|s: EntityId, t: EntityId, r: u32| g2.fwd(s).contains((r, t)) <==> g2.bwd(t).contains((r, s)) by {
        lemma_filter_has(g1.fwd(source), not_rel(rel), (r, t));
        lemma_filter_has(g1.bwd(t), strip(f, t, source), (r, s));
        lemma_filter_has(g1.fwd(source), has_rel(rel), (r, t));
        assert(g1.fwd(s).contains((r, t)) <==> g1.bwd(t).contains((r, s)));
        assert(g2.fwd(s) == if s == source { without_rel(g1.fwd(source), rel) } else { g1.fwd(s) });
        assert(g2.bwd(t) == g1.bwd(t).filter(strip(f, t, source)));
    }
}

/// Removing every edge out of and into `e` keeps every edge listed at both
/// ends.
proof fn lemma_mirror_remove_entity(g1: RelationGraph, g2: RelationGraph, e: EntityId)
    requires
        g1.mirrored(),
        g2.fwd(e) == Seq::<Edge>::empty(),
        g2.bwd(e) == Seq::<Edge>::empty(),
        forall|x: EntityId| x != e ==> #[trigger] g2.bwd(x) == g1.bwd(x).filter(strip(g1.fwd(e), x, e)),
        forall|x: EntityId| x != e ==> #[trigger] g2.fwd(x)
            == g1.fwd(x).filter(strip(g1.bwd(e).filter(strip(g1.fwd(e), e, e)), x, e)),
    ensures
        g2.mirrored(),
{
    let b1 = g1.bwd(e).filter(strip(g1.fwd(e), e, e));
    assert forall|s: EntityId, t: EntityId, r: u32| g2.fwd(s).contains((r, t)) <==> g2.bwd(t).contains((r, s)) by {
        assert(g1.fwd(s).contains((r, t)) <==> g1.bwd(t).contains((r, s)));
        assert(g1.fwd(e).contains((r, t)) <==> g1.bwd(t).contains((r, e)));
        assert(g1.fwd(s).contains((r, e)) <==> g1.bwd(e).contains((r, s)));
        if s == e {
            assert(!g2.fwd(s).contains((r, t)));
            if t != e {
                lemma_filter_has(g1.bwd(t), strip(g1.fwd(e), t, e), (r, s));
            }
        } else if t == e {
            assert(!g2.bwd(t).contains((r, s)));
            lemma_filter_has(g1.fwd(s), strip(b1, s, e), (r, t));
            lemma_filter_has(g1.bwd(e), strip(g1.fwd(e), e, e), (r, s));
        } else {
            lemma_filter_has(g1.fwd(s), strip(b1, s, e), (r, t));
            lemma_filter_has(g1.bwd(t), strip(g1.fwd(e), t, e), (r, s));
        }
    }
}

/// Keeping only some of each entity's edges, under the same relation table,
/// keeps the graph well formed.
proof fn lemma_wf_after_shrink(g1: RelationGraph, g2: RelationGraph)
    requires
        g1.wf(),
        g2.next_id == g1.next_id,
        g2.relation_names@ == g1.relation_names@,
        forall|e: EntityId, x: Edge| #[trigger] g2.fwd(e).contains(x) ==> g1.fwd(e).contains(x),
        forall|e: EntityId, x: Edge| #[trigger] g2.bwd(e).contains(x) ==> g1.bwd(e).contains(x),
    ensures
        g2.wf(),
{
    assert(g2.rel_names() == g1.rel_names());
}

/// What adding the edge `(rel, target)` out of `source`, and its mirror into
/// `target`, does to the targets and sources of every relation name.
proof fn lemma_add_views(g1: RelationGraph, g2: RelationGraph, name: Seq<char>, rel: u32, source: EntityId, target: EntityId)
    requires
        g1.wf(),
        g2.wf(),
        g2.rel_id_spec(name) == Some(rel),
        g1.rel_id_spec(name) is Some ==> g2.rel_names() == g1.rel_names(),
        g1.rel_id_spec(name) is None ==> rel as int == g1.rel_names().len() && g2.rel_names() == g1.rel_names().push(name),
        forall|n: Seq<char>| g1.rel_id_spec(n) is Some ==> g2.rel_id_spec(n) == g1.rel_id_spec(n),
        forall|e: EntityId| #[trigger] g2.fwd(e) == if e == source { g1.fwd(source).push((rel, target)) } else { g1.fwd(e) },
        forall|e: EntityId| #[trigger] g2.bwd(e) == if e == target { g1.bwd(target).push((rel, source)) } else { g1.bwd(e) },
    ensures
        g2.targets_of(name, source) == g1.targets_of(name, source).push(target),
        g2.sources_of(name, target) == g1.sources_of(name, target).push(source),
        forall|n: Seq<char>, x: EntityId| n != name || x != source ==> #[trigger] g2.targets_of(n, x) == g1.targets_of(n, x),
        forall|n: Seq<char>, y: EntityId| n != name || y != target ==> #[trigger] g2.sources_of(n, y) == g1.sources_of(n, y),
{
    assert(g2.rel_names()[rel as int] == name);
    lemma_ends_with_push(g1.fwd(source), (rel, target), rel);
    lemma_ends_with_push(g1.bwd(target), (rel, source), rel);
    assert(g2.fwd(source) == g1.fwd(source).push((rel, target)));
    assert(g2.bwd(target) == g1.bwd(target).push((rel, source)));
    if g1.rel_id_spec(name) is None {
        assert forall|x: Edge| #[trigger] g1.fwd(source).contains(x) implies x.0 != rel by {}
        assert forall|x: Edge| #[trigger] g1.bwd(target).contains(x) implies x.0 != rel by {}
        lemma_ends_with_none(g1.fwd(source), rel);
        lemma_ends_with_none(g1.bwd(target), rel);
        assert(Seq::<EntityId>::empty().push(target) =~= seq![target]);
        assert(Seq::<EntityId>::empty().push(source) =~= seq![source]);
    }
    assert forall|n: Seq<char>, x: EntityId| n != name || x != source implies #[trigger] g2.targets_of(n, x) == g1.targets_of(n, x) by {
        assert(g2.fwd(x) == if x == source { g1.fwd(source).push((rel, target)) } else { g1.fwd(x) });
        lemma_other_name(g1, g2, name, rel, n);
        if g1.rel_id_spec(n) is Some {
            let r = g1.rel_id_spec(n).unwrap();
            if x == source {
                lemma_ends_with_push(g1.fwd(source), (rel, target), r);
            }
        } else if n == name {
            assert forall|y: Edge| #[trigger] g1.fwd(x).contains(y) implies y.0 != rel by {}
            lemma_ends_with_none(g1.fwd(x), rel);
        }
    }
    assert forall|n: Seq<char>, y: EntityId| n != name || y != target implies #[trigger] g2.sources_of(n, y) == g1.sources_of(n, y) by {
        assert(g2.bwd(y) == if y == target { g1.bwd(target).push((rel, source)) } else { g1.bwd(y) });
        lemma_other_name(g1, g2, name, rel, n);
        if g1.rel_id_spec(n) is Some {
            let r = g1.rel_id_spec(n).unwrap();
            if y == target {
                lemma_ends_with_push(g1.bwd(target), (rel, source), r);
            }
        } else if n == name {
            assert forall|z: Edge| #[trigger] g1.bwd(y).contains(z) implies z.0 != rel by {}
            lemma_ends_with_none(g1.bwd(y), rel);
        }
    }
}

/// A name other than the one just given `rel` keeps its id, or its absence,
/// and a known one has an id other than `rel`.
proof fn lemma_other_name(g1: RelationGraph, g2: RelationGraph, name: Seq<char>, rel: u32, n: Seq<char>)
    requires
        g1.wf(),
        g2.wf(),
        g2.rel_id_spec(name) == Some(rel),
        g1.rel_id_spec(name) is Some ==> g2.rel_names() == g1.rel_names(),
        g1.rel_id_spec(name) is None ==> rel as int == g1.rel_names().len() && g2.rel_names() == g1.rel_names().push(name),
        forall|m: Seq<char>| g1.rel_id_spec(m) is Some ==> g2.rel_id_spec(m) == g1.rel_id_spec(m),
    ensures
        g1.rel_id_spec(n) is Some ==> g2.rel_id_spec(n) == g1.rel_id_spec(n),
        g1.rel_id_spec(n) is Some && n != name ==> g1.rel_id_spec(n).unwrap() != rel,
        g1.rel_id_spec(n) is None && n != name ==> g2.rel_id_spec(n) is None,
{
    assert(g2.rel_names()[rel as int] == name);
    if g1.rel_id_spec(n) is Some {
        let k = g1.rel_names().index_of(n);
        assert(g1.rel_names()[k] == n);
        assert(g2.rel_id_spec(n) == g1.rel_id_spec(n));
        let k2 = g2.rel_names().index_of(n);
        assert(g2.rel_names()[k2] == n);
    } else if n != name {
        if g2.rel_names().contains(n) {
            let i = choose|i: int| 0 <= i < g2.rel_names().len() && g2.rel_names()[i] == n;
            if i < g1.rel_names().len() {
                assert(g1.rel_names()[i] == n);
                assert(g1.rel_names().contains(n));
            }
        }
    }
}

#[derive(Clone)]
pub struct RelationGraph {
    forward: HashMap<u64, Vec<Edge>>,
    backward: HashMap<u64, Vec<Edge>>,
    relation_names: Vec<String>,
    next_id: u32,
}

impl RelationGraph {
    /// Edges out of `e`, in the order they were added.
    pub closed spec fn fwd(&self, e: EntityId) -> Seq<Edge> {
        list_of(self.forward@, e)
    }

    /// Edges into `e`, in the order they were added (far end = source).
    pub closed spec fn bwd(&self, e: EntityId) -> Seq<Edge> {
        list_of(self.backward@, e)
    }

    /// Relation names; the id of a name is its position.
    pub closed spec fn rel_names(&self) -> Seq<Seq<char>> {
        self.relation_names@.map_values(|s: String| s@)
    }

    pub closed spec fn wf(&self) -> bool {
        &&& self.next_id as nat == self.relation_names@.len()
        &&& forall|i: int, j: int| 0 <= i < j < self.rel_names().len() ==> self.rel_names()[i] != self.rel_names()[j]
        &&& self.ids_known()
    }

    /// Every stored edge carries the id of a known relation.
    pub open spec fn ids_known(&self) -> bool {
        &&& forall|e: EntityId, x: Edge| #[trigger] self.fwd(e).contains(x) ==> x.0 < self.rel_names().len()
        &&& forall|e: EntityId, x: Edge| #[trigger] self.bwd(e).contains(x) ==> x.0 < self.rel_names().len()
    }

    /// Id of relation `name`, if it was ever added.
    pub open spec fn rel_id_spec(&self, name: Seq<char>) -> Option<u32> {
        if self.rel_names().contains(name) {
            Some(self.rel_names().index_of(name) as u32)
        } else {
            None
        }
    }

    /// Targets of the relation named `name` from `source`, in the order added.
    pub open spec fn targets_of(&self, name: Seq<char>, source: EntityId) -> Seq<EntityId> {
        match self.rel_id_spec(name) {
            Some(rel) => ends_with(self.fwd(source), rel),
            None => Seq::<EntityId>::empty(),
        }
    }

    /// Sources of the relation named `name` into `target`, in the order added.
    pub open spec fn sources_of(&self, name: Seq<char>, target: EntityId) -> Seq<EntityId> {
        match self.rel_id_spec(name) {
            Some(rel) => ends_with(self.bwd(target), rel),
            None => Seq::<EntityId>::empty(),
        }
    }

    /// Every edge is listed at both ends as often: `(r, t)` leaves `s` as
    /// many times as `(r, s)` enters `t`.
    pub open spec fn counted(&self) -> bool {
        forall|s: EntityId, t: EntityId, r: u32|
            #![trigger count_in(self.fwd(s), (r, t))]
            #![trigger count_in(self.bwd(t), (r, s))]
            count_in(self.fwd(s), (r, t)) == count_in(self.bwd(t), (r, s))
    }

    /// Every edge is listed at both ends: `(r, t)` leaves `s` exactly when
    /// `(r, s)` enters `t`.
    pub open spec fn mirrored(&self) -> bool {
        forall|s: EntityId, t: EntityId, r: u32|
            #![trigger self.fwd(s).contains((r, t))]
            #![trigger self.bwd(t).contains((r, s))]
            self.fwd(s).contains((r, t)) <==> self.bwd(t).contains((r, s))
    }

    /// The relation table after `rel` has been given to a new name.
    pub open spec fn same_edges(&self, other: &Self) -> bool {
        &&& forall|e: EntityId| #[trigger] self.fwd(e) == other.fwd(e)
        &&& forall|e: EntityId| #[trigger] self.bwd(e) == other.bwd(e)
    }

    pub fn new() -> (g: Self)
        ensures
            g.wf(),
            g.rel_names() == Seq::<Seq<char>>::empty(),
            forall|e: EntityId| g.fwd(e) == Seq::<Edge>::empty() && g.bwd(e) == Seq::<Edge>::empty(),
            g.mirrored(),
            g.counted(),
    {
        let g = RelationGraph {
            forward: HashMap::new(),
            backward: HashMap::new(),
            relation_names: Vec::new(),
            next_id: 0,
        };
        proof {
            assert(g.rel_names() =~= Seq::<Seq<char>>::empty());
            assert forall|s: EntityId, t: EntityId, r: u32| g.fwd(s).contains((r, t)) <==> g.bwd(t).contains((r, s)) by {
                assert(g.fwd(s) == Seq::<Edge>::empty());
                assert(g.bwd(t) == Seq::<Edge>::empty());
            }
            assert forall|s: EntityId, t: EntityId, r: u32| count_in(g.fwd(s), (r, t)) == count_in(g.bwd(t), (r, s)) by {
                assert(g.fwd(s) == Seq::<Edge>::empty());
                assert(g.bwd(t) == Seq::<Edge>::empty());
            }
        }
        g
    }

    /// Id of relation `name`, if it was ever added.
    pub fn relation_id(&self, name: &str) -> (r: Option<u32>)
        requires
            self.wf(),
        ensures
            r == self.rel_id_spec(name@),
            r matches Some(i) ==> i < self.rel_names().len(),
    {
        let n = self.relation_names.len();
        let mut i: usize = 0;
        while i < n
            invariant
                self.wf(),
                n == self.relation_names@.len(),
                i <= n,
                forall|j: int| 0 <= j < i ==> self.rel_names()[j] != name@,
            decreases n - i,
        {
            if str_eq(self.relation_names[i].as_str(), name) {
                proof {
                    assert(self.rel_names()[i as int] == name@);
                    assert(self.rel_names().contains(name@));
                    let k = self.rel_names().index_of(name@);
                    assert(self.rel_names()[k] == name@);
                    assert(k == i as int);
                }
                return Some(i as u32);
            }
            i = i + 1;
        }
        None
    }

    /// Id of relation `name`, giving it the next id if it is new.
    fn get_or_create_relation_id(&mut self, name: &str) -> (id: u32)
        requires
            old(self).wf(),
            old(self).rel_id_spec(name@) is None ==> old(self).rel_names().len() < u32::MAX,
        ensures
            final(self).wf(),
            final(self).same_edges(old(self)),
            old(self).rel_id_spec(name@) matches Some(i) ==> id == i && final(self).rel_names() == old(self).rel_names(),
            old(self).rel_id_spec(name@) is None ==> id as int == old(self).rel_names().len()
                && final(self).rel_names() == old(self).rel_names().push(name@),
            final(self).rel_id_spec(name@) == Some(id),
            id < final(self).rel_names().len(),
    {
        if let Some(id) = self.relation_id(name) {
            return id;
        }
        let id = self.next_id;
        self.next_id = self.next_id + 1;
        self.relation_names.push(name.to_owned());
        proof {
            assert(self.rel_names() =~= old(self).rel_names().push(name@));
            assert(self.rel_names()[id as int] == name@);
            assert(self.rel_names().contains(name@));
            let k = self.rel_names().index_of(name@);
            assert(self.rel_names()[k] == name@);
            assert(k == id as int);
            assert forall|e: EntityId, x: Edge| #[trigger] self.fwd(e).contains(x) implies x.0 < self.rel_names().len() by {
                assert(self.fwd(e) == old(self).fwd(e));
            }
            assert forall|e: EntityId, x: Edge| #[trigger] self.bwd(e).contains(x) implies x.0 < self.rel_names().len() by {
                assert(self.bwd(e) == old(self).bwd(e));
            }
        }
        id
    }

    /// Appends `edge` to the list of `m` under `e`.
    fn push_edge(m: &mut HashMap<u64, Vec<Edge>>, e: EntityId, edge: Edge)
        ensures
            forall|x: EntityId| #[trigger] list_of(final(m)@, x) == if x == e {
                list_of(old(m)@, e).push(edge)
            } else {
                list_of(old(m)@, x)
            },
    {
        let k = entity_key(e);
        let mut list = match m.remove(&k) {
            Some(l) => l,
            None => Vec::new(),
        };
        list.push(edge);
        m.insert(k, list);
        proof {
            assert forall|x: EntityId| #[trigger] list_of(m@, x) == if x == e {
                list_of(old(m)@, e).push(edge)
            } else {
                list_of(old(m)@, x)
            } by {
                lemma_key_injective(x, e);
            }
        }
    }

    /// Removes from the list of `m` under `e` every edge `(rel, other)`; a
    /// missing list stays missing.
    fn drop_edge(m: &mut HashMap<u64, Vec<Edge>>, e: EntityId, rel: u32, other: EntityId)
        ensures
            forall|x: EntityId| #[trigger] list_of(final(m)@, x) == if x == e {
                without_edge(list_of(old(m)@, e), rel, other)
            } else {
                list_of(old(m)@, x)
            },
    {
        let k = entity_key(e);
        if let Some(list) = m.remove(&k) {
            let kept = retain_without_edge(&list, rel, other);
            m.insert(k, kept);
        }
        proof {
            assert forall|x: EntityId| #[trigger] list_of(m@, x) == if x == e {
                without_edge(list_of(old(m)@, e), rel, other)
            } else {
                list_of(old(m)@, x)
            } by {
                lemma_key_injective(x, e);
                if x == e && !old(m)@.contains_key(k) {
                    assert(without_edge(Seq::<Edge>::empty(), rel, other) =~= Seq::<Edge>::empty());
                }
            }
        }
    }

    /// Removes, from the list of every entity `x` in `m`, the edges `(rel, other)`
    /// for which `listed` holds `(rel, x)`.
    fn drop_listed(m: &mut HashMap<u64, Vec<Edge>>, listed: &Vec<Edge>, other: EntityId)
        ensures
            forall|x: EntityId| #[trigger] list_of(final(m)@, x) == list_of(old(m)@, x).filter(strip(listed@, x, other)),
    {
        let n = listed.len();
        let mut k: usize = 0;
        proof {
            assert forall|x: EntityId| #[trigger] list_of(m@, x) == list_of(old(m)@, x).filter(strip(listed@.subrange(0, 0), x, other)) by {
                lemma_filter_true(list_of(old(m)@, x), strip(listed@.subrange(0, 0), x, other));
            }
        }
        while k < n
            invariant
                n == listed@.len(),
                k <= n,
                forall|x: EntityId| #[trigger] list_of(m@, x) == list_of(old(m)@, x).filter(strip(listed@.subrange(0, k as int), x, other)),
            decreases n - k,
        {
            let (rel, end) = listed[k];
            let ghost l0 = listed@.subrange(0, k as int);
            let ghost l1 = listed@.subrange(0, k + 1);
            Self::drop_edge(m, end, rel, other);
            proof {
                assert forall|x: EntityId| #[trigger] list_of(m@, x) == list_of(old(m)@, x).filter(strip(l1, x, other)) by {
                    let base = list_of(old(m)@, x);
                    let p = strip(l0, x, other);
                    let p1 = strip(l1, x, other);
                    assert(l1 =~= l0.push((rel, end)));
                    if x == end {
                        let q = not_edge(rel, other);
                        lemma_filter_filter(base, p, q);
                        assert(p1 =~= |y: Edge| p(y) && q(y)) by {
                            assert forall|y: Edge| #[trigger] p1(y) == (p(y) && q(y)) by {
                                if l1.contains((y.0, x)) && !l0.contains((y.0, x)) {
                                    let j = choose|j: int| 0 <= j < k + 1 && l1[j] == (y.0, x);
                                    if j < k {
                                        assert(l0[j] == (y.0, x));
                                    }
                                }
                                if l0.contains((y.0, x)) {
                                    let j = choose|j: int| 0 <= j < k && l0[j] == (y.0, x);
                                    assert(l1[j] == (y.0, x));
                                }
                                if y.0 == rel && x == end {
                                    assert(l1[k as int] == (y.0, x));
                                }
                            }
                        }
                    } else {
                        assert(p1 =~= p) by {
                            assert forall|y: Edge| #[trigger] p1(y) == p(y) by {
                                if l1.contains((y.0, x)) {
                                    let j = choose|j: int| 0 <= j < k + 1 && l1[j] == (y.0, x);
                                    assert(j != k);
                                    assert(l0[j] == (y.0, x));
                                }
                                if l0.contains((y.0, x)) {
                                    let j = choose|j: int| 0 <= j < k && l0[j] == (y.0, x);
                                    assert(l1[j] == (y.0, x));
                                }
                            }
                        }
                    }
                }
            }
            k = k + 1;
        }
        proof {
            assert(listed@.subrange(0, n as int) =~= listed@);
        }
    }

    /// Adds the relation `R` from `source` to `target`.
    pub fn add<R: Relation>(&mut self, source: EntityId, target: EntityId)
        requires
            old(self).wf(),
            old(self).rel_id_spec(R::NAME@) is None ==> old(self).rel_names().len() < u32::MAX,
        ensures
            final(self).wf(),
            final(self).rel_id_spec(R::NAME@) is Some,
            ({
                let rel = final(self).rel_id_spec(R::NAME@).unwrap();
                &&& forall|e: EntityId| #[trigger] final(self).fwd(e) == if e == source {
                    old(self).fwd(source).push((rel, target))
                } else {
                    old(self).fwd(e)
                }
                &&& forall|e: EntityId| #[trigger] final(self).bwd(e) == if e == target {
                    old(self).bwd(target).push((rel, source))
                } else {
                    old(self).bwd(e)
                }
            }),
            forall|n: Seq<char>| old(self).rel_id_spec(n) is Some ==> final(self).rel_id_spec(n) == old(self).rel_id_spec(n),
            final(self).rel_names() == if old(self).rel_id_spec(R::NAME@) is Some {
                old(self).rel_names()
            } else {
                old(self).rel_names().push(R::NAME@)
            },
            old(self).mirrored() ==> final(self).mirrored(),
            old(self).counted() ==> final(self).counted(),
            final(self).targets_of(R::NAME@, source) == old(self).targets_of(R::NAME@, source).push(target),
            final(self).sources_of(R::NAME@, target) == old(self).sources_of(R::NAME@, target).push(source),
            forall|n: Seq<char>, x: EntityId| n != R::NAME@ || x != source
                ==> #[trigger] final(self).targets_of(n, x) == old(self).targets_of(n, x),
            forall|n: Seq<char>, y: EntityId| n != R::NAME@ || y != target
                ==> #[trigger] final(self).sources_of(n, y) == old(self).sources_of(n, y),
    {
        let rel_id = self.get_or_create_relation_id(R::NAME);
        let ghost mid = *self;
        Self::push_edge(&mut self.forward, source, (rel_id, target));
        Self::push_edge(&mut self.backward, target, (rel_id, source));
        proof {
            assert(self.rel_names() == mid.rel_names());
            assert(self.rel_id_spec(R::NAME@) == Some(rel_id));
            assert(self.relation_names == mid.relation_names && self.next_id == mid.next_id);
            assert forall|e: EntityId, x: Edge| #[trigger] self.fwd(e).contains(x) implies x.0 < self.rel_names().len() by {
                assert(mid.fwd(e) == old(self).fwd(e));
                if e == source {
                    lemma_push_has(mid.fwd(source), (rel_id, target), x);
                }
            }
            assert forall|e: EntityId, x: Edge| #[trigger] self.bwd(e).contains(x) implies x.0 < self.rel_names().len() by {
                assert(mid.bwd(e) == old(self).bwd(e));
                if e == target {
                    lemma_push_has(mid.bwd(target), (rel_id, source), x);
                }
            }
            assert forall|e: EntityId| #[trigger] self.fwd(e) == if e == source {
                old(self).fwd(source).push((rel_id, target))
            } else {
                old(self).fwd(e)
            } by {
                assert(mid.fwd(e) == old(self).fwd(e));
                assert(mid.fwd(source) == old(self).fwd(source));
            }
            assert forall|e: EntityId| #[trigger] self.bwd(e) == if e == target {
                old(self).bwd(target).push((rel_id, source))
            } else {
                old(self).bwd(e)
            } by {
                assert(mid.bwd(e) == old(self).bwd(e));
                assert(mid.bwd(target) == old(self).bwd(target));
            }
            if old(self).mirrored() {
                assert forall|s: EntityId, t: EntityId, r: u32| self.fwd(s).contains((r, t)) <==> self.bwd(t).contains((r, s)) by {
                    lemma_push_has(old(self).fwd(source), (rel_id, target), (r, t));
                    lemma_push_has(old(self).bwd(target), (rel_id, source), (r, s));
                    assert(old(self).fwd(s).contains((r, t)) <==> old(self).bwd(t).contains((r, s)));
                }
            }
            assert forall|n: Seq<char>| old(self).rel_id_spec(n) is Some implies final(self).rel_id_spec(n) == old(self).rel_id_spec(n) by {
                if old(self).rel_id_spec(R::NAME@) is None {
                    let k = old(self).rel_names().index_of(n);
                    assert(self.rel_names()[k] == n);
                    assert(self.rel_names().contains(n));
                    let k2 = self.rel_names().index_of(n);
                    assert(self.rel_names()[k2] == n);
                }
            }
        }
        proof {
            lemma_add_views(*old(self), *self, R::NAME@, rel_id, source, target);
            if old(self).counted() {
                lemma_count_add(*old(self), *self, source, target, rel_id);
            }
        }
    }

    /// The first target of relation `R` from `source`.
    pub fn get<R: Relation>(&self, source: EntityId) -> (r: Option<EntityId>)
        requires
            self.wf(),
        ensures
            r == (match self.rel_id_spec(R::NAME@) {
                Some(rel) => {
                    let ends = ends_with(self.fwd(source), rel);
                    if ends.len() > 0 { Some(ends[0]) } else { None }
                },
                None => None,
            }),
    {
        let rel_id = match self.relation_id(R::NAME) {
            Some(id) => id,
            None => return None,
        };
        let k = entity_key(source);
        match self.forward.get(&k) {
            Some(list) => first_end(list, rel_id),
            None => {
                proof {
                    assert(self.fwd(source) =~= Seq::<Edge>::empty());
                    assert(ends_with(self.fwd(source), rel_id).len() == 0) by {
                        assert(self.fwd(source).filter(has_rel(rel_id)) =~= Seq::<Edge>::empty());
                    }
                }
                None
            },
        }
    }

    /// All targets of relation `R` from `source`, in the order added.
    pub fn get_all<R: Relation>(&self, source: EntityId) -> (r: Vec<EntityId>)
        requires
            self.wf(),
        ensures
            r@ == self.targets_of(R::NAME@, source),
    {
        let rel_id = match self.relation_id(R::NAME) {
            Some(id) => id,
            None => return Vec::new(),
        };
        let k = entity_key(source);
        match self.forward.get(&k) {
            Some(list) => all_ends(list, rel_id),
            None => {
                proof {
                    assert(self.fwd(source).filter(has_rel(rel_id)) =~= Seq::<Edge>::empty());
                    assert(ends_with(self.fwd(source), rel_id) =~= Seq::<EntityId>::empty());
                }
                Vec::new()
            },
        }
    }

    /// All sources of relation `R` into `target`, in the order added.
    pub fn get_reverse<R: Relation>(&self, target: EntityId) -> (r: Vec<EntityId>)
        requires
            self.wf(),
        ensures
            r@ == self.sources_of(R::NAME@, target),
    {
        let rel_id = match self.relation_id(R::NAME) {
            Some(id) => id,
            None => return Vec::new(),
        };
        let k = entity_key(target);
        match self.backward.get(&k) {
            Some(list) => all_ends(list, rel_id),
            None => {
                proof {
                    assert(self.bwd(target).filter(has_rel(rel_id)) =~= Seq::<Edge>::empty());
                    assert(ends_with(self.bwd(target), rel_id) =~= Seq::<EntityId>::empty());
                }
                Vec::new()
            },
        }
    }

    /// Removes every `R` edge from `source` to `target`.
    pub fn remove<R: Relation>(&mut self, source: EntityId, target: EntityId)
        requires
            old(self).wf(),
        ensures
            final(self).wf(),
            final(self).rel_names() == old(self).rel_names(),
            old(self).rel_id_spec(R::NAME@) is None ==> final(self).same_edges(old(self)),
            old(self).rel_id_spec(R::NAME@) matches Some(rel) ==> {
                &&& forall|e: EntityId| #[trigger] final(self).fwd(e) == if e == source {
                    without_edge(old(self).fwd(source), rel, target)
                } else {
                    old(self).fwd(e)
                }
                &&& forall|e: EntityId| #[trigger] final(self).bwd(e) == if e == target {
                    without_edge(old(self).bwd(target), rel, source)
                } else {
                    old(self).bwd(e)
                }
            },
            old(self).mirrored() ==> final(self).mirrored(),
            old(self).counted() ==> final(self).counted(),
    {
        let rel_id = match self.relation_id(R::NAME) {
            Some(id) => id,
            None => return,
        };
        Self::drop_edge(&mut self.forward, source, rel_id, target);
        Self::drop_edge(&mut self.backward, target, rel_id, source);
        proof {
            assert forall|e: EntityId, x: Edge| #[trigger] self.fwd(e).contains(x) implies old(self).fwd(e).contains(x) by {
                if e == source {
                    lemma_filter_has(old(self).fwd(source), not_edge(rel_id, target), x);
                }
            }
            assert forall|e: EntityId, x: Edge| #[trigger] self.bwd(e).contains(x) implies old(self).bwd(e).contains(x) by {
                if e == target {
                    lemma_filter_has(old(self).bwd(target), not_edge(rel_id, source), x);
                }
            }
            lemma_wf_after_shrink(*old(self), *self);
            if old(self).mirrored() {
                lemma_mirror_remove(*old(self), *self, source, target, rel_id);
            }
            if old(self).counted() {
                lemma_count_remove(*old(self), *self, source, target, rel_id);
            }
        }
    }

    /// Removes every `R` edge out of `source`, in both directions.
    pub fn remove_all<R: Relation>(&mut self, source: EntityId)
        requires
            old(self).wf(),
        ensures
            final(self).wf(),
            final(self).rel_names() == old(self).rel_names(),
            old(self).rel_id_spec(R::NAME@) is None ==> final(self).same_edges(old(self)),
            old(self).rel_id_spec(R::NAME@) matches Some(rel) ==> {
                &&& forall|e: EntityId| #[trigger] final(self).fwd(e) == if e == source {
                    without_rel(old(self).fwd(source), rel)
                } else {
                    old(self).fwd(e)
                }
                &&& forall|x: EntityId| #[trigger] final(self).bwd(x)
                    == old(self).bwd(x).filter(strip(old(self).fwd(source).filter(has_rel(rel)), x, source))
            },
            old(self).mirrored() ==> final(self).mirrored(),
            old(self).counted() ==> final(self).counted(),
    {
        let rel_id = match self.relation_id(R::NAME) {
            Some(id) => id,
            None => return,
        };
        let k = entity_key(source);
        if let Some(list) = self.forward.remove(&k) {
            let rel_edges = edges_of_rel(&list, rel_id);
            let kept = retain_without_rel(&list, rel_id);
            self.forward.insert(k, kept);
            Self::drop_listed(&mut self.backward, &rel_edges, source);
            proof {
                assert forall|e: EntityId| #[trigger] self.fwd(e) == if e == source {
                    without_rel(old(self).fwd(source), rel_id)
                } else {
                    old(self).fwd(e)
                } by {
                    lemma_key_injective(e, source);
                }
            }
        } else {
            proof {
                assert forall|x: EntityId| #[trigger] self.bwd(x)
                    == old(self).bwd(x).filter(strip(old(self).fwd(source).filter(has_rel(rel_id)), x, source)) by {
                    assert(old(self).fwd(source).filter(has_rel(rel_id)) =~= Seq::<Edge>::empty());
                    lemma_filter_true(old(self).bwd(x), strip(old(self).fwd(source).filter(has_rel(rel_id)), x, source));
                }
                assert(without_rel(old(self).fwd(source), rel_id) =~= Seq::<Edge>::empty());
            }
        }
        proof {
            let f = old(self).fwd(source).filter(has_rel(rel_id));
            assert forall|e: EntityId, x: Edge| #[trigger] self.fwd(e).contains(x) implies old(self).fwd(e).contains(x) by {
                if e == source {
                    lemma_filter_has(old(self).fwd(source), not_rel(rel_id), x);
                }
            }
            assert forall|e: EntityId, x: Edge| #[trigger] self.bwd(e).contains(x) implies old(self).bwd(e).contains(x) by {
                lemma_filter_has(old(self).bwd(e), strip(f, e, source), x);
            }
            lemma_wf_after_shrink(*old(self), *self);
            if old(self).mirrored() {
                lemma_mirror_remove_all(*old(self), *self, source, rel_id);
            }
            if old(self).counted() {
                lemma_count_remove_all(*old(self), *self, source, rel_id);
            }
        }
    }

    /// Removes every edge out of and into `entity`: its own lists go, and
    /// each matching edge is struck from the lists of the entities at the
    /// far end.
    pub fn remove_entity(&mut self, entity: EntityId)
        requires
            old(self).wf(),
        ensures
            final(self).wf(),
            final(self).rel_names() == old(self).rel_names(),
            final(self).fwd(entity) == Seq::<Edge>::empty(),
            final(self).bwd(entity) == Seq::<Edge>::empty(),
            forall|x: EntityId| x != entity ==> #[trigger] final(self).bwd(x)
                == old(self).bwd(x).filter(strip(old(self).fwd(entity), x, entity)),
            forall|x: EntityId| x != entity ==> #[trigger] final(self).fwd(x)
                == old(self).fwd(x).filter(strip(
                    old(self).bwd(entity).filter(strip(old(self).fwd(entity), entity, entity)), x, entity)),
            old(self).mirrored() ==> final(self).mirrored(),
            old(self).counted() ==> final(self).counted(),
    {
        let k = entity_key(entity);
        let ghost b1 = old(self).bwd(entity).filter(strip(old(self).fwd(entity), entity, entity));
        let removed_fwd = self.forward.remove(&k);
        proof {
            assert(self.next_id == old(self).next_id);
            assert(self.relation_names@ == old(self).relation_names@);
            assert(self.rel_names() == old(self).rel_names());
        }
        if let Some(fl) = removed_fwd {
            proof {
                assert(old(self).forward@.contains_key(k));
                assert(fl@ == old(self).fwd(entity));
            }
            Self::drop_listed(&mut self.backward, &fl, entity);
            proof {
                assert(self.next_id == old(self).next_id);
                assert(self.relation_names == old(self).relation_names);
                assert forall|x: EntityId| #[trigger] self.bwd(x)
                    == old(self).bwd(x).filter(strip(old(self).fwd(entity), x, entity)) by {
                    assert(list_of(self.backward@, x) == list_of(old(self).backward@, x).filter(strip(fl@, x, entity)));
                }
            }
        } else {
            proof {
                assert forall|x: EntityId| #[trigger] self.bwd(x)
                    == old(self).bwd(x).filter(strip(old(self).fwd(entity), x, entity)) by {
                    lemma_filter_true(old(self).bwd(x), strip(old(self).fwd(entity), x, entity));
                }
            }
        }
        proof {
            assert(self.relation_names == old(self).relation_names);
            assert forall|x: EntityId| #[trigger] self.bwd(x)
                == old(self).bwd(x).filter(strip(old(self).fwd(entity), x, entity)) by {
            }
        }
        let ghost mid_f = self.forward@;
        let ghost mid_b = self.backward@;
        proof {
            assert(self.relation_names == old(self).relation_names);
            assert(self.next_id == old(self).next_id);
            assert forall|x: EntityId| x != entity implies #[trigger] list_of(mid_b, x)
                == old(self).bwd(x).filter(strip(old(self).fwd(entity), x, entity)) by {
                assert(self.bwd(x) == old(self).bwd(x).filter(strip(old(self).fwd(entity), x, entity)));
            }
            assert(self.bwd(entity) == b1);
            assert(list_of(mid_b, entity) == b1);
            assert(list_of(mid_f, entity) == Seq::<Edge>::empty());
            assert forall|x: EntityId| x != entity implies #[trigger] list_of(mid_f, x) == old(self).fwd(x) by {
                lemma_key_injective(x, entity);
            }
        }
        let removed_bwd = self.backward.remove(&k);
        if let Some(bl) = removed_bwd {
            proof {
                assert(mid_b.contains_key(k));
                assert(bl@ == list_of(mid_b, entity));
            }
            Self::drop_listed(&mut self.forward, &bl, entity);
            proof {
                assert(bl@ == b1);
                assert forall|x: EntityId| x != entity implies #[trigger] self.bwd(x)
                    == old(self).bwd(x).filter(strip(old(self).fwd(entity), x, entity)) by {
                    lemma_key_injective(x, entity);
                    assert(list_of(mid_b, x) == old(self).bwd(x).filter(strip(old(self).fwd(entity), x, entity)));
                }
                assert(self.fwd(entity) =~= Seq::<Edge>::empty());
            }
        } else {
            proof {
                assert(self.backward@ =~= mid_b);
                assert forall|x: EntityId| x != entity implies #[trigger] self.bwd(x)
                    == old(self).bwd(x).filter(strip(old(self).fwd(entity), x, entity)) by {
                    assert(list_of(mid_b, x) == old(self).bwd(x).filter(strip(old(self).fwd(entity), x, entity)));
                }
                assert(b1 =~= Seq::<Edge>::empty());
                assert forall|x: EntityId| x != entity implies #[trigger] self.fwd(x)
                    == old(self).fwd(x).filter(strip(b1, x, entity)) by {
                    lemma_filter_true(old(self).fwd(x), strip(b1, x, entity));
                }
            }
        }
        proof {
            assert forall|e: EntityId, x: Edge| #[trigger] self.fwd(e).contains(x) implies old(self).fwd(e).contains(x) by {
                if e != entity {
                    lemma_filter_has(old(self).fwd(e), strip(b1, e, entity), x);
                }
            }
            assert forall|e: EntityId, x: Edge| #[trigger] self.bwd(e).contains(x) implies old(self).bwd(e).contains(x) by {
                if e != entity {
                    lemma_filter_has(old(self).bwd(e), strip(old(self).fwd(entity), e, entity), x);
                }
            }
            lemma_wf_after_shrink(*old(self), *self);
            if old(self).mirrored() {
                lemma_mirror_remove_entity(*old(self), *self, entity);
            }
            if old(self).counted() {
                lemma_count_remove_entity(*old(self), *self, entity);
            }
        }
    }

    /// Whether `source` has an `R` edge.
    pub fn has<R: Relation>(&self, source: EntityId) -> (b: bool)
        requires
            self.wf(),
        ensures
            b == (match self.rel_id_spec(R::NAME@) {
                Some(rel) => ends_with(self.fwd(source), rel).len() > 0,
                None => false,
            }),
    {
        self.get::<R>(source).is_some()
    }

    /// Number of `R` edges out of `source`.
    pub fn count<R: Relation>(&self, source: EntityId) -> (n: usize)
        requires
            self.wf(),
        ensures
            n == (match self.rel_id_spec(R::NAME@) {
                Some(rel) => ends_with(self.fwd(source), rel).len(),
                None => 0,
            }),
    {
        self.get_all::<R>(source).len()
    }
}

/// The far end of the first edge of relation `rel` in `list`.
fn first_end(list: &Vec<Edge>, rel: u32) -> (r: Option<EntityId>)
    ensures
        r == (if ends_with(list@, rel).len() > 0 { Some(ends_with(list@, rel)[0]) } else { None }),
{
    let n = list.len();
    let mut i: usize = 0;
    while i < n
        invariant
            n == list@.len(),
            i <= n,
            list@.subrange(0, i as int).filter(has_rel(rel)) =~= Seq::<Edge>::empty(),
        decreases n - i,
    {
        let (id, t) = list[i];
        proof {
            let pre = list@.subrange(0, i as int);
            assert(list@.subrange(0, i + 1) =~= pre.push(list@[i as int]));
            pre.lemma_filter_push(list@[i as int], has_rel(rel));
        }
        if id == rel {
            proof {
                lemma_filter_split(list@, i as int, has_rel(rel));
                let rest = list@.subrange(i as int, n as int);
                assert(rest =~= seq![list@[i as int]] + rest.drop_first());
                rest.drop_first().lemma_filter_prepend(list@[i as int], has_rel(rel));
                assert(list@.filter(has_rel(rel)) =~= rest.filter(has_rel(rel)));
                assert(list@.filter(has_rel(rel))[0] == list@[i as int]);
            }
            return Some(t);
        }
        i = i + 1;
    }
    proof {
        assert(list@.subrange(0, n as int) =~= list@);
    }
    None
}

/// Splits a filter at position `i`.
proof fn lemma_filter_split(s: Seq<Edge>, i: int, p: spec_fn(Edge) -> bool)
    requires
        0 <= i <= s.len(),
    ensures
        s.filter(p) == s.subrange(0, i).filter(p) + s.subrange(i, s.len() as int).filter(p),
{
    assert(s =~= s.subrange(0, i) + s.subrange(i, s.len() as int));
    Seq::filter_distributes_over_add(s.subrange(0, i), s.subrange(i, s.len() as int), p);
}

/// The far ends of the edges of relation `rel` in `list`, in order.
fn all_ends(list: &Vec<Edge>, rel: u32) -> (r: Vec<EntityId>)
    ensures
        r@ == ends_with(list@, rel),
{
    let mut r: Vec<EntityId> = Vec::new();
    let n = list.len();
    let mut i: usize = 0;
    while i < n
        invariant
            n == list@.len(),
            i <= n,
            r@ == ends_with(list@.subrange(0, i as int), rel),
        decreases n - i,
    {
        let (id, t) = list[i];
        proof {
            let pre = list@.subrange(0, i as int);
            assert(list@.subrange(0, i + 1) =~= pre.push(list@[i as int]));
            pre.lemma_filter_push(list@[i as int], has_rel(rel));
        }
        if id == rel {
            r.push(t);
        }
        i = i + 1;
        proof {
            assert(r@ =~= ends_with(list@.subrange(0, i as int), rel));
        }
    }
    proof {
        assert(list@.subrange(0, n as int) =~= list@);
    }
    r
}

/// `list` without its edges `(rel, other)`.
fn retain_without_edge(list: &Vec<Edge>, rel: u32, other: EntityId) -> (r: Vec<Edge>)
    ensures
        r@ == without_edge(list@, rel, other),
{
    let mut r: Vec<Edge> = Vec::new();
    let n = list.len();
    let mut i: usize = 0;
    while i < n
        invariant
            n == list@.len(),
            i <= n,
            r@ == without_edge(list@.subrange(0, i as int), rel, other),
        decreases n - i,
    {
        let (id, t) = list[i];
        proof {
            let pre = list@.subrange(0, i as int);
            assert(list@.subrange(0, i + 1) =~= pre.push(list@[i as int]));
            pre.lemma_filter_push(list@[i as int], not_edge(rel, other));
        }
        if !(id == rel && t == other) {
            r.push((id, t));
        }
        i = i + 1;
    }
    proof {
        assert(list@.subrange(0, n as int) =~= list@);
    }
    r
}

/// The edges of relation `rel` in `list`, in order.
fn edges_of_rel(list: &Vec<Edge>, rel: u32) -> (r: Vec<Edge>)
    ensures
        r@ == list@.filter(has_rel(rel)),
{
    let mut r: Vec<Edge> = Vec::new();
    let n = list.len();
    let mut i: usize = 0;
    while i < n
        invariant
            n == list@.len(),
            i <= n,
            r@ == list@.subrange(0, i as int).filter(has_rel(rel)),
        decreases n - i,
    {
        let (id, t) = list[i];
        proof {
            let pre = list@.subrange(0, i as int);
            assert(list@.subrange(0, i + 1) =~= pre.push(list@[i as int]));
            pre.lemma_filter_push(list@[i as int], has_rel(rel));
        }
        if id == rel {
            r.push((id, t));
        }
        i = i + 1;
    }
    proof {
        assert(list@.subrange(0, n as int) =~= list@);
    }
    r
}

/// `list` without its edges of relation `rel`.
fn retain_without_rel(list: &Vec<Edge>, rel: u32) -> (r: Vec<Edge>)
    ensures
        r@ == without_rel(list@, rel),
{
    let mut r: Vec<Edge> = Vec::new();
    let n = list.len();
    let mut i: usize = 0;
    while i < n
        invariant
            n == list@.len(),
            i <= n,
            r@ == without_rel(list@.subrange(0, i as int), rel),
        decreases n - i,
    {
        let (id, t) = list[i];
        proof {
            let pre = list@.subrange(0, i as int);
            assert(list@.subrange(0, i + 1) =~= pre.push(list@[i as int]));
            pre.lemma_filter_push(list@[i as int], not_rel(rel));
        }
        if id != rel {
            r.push((id, t));
        }
        i = i + 1;
    }
    proof {
        assert(list@.subrange(0, n as int) =~= list@);
    }
    r
}

} // verus!
