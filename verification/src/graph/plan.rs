//! Execution plans: systems grouped into phases whose members write
//! disjoint components and may run side by side.

use vstd::prelude::*;
use vstd::string::StringExecFns;
use petgraph::graph::DiGraph;
use crate::archetype::ArchetypeId;
use crate::graph::GraphError;
use crate::graph::meta::{decimal, append_decimal, GraphEdge, GraphNode, MetaGraph, graph_nodes, graph_edges, out_edges,
    graph_node, graph_node_count, graph_out_edges, graph_edge_count, graph_edge_at,
    graph_new, graph_add_node, graph_add_edge};

verus! {

/// A system as the planner sees it: (name, archetype, resonator, reads, writes).
pub type SystemSpec = (Seq<char>, ArchetypeId, usize, Seq<u64>, Seq<u64>);

/// One system of a phase.
pub struct SystemExecution {
    pub archetype: ArchetypeId,
    pub resonator: usize,
    pub name: String,
}

/// Systems that may run side by side, with the components they read and write.
pub struct ExecutionPhase {
    pub systems: Vec<SystemExecution>,
    pub reads: Vec<u64>,
    pub writes: Vec<u64>,
}

/// Phases in the order they run.
pub struct ExecutionPlan {
    pub phases: Vec<ExecutionPhase>,
}

impl View for SystemExecution {
    type V = (ArchetypeId, usize, Seq<char>);

    open spec fn view(&self) -> Self::V {
        (self.archetype, self.resonator, self.name@)
    }
}

impl View for ExecutionPhase {
    type V = (Seq<(ArchetypeId, usize, Seq<char>)>, Seq<u64>, Seq<u64>);

    open spec fn view(&self) -> Self::V {
        (self.systems@.map_values(|s: SystemExecution| s@), self.reads@, self.writes@)
    }
}

impl View for ExecutionPlan {
    type V = Seq<(Seq<(ArchetypeId, usize, Seq<char>)>, Seq<u64>, Seq<u64>)>;

    open spec fn view(&self) -> Self::V {
        self.phases@.map_values(|p: ExecutionPhase| p@)
    }
}

/// The system that node `n` describes, if it is a system node.
pub open spec fn system_of(n: GraphNode) -> Option<SystemSpec> {
    match n {
        GraphNode::System { name, archetype, resonator, reads, writes, .. } => Some((name@, archetype, resonator, reads@, writes@)),
        _ => None,
    }
}

/// The systems of nodes `idx`, in order.
pub open spec fn systems_at(nodes: Seq<GraphNode>, idx: Seq<usize>) -> Seq<SystemSpec> {
    idx.map_values(|i: usize| system_of(nodes[i as int]).unwrap())
}

/// The nodes of `order` that are system nodes of `nodes`, in order.
pub open spec fn system_nodes_in(nodes: Seq<GraphNode>, order: Seq<usize>) -> Seq<usize>
    decreases order.len(),
{
    if order.len() == 0 {
        Seq::empty()
    } else {
        let rest = system_nodes_in(nodes, order.drop_last());
        let i = order.last();
        if (i as int) < nodes.len() && system_of(nodes[i as int]) is Some {
            rest.push(i)
        } else {
            rest
        }
    }
}

/// Components written by the systems of `t`, in order.
pub open spec fn writes_of(t: Seq<SystemSpec>) -> Seq<u64>
    decreases t.len(),
{
    if t.len() == 0 {
        Seq::empty()
    } else {
        writes_of(t.drop_last()) + t.last().4
    }
}

/// Components read by the systems of `t`, in order.
pub open spec fn reads_of(t: Seq<SystemSpec>) -> Seq<u64>
    decreases t.len(),
{
    if t.len() == 0 {
        Seq::empty()
    } else {
        reads_of(t.drop_last()) + t.last().3
    }
}

/// Some component of `w` is in `acc`.
pub open spec fn shares(w: Seq<u64>, acc: Seq<u64>) -> bool {
    exists|i: int| 0 <= i < w.len() && acc.contains(w[i])
}

/// Node `i` depends on a node of `start`: a dependency edge leads from `i`
/// to it.
pub open spec fn blocked(edges: Seq<(usize, usize, GraphEdge)>, start: Seq<usize>, i: usize) -> bool {
    exists|e: int| 0 <= e < edges.len() && (#[trigger] edges[e]).0 == i && edges[e].2 == GraphEdge::DependsOn
        && start.contains(edges[e].1)
}

/// One pass over the system nodes `rem` in order, `start` being those not
/// yet in a phase: a system joins the phase unless it depends on a system
/// of `start` or writes a component that a system already in the phase
/// writes. (phase, left over)
pub open spec fn phase_pass(nodes: Seq<GraphNode>, edges: Seq<(usize, usize, GraphEdge)>, start: Seq<usize>, rem: Seq<usize>) -> (Seq<usize>, Seq<usize>)
    decreases rem.len(),
{
    if rem.len() == 0 {
        (Seq::empty(), Seq::empty())
    } else {
        let p = phase_pass(nodes, edges, start, rem.drop_last());
        let i = rem.last();
        if blocked(edges, start, i) || shares(system_of(nodes[i as int]).unwrap().4, writes_of(systems_at(nodes, p.0))) {
            (p.0, p.1.push(i))
        } else {
            (p.0.push(i), p.1)
        }
    }
}

/// The phases of system nodes `rem`: passes repeated on what is left over,
/// until nothing is left or a pass places nothing.
pub open spec fn phase_groups(nodes: Seq<GraphNode>, edges: Seq<(usize, usize, GraphEdge)>, rem: Seq<usize>) -> Seq<Seq<usize>>
    decreases rem.len(),
{
    if rem.len() == 0 {
        Seq::empty()
    } else {
        let p = phase_pass(nodes, edges, rem, rem);
        if p.1.len() < rem.len() {
            seq![p.0] + phase_groups(nodes, edges, p.1)
        } else {
            Seq::empty()
        }
    }
}

/// The system nodes of `rem` that no phase takes: those left when a pass
/// places nothing, as they depend on one another.
pub open spec fn leftover(nodes: Seq<GraphNode>, edges: Seq<(usize, usize, GraphEdge)>, rem: Seq<usize>) -> Seq<usize>
    decreases rem.len(),
{
    if rem.len() == 0 {
        Seq::empty()
    } else {
        let p = phase_pass(nodes, edges, rem, rem);
        if p.1.len() < rem.len() {
            leftover(nodes, edges, p.1)
        } else {
            rem
        }
    }
}

/// What a phase made of systems `t` holds.
pub open spec fn phase_view(t: Seq<SystemSpec>) -> (Seq<(ArchetypeId, usize, Seq<char>)>, Seq<u64>, Seq<u64>) {
    (t.map_values(|s: SystemSpec| (s.1, s.2, s.0)), reads_of(t), writes_of(t))
}

/// The plan for system nodes `rem`, in the order given.
pub open spec fn plan_view(nodes: Seq<GraphNode>, edges: Seq<(usize, usize, GraphEdge)>, rem: Seq<usize>) -> Seq<(Seq<(ArchetypeId, usize, Seq<char>)>, Seq<u64>, Seq<u64>)> {
    phase_groups(nodes, edges, rem).map_values(|t: Seq<usize>| phase_view(systems_at(nodes, t)))
}

/// The indices `0..n`.
pub open spec fn node_range(n: nat) -> Seq<usize> {
    Seq::new(n, |i: int| i as usize)
}

/// The system nodes of `nodes`, in index order.
pub open spec fn system_list(nodes: Seq<GraphNode>) -> Seq<usize> {
    system_nodes_in(nodes, node_range(nodes.len()))
}

/// Node `i` of `nodes` is a system node.
pub open spec fn is_system(nodes: Seq<GraphNode>, i: usize) -> bool {
    (i as int) < nodes.len() && system_of(nodes[i as int]) is Some
}

/// Position of system node `i` among the system nodes: how many come
/// before it.
pub open spec fn system_rank(nodes: Seq<GraphNode>, i: usize) -> usize {
    system_nodes_in(nodes, node_range(i as nat)).len() as usize
}

/// The dependency edges between system nodes among `edges`, in order, each
/// between the positions of its systems: the graph whose order the plan
/// follows and whose cycles are reported.
pub open spec fn dependency_edges(nodes: Seq<GraphNode>, edges: Seq<(usize, usize, GraphEdge)>) -> Seq<(usize, usize, GraphEdge)>
    decreases edges.len(),
{
    if edges.len() == 0 {
        Seq::empty()
    } else {
        let rest = dependency_edges(nodes, edges.drop_last());
        let e = edges.last();
        if e.2 == GraphEdge::DependsOn && is_system(nodes, e.0) && is_system(nodes, e.1) {
            rest.push((system_rank(nodes, e.0), system_rank(nodes, e.1), GraphEdge::DependsOn))
        } else {
            rest
        }
    }
}

proof fn lemma_dependency_edges_len(nodes: Seq<GraphNode>, edges: Seq<(usize, usize, GraphEdge)>)
    ensures
        dependency_edges(nodes, edges).len() <= edges.len(),
    decreases edges.len(),
{
    if edges.len() > 0 {
        lemma_dependency_edges_len(nodes, edges.drop_last());
    }
}

/// The system nodes of `order` are nodes of `nodes`.
proof fn lemma_system_nodes_in_bounded(nodes: Seq<GraphNode>, order: Seq<usize>)
    ensures
        forall|k: int| 0 <= k < system_nodes_in(nodes, order).len() ==> (#[trigger] system_nodes_in(nodes, order)[k] as int) < nodes.len(),
    decreases order.len(),
{
    if order.len() > 0 {
        lemma_system_nodes_in_bounded(nodes, order.drop_last());
        let rest = system_nodes_in(nodes, order.drop_last());
        let all = system_nodes_in(nodes, order);
        assert forall|k: int| 0 <= k < all.len() implies (#[trigger] all[k] as int) < nodes.len() by {
            if k < rest.len() {
                assert(all[k] == rest[k]);
            }
        }
    }
}

proof fn lemma_system_list_bounded(nodes: Seq<GraphNode>)
    ensures
        forall|k: int| 0 <= k < system_list(nodes).len() ==> (#[trigger] system_list(nodes)[k] as int) < nodes.len(),
{
    lemma_system_nodes_in_bounded(nodes, node_range(nodes.len()));
}

/// The system nodes among the first `i` nodes form a prefix of the system
/// list.
proof fn lemma_system_prefix(nodes: Seq<GraphNode>, i: nat)
    requires
        i <= nodes.len(),
        nodes.len() <= u32::MAX,
    ensures
        system_nodes_in(nodes, node_range(i)).len() <= system_list(nodes).len(),
        system_nodes_in(nodes, node_range(i)) == system_list(nodes).subrange(0, system_nodes_in(nodes, node_range(i)).len() as int),
    decreases nodes.len() - i,
{
    let n = nodes.len();
    let sys = system_list(nodes);
    if i == n {
        assert(node_range(n) =~= node_range(nodes.len()));
        assert(sys.subrange(0, sys.len() as int) =~= sys);
    } else {
        lemma_system_prefix(nodes, i + 1);
        lemma_system_steps(nodes, i + 1);
        let a = system_nodes_in(nodes, node_range(i));
        let b = system_nodes_in(nodes, node_range(i + 1));
        assert(a =~= b.subrange(0, a.len() as int));
        assert(a =~= sys.subrange(0, a.len() as int));
    }
}

/// The system nodes among the first `i` nodes are ascending, below `i`.
proof fn lemma_system_steps(nodes: Seq<GraphNode>, i: nat)
    requires
        i <= u32::MAX,
    ensures
        forall|a: int, b: int| 0 <= a < b < system_nodes_in(nodes, node_range(i)).len()
            ==> system_nodes_in(nodes, node_range(i))[a] < system_nodes_in(nodes, node_range(i))[b],
        forall|a: int| 0 <= a < system_nodes_in(nodes, node_range(i)).len()
            ==> (#[trigger] system_nodes_in(nodes, node_range(i))[a] as int) < i
                && is_system(nodes, system_nodes_in(nodes, node_range(i))[a]),
        i > 0 ==> system_nodes_in(nodes, node_range(i)) == if is_system(nodes, (i - 1) as usize) {
            system_nodes_in(nodes, node_range((i - 1) as nat)).push((i - 1) as usize)
        } else {
            system_nodes_in(nodes, node_range((i - 1) as nat))
        },
    decreases i,
{
    if i > 0 {
        let j = (i - 1) as nat;
        assert(node_range(i).drop_last() =~= node_range(j));
        assert(node_range(i).last() == j as usize);
        lemma_system_steps(nodes, j);
        let a = system_nodes_in(nodes, node_range(j));
        let b = system_nodes_in(nodes, node_range(i));
        if is_system(nodes, j as usize) {
            assert(b == a.push(j as usize));
            assert forall|x: int, y: int| 0 <= x < y < b.len() implies b[x] < b[y] by {
                if y == a.len() {
                    assert(b[x] == a[x]);
                    assert((a[x] as int) < j);
                } else {
                    assert(b[x] == a[x] && b[y] == a[y]);
                }
            }
            assert forall|x: int| 0 <= x < b.len() implies (#[trigger] b[x] as int) < i && is_system(nodes, b[x]) by {
                if x < a.len() {
                    assert(b[x] == a[x]);
                }
            }
        }
    }
}

/// No system of `t` writes a component that an earlier system of `t` writes.
pub open spec fn writes_disjoint(t: Seq<SystemSpec>) -> bool {
    forall|j: int| 0 <= j < t.len() ==> !shares(#[trigger] t[j].4, writes_of(t.subrange(0, j)))
}

/// The order that `petgraph::algo::toposort` gives the nodes of an acyclic
/// graph of `node_count` nodes whose successor lists, as `Graph::neighbors`
/// walks them, are `successors`.
pub uninterp spec fn toposort_order(node_count: nat, successors: Seq<Seq<usize>>) -> Seq<usize>;

/// Successor list of each node of `g`, in the order `Graph::neighbors`
/// walks it.
pub open spec fn successor_lists(g: DiGraph<GraphNode, GraphEdge>) -> Seq<Seq<usize>> {
    Seq::new(graph_nodes(g).len(), |a: int| out_targets(g, a as usize))
}

/// Targets of the outgoing edges of node `a` of `g`, in list order.
pub open spec fn out_targets(g: DiGraph<GraphNode, GraphEdge>, a: usize) -> Seq<usize> {
    out_edges(g, a).map_values(|e: (usize, GraphEdge)| e.0)
}

/// Targets of the edges of `edges` leaving `a`, the last added first.
pub open spec fn targets_newest_first(edges: Seq<(usize, usize, GraphEdge)>, a: usize) -> Seq<usize>
    decreases edges.len(),
{
    if edges.len() == 0 {
        Seq::empty()
    } else {
        let rest = targets_newest_first(edges.drop_last(), a);
        if edges.last().0 == a { seq![edges.last().1] + rest } else { rest }
    }
}

/// Successor lists of a graph of `n` nodes built by adding `edges` in order.
pub open spec fn successors_of(n: nat, edges: Seq<(usize, usize, GraphEdge)>) -> Seq<Seq<usize>> {
    Seq::new(n, |a: int| targets_newest_first(edges, a as usize))
}

/// The order of the dependency graph of the systems of `nodes` and `edges`
/// that the plan follows.
pub open spec fn plan_order(nodes: Seq<GraphNode>, edges: Seq<(usize, usize, GraphEdge)>) -> Seq<usize> {
    let n = system_list(nodes).len();
    toposort_order(n, successors_of(n, dependency_edges(nodes, edges)))
}

/// `o` lists each of the `n` nodes once, the source of every edge before its target.
pub open spec fn is_topological_order(o: Seq<usize>, n: nat, edges: Seq<(usize, usize, GraphEdge)>) -> bool {
    &&& o.len() == n
    &&& o.no_duplicates()
    &&& forall|i: int| 0 <= i < o.len() ==> (#[trigger] o[i] as int) < n
    &&& forall|e: int| 0 <= e < edges.len() ==> exists|i: int, j: int|
            #![trigger o[i], o[j]]
            0 <= i < j < o.len() && o[i] == (#[trigger] edges[e]).0 && o[j] == edges[e].1
}

#[verifier::spinoff_prover]
#[verifier::rlimit(40)]
proof fn lemma_phase_pass(nodes: Seq<GraphNode>, edges: Seq<(usize, usize, GraphEdge)>, start: Seq<usize>, rem: Seq<usize>)
    ensures
        phase_pass(nodes, edges, start, rem).0.len() + phase_pass(nodes, edges, start, rem).1.len() == rem.len(),
        phase_pass(nodes, edges, start, rem).0.to_multiset().add(phase_pass(nodes, edges, start, rem).1.to_multiset()) =~= rem.to_multiset(),
        writes_disjoint(systems_at(nodes, phase_pass(nodes, edges, start, rem).0)),
        forall|k: int| 0 <= k < phase_pass(nodes, edges, start, rem).0.len()
            ==> !blocked(edges, start, #[trigger] phase_pass(nodes, edges, start, rem).0[k]),
    decreases rem.len(),
{
    broadcast use vstd::seq_lib::to_multiset_build;
    broadcast use vstd::multiset::group_multiset_axioms;
    if rem.len() > 0 {
        let q = rem.drop_last();
        lemma_phase_pass(nodes, edges, start, q);
        let p = phase_pass(nodes, edges, start, q);
        let i = rem.last();
        assert(rem =~= q.push(i));
        let sp = systems_at(nodes, p.0);
        assert(rem.to_multiset() =~= q.to_multiset().insert(i));
        if blocked(edges, start, i) || shares(system_of(nodes[i as int]).unwrap().4, writes_of(sp)) {
            assert(phase_pass(nodes, edges, start, rem) == (p.0, p.1.push(i)));
            assert(p.1.push(i).to_multiset() =~= p.1.to_multiset().insert(i));
            assert(p.0.to_multiset().add(p.1.push(i).to_multiset()) =~= p.0.to_multiset().add(p.1.to_multiset()).insert(i));
        } else {
            assert(phase_pass(nodes, edges, start, rem) == (p.0.push(i), p.1));
            assert(p.0.push(i).to_multiset() =~= p.0.to_multiset().insert(i));
            assert(p.0.push(i).to_multiset().add(p.1.to_multiset()) =~= p.0.to_multiset().add(p.1.to_multiset()).insert(i));
            let t = p.0.push(i);
            let st = systems_at(nodes, t);
            assert(st =~= sp.push(system_of(nodes[i as int]).unwrap()));
            assert forall|j: int| 0 <= j < st.len() implies !shares(#[trigger] st[j].4, writes_of(st.subrange(0, j))) by {
                if j < sp.len() {
                    assert(st.subrange(0, j) =~= sp.subrange(0, j));
                    assert(st[j] == sp[j]);
                } else {
                    assert(st.subrange(0, j) =~= sp);
                }
            }
            assert forall|k: int| 0 <= k < t.len() implies !blocked(edges, start, #[trigger] t[k]) by {
                if k < p.0.len() {
                    assert(t[k] == p.0[k]);
                }
            }
        }
    } else {
        vstd::seq_lib::to_multiset_len(rem);
        vstd::multiset::lemma_multiset_empty_len(rem.to_multiset());
        assert(phase_pass(nodes, edges, start, rem).0 =~= rem);
        assert(phase_pass(nodes, edges, start, rem).1 =~= rem);
        assert(systems_at(nodes, phase_pass(nodes, edges, start, rem).0) =~= Seq::<SystemSpec>::empty());
    }
}

/// What a pass leaves over is drawn from what it was given, in the same
/// order: given nodes strictly ascending by `pos`, the left-over ones are too.
proof fn lemma_pass_keeps_order(nodes: Seq<GraphNode>, edges: Seq<(usize, usize, GraphEdge)>, start: Seq<usize>,
    rem: Seq<usize>, pos: spec_fn(usize) -> int)
    requires
        forall|i: int, j: int| 0 <= i < j < rem.len() ==> pos(rem[i]) < pos(rem[j]),
    ensures
        forall|x: usize| #[trigger] phase_pass(nodes, edges, start, rem).1.contains(x) ==> rem.contains(x),
        forall|i: int, j: int| 0 <= i < j < phase_pass(nodes, edges, start, rem).1.len()
            ==> pos(phase_pass(nodes, edges, start, rem).1[i]) < pos(phase_pass(nodes, edges, start, rem).1[j]),
    decreases rem.len(),
{
    if rem.len() > 0 {
        let q = rem.drop_last();
        lemma_pass_keeps_order(nodes, edges, start, q, pos);
        let p = phase_pass(nodes, edges, start, q);
        let x = rem.last();
        assert forall|y: usize| #[trigger] p.1.contains(y) implies rem.contains(y) && pos(y) < pos(x) by {
            assert(q.contains(y));
            let k = choose|k: int| 0 <= k < q.len() && q[k] == y;
            assert(rem[k] == y);
        }
        let r = phase_pass(nodes, edges, start, rem).1;
        if r.len() > p.1.len() {
            assert(r == p.1.push(x));
            assert forall|z: usize| #[trigger] r.contains(z) implies rem.contains(z) by {
                let k = choose|k: int| 0 <= k < r.len() && r[k] == z;
                if k < p.1.len() {
                    assert(p.1[k] == z);
                    assert(p.1.contains(z));
                } else {
                    assert(rem[rem.len() - 1] == z);
                }
            }
            assert forall|i: int, j: int| 0 <= i < j < r.len() implies pos(r[i]) < pos(r[j]) by {
                assert(r[i] == p.1[i]);
                assert(p.1.contains(p.1[i]));
                if j < p.1.len() {
                    assert(r[j] == p.1[j]);
                }
            }
        }
    }
}

/// Given system nodes strictly ascending by `pos`, with every dependency
/// edge between two of them leading to a higher `pos`, a pass places at
/// least one: the last is blocked by none of them, and the first one the
/// pass meets unblocked has no write to clash with.
proof fn lemma_pass_places_one(nodes: Seq<GraphNode>, edges: Seq<(usize, usize, GraphEdge)>, rem: Seq<usize>,
    pos: spec_fn(usize) -> int)
    requires
        rem.len() > 0,
        forall|i: int, j: int| 0 <= i < j < rem.len() ==> pos(rem[i]) < pos(rem[j]),
        forall|e: int| 0 <= e < edges.len() && (#[trigger] edges[e]).2 == GraphEdge::DependsOn
            && rem.contains(edges[e].0) && rem.contains(edges[e].1) ==> pos(edges[e].0) < pos(edges[e].1),
    ensures
        phase_pass(nodes, edges, rem, rem).1.len() < rem.len(),
{
    lemma_phase_pass(nodes, edges, rem, rem);
    let q = rem.drop_last();
    lemma_phase_pass(nodes, edges, rem, q);
    let p = phase_pass(nodes, edges, rem, q);
    let x = rem.last();
    if p.0.len() == 0 {
        assert(rem.contains(x)) by {
            assert(rem[rem.len() - 1] == x);
        }
        assert(!blocked(edges, rem, x)) by {
            if blocked(edges, rem, x) {
                let e = choose|e: int| 0 <= e < edges.len() && (#[trigger] edges[e]).0 == x && edges[e].2 == GraphEdge::DependsOn
                    && rem.contains(edges[e].1);
                let y = edges[e].1;
                let k = choose|k: int| 0 <= k < rem.len() && rem[k] == y;
                assert(pos(x) < pos(y));
                if k < rem.len() - 1 {
                    assert(pos(rem[k]) < pos(rem[rem.len() - 1]));
                }
            }
        }
        assert(systems_at(nodes, p.0) =~= Seq::<SystemSpec>::empty());
        assert(writes_of(systems_at(nodes, p.0)) =~= Seq::<u64>::empty());
        assert(phase_pass(nodes, edges, rem, rem).0 == p.0.push(x));
    } else {
        let r = phase_pass(nodes, edges, rem, rem);
        assert(r.0.len() >= p.0.len());
    }
}

/// Keeping the system nodes of a list keeps at most all of it.
proof fn lemma_system_nodes_in_len(nodes: Seq<GraphNode>, s: Seq<usize>)
    ensures
        system_nodes_in(nodes, s).len() <= s.len(),
    decreases s.len(),
{
    if s.len() > 0 {
        lemma_system_nodes_in_len(nodes, s.drop_last());
    }
}

/// A system node has a place in the system list, at its rank.
proof fn lemma_rank(nodes: Seq<GraphNode>, x: usize)
    requires
        is_system(nodes, x),
        nodes.len() <= u32::MAX,
    ensures
        (system_rank(nodes, x) as int) < system_list(nodes).len(),
        system_list(nodes)[system_rank(nodes, x) as int] == x,
{
    lemma_system_steps(nodes, (x + 1) as nat);
    lemma_system_prefix(nodes, (x + 1) as nat);
    let a = system_nodes_in(nodes, node_range(x as nat));
    let b = system_nodes_in(nodes, node_range((x + 1) as nat));
    assert(b == a.push(x));
    assert(b[a.len() as int] == x);
    lemma_system_steps(nodes, x as nat);
    lemma_system_nodes_in_len(nodes, node_range(x as nat));
    assert(system_rank(nodes, x) as int == a.len());
    assert(system_list(nodes).subrange(0, b.len() as int)[a.len() as int] == system_list(nodes)[a.len() as int]);
}

/// The `k`-th entry of the system list is a system node of rank `k`.
proof fn lemma_rank_of(nodes: Seq<GraphNode>, k: int)
    requires
        0 <= k < system_list(nodes).len(),
        nodes.len() <= u32::MAX,
    ensures
        is_system(nodes, system_list(nodes)[k]),
        system_rank(nodes, system_list(nodes)[k]) as int == k,
{
    let sys = system_list(nodes);
    lemma_system_steps(nodes, nodes.len());
    assert(node_range(nodes.len()) =~= node_range(nodes.len()));
    assert(is_system(nodes, sys[k]));
    lemma_rank(nodes, sys[k]);
    let r = system_rank(nodes, sys[k]) as int;
    if r < k {
        assert(sys[r] < sys[k]);
    } else if r > k {
        assert(sys[k] < sys[r]);
    }
}

/// A dependency edge between two system nodes appears among the dependency
/// edges, between their ranks.
proof fn lemma_dependency_edge(nodes: Seq<GraphNode>, edges: Seq<(usize, usize, GraphEdge)>, t: int)
    requires
        0 <= t < edges.len(),
        edges[t].2 == GraphEdge::DependsOn,
        is_system(nodes, edges[t].0),
        is_system(nodes, edges[t].1),
    ensures
        dependency_edges(nodes, edges).contains((system_rank(nodes, edges[t].0), system_rank(nodes, edges[t].1), GraphEdge::DependsOn)),
    decreases edges.len(),
{
    let x = (system_rank(nodes, edges[t].0), system_rank(nodes, edges[t].1), GraphEdge::DependsOn);
    let rest = dependency_edges(nodes, edges.drop_last());
    let d = dependency_edges(nodes, edges);
    if t == edges.len() - 1 {
        assert(d == rest.push(x));
        assert(d[rest.len() as int] == x);
    } else {
        assert(edges.drop_last()[t] == edges[t]);
        lemma_dependency_edge(nodes, edges.drop_last(), t);
        let u = choose|u: int| 0 <= u < rest.len() && rest[u] == x;
        assert(d[u] == x);
    }
}

/// Keeping the system nodes of a list of system nodes keeps them all.
proof fn lemma_all_systems(nodes: Seq<GraphNode>, s: Seq<usize>)
    requires
        forall|i: int| 0 <= i < s.len() ==> is_system(nodes, #[trigger] s[i]),
    ensures
        system_nodes_in(nodes, s) == s,
    decreases s.len(),
{
    if s.len() > 0 {
        assert(is_system(nodes, s[s.len() - 1]));
        lemma_all_systems(nodes, s.drop_last());
        assert(s.drop_last().push(s.last()) =~= s);
    }
}

/// Following a topological order of the dependency graph, every system is
/// placed in a phase: compiling never fails for clashing writes.
pub proof fn law_topological_order_places_all(nodes: Seq<GraphNode>, edges: Seq<(usize, usize, GraphEdge)>, o: Seq<usize>)
    requires
        nodes.len() <= u32::MAX,
        is_topological_order(o, system_list(nodes).len(), dependency_edges(nodes, edges)),
    ensures
        leftover(nodes, edges, system_nodes_in(nodes, o.map_values(|k: usize| system_list(nodes)[k as int]))).len() == 0,
{
    let sys = system_list(nodes);
    let deps = dependency_edges(nodes, edges);
    let m = o.map_values(|k: usize| sys[k as int]);
    assert forall|i: int| 0 <= i < m.len() implies is_system(nodes, #[trigger] m[i]) && system_rank(nodes, m[i]) == o[i] by {
        assert((o[i] as int) < sys.len());
        lemma_rank_of(nodes, o[i] as int);
    }
    lemma_all_systems(nodes, m);
    let pos = |x: usize| choose|i: int| 0 <= i < o.len() && o[i] == system_rank(nodes, x);
    assert forall|i: int| 0 <= i < m.len() implies #[trigger] pos(m[i]) == i by {
        assert(0 <= i < o.len() && o[i] == system_rank(nodes, m[i]));
        let i2 = pos(m[i]);
        assert(0 <= i2 < o.len() && o[i2] == o[i]);
        if i2 != i {
            assert(o[i2] != o[i]);
        }
    }
    assert forall|i: int, j: int| 0 <= i < j < m.len() implies pos(m[i]) < pos(m[j]) by {
        assert(pos(m[i]) == i);
        assert(pos(m[j]) == j);
    }
    assert forall|e: int| 0 <= e < edges.len() && (#[trigger] edges[e]).2 == GraphEdge::DependsOn
        && m.contains(edges[e].0) && m.contains(edges[e].1) implies pos(edges[e].0) < pos(edges[e].1) by {
        let a = choose|a: int| 0 <= a < m.len() && m[a] == edges[e].0;
        let b = choose|b: int| 0 <= b < m.len() && m[b] == edges[e].1;
        assert(is_system(nodes, m[a]) && is_system(nodes, m[b]));
        lemma_dependency_edge(nodes, edges, e);
        let x = (system_rank(nodes, edges[e].0), system_rank(nodes, edges[e].1), GraphEdge::DependsOn);
        let u = choose|u: int| 0 <= u < deps.len() && deps[u] == x;
        assert(deps[u] == x);
        let (i, j) = choose|i: int, j: int| 0 <= i < j < o.len() && o[i] == deps[u].0 && o[j] == deps[u].1;
        assert(o[a] == o[i]);
        assert(o[b] == o[j]);
        if a != i {
            assert(o[a] != o[i]);
        }
        if b != j {
            assert(o[b] != o[j]);
        }
        assert(pos(m[a]) == a);
        assert(pos(m[b]) == b);
    }
    law_dependency_order_places_all(nodes, edges, m, pos);
}

/// Systems given in an order that puts every system before those it
/// depends on are all placed: no pass comes up empty, so nothing is left
/// over. `pos` is each system's place in that order.
pub proof fn law_dependency_order_places_all(nodes: Seq<GraphNode>, edges: Seq<(usize, usize, GraphEdge)>, rem: Seq<usize>,
    pos: spec_fn(usize) -> int)
    requires
        forall|i: int, j: int| 0 <= i < j < rem.len() ==> pos(rem[i]) < pos(rem[j]),
        forall|e: int| 0 <= e < edges.len() && (#[trigger] edges[e]).2 == GraphEdge::DependsOn
            && rem.contains(edges[e].0) && rem.contains(edges[e].1) ==> pos(edges[e].0) < pos(edges[e].1),
    ensures
        leftover(nodes, edges, rem).len() == 0,
    decreases rem.len(),
{
    if rem.len() > 0 {
        lemma_pass_places_one(nodes, edges, rem, pos);
        lemma_pass_keeps_order(nodes, edges, rem, rem, pos);
        let r = phase_pass(nodes, edges, rem, rem).1;
        assert forall|e: int| 0 <= e < edges.len() && (#[trigger] edges[e]).2 == GraphEdge::DependsOn
            && r.contains(edges[e].0) && r.contains(edges[e].1) implies pos(edges[e].0) < pos(edges[e].1) by {
            assert(rem.contains(edges[e].0));
            assert(rem.contains(edges[e].1));
        }
        law_dependency_order_places_all(nodes, edges, r, pos);
    }
}

/// Every system node given lands in exactly one phase or is left over: the
/// phases and what is left over together hold the nodes given, each as
/// often as it was given.
pub proof fn law_phases_cover(nodes: Seq<GraphNode>, edges: Seq<(usize, usize, GraphEdge)>, rem: Seq<usize>)
    ensures
        phase_groups(nodes, edges, rem).flatten().to_multiset().add(leftover(nodes, edges, rem).to_multiset()) =~= rem.to_multiset(),
    decreases rem.len(),
{
    broadcast use vstd::multiset::group_multiset_axioms;
    if rem.len() == 0 {
        assert(phase_groups(nodes, edges, rem).flatten() =~= rem);
        assert(leftover(nodes, edges, rem) =~= rem);
        vstd::seq_lib::to_multiset_len(rem);
        vstd::multiset::lemma_multiset_empty_len(rem.to_multiset());
        assert(rem.to_multiset() =~= vstd::multiset::Multiset::<usize>::empty());
    } else {
        lemma_phase_pass(nodes, edges, rem, rem);
        let p = phase_pass(nodes, edges, rem, rem);
        if p.1.len() < rem.len() {
            law_phases_cover(nodes, edges, p.1);
            let g = phase_groups(nodes, edges, rem);
            assert(g == seq![p.0] + phase_groups(nodes, edges, p.1));
            assert(g.drop_first() =~= phase_groups(nodes, edges, p.1));
            assert(g.first() == p.0);
            assert(g.flatten() == p.0 + phase_groups(nodes, edges, p.1).flatten());
            vstd::seq_lib::lemma_multiset_commutative(p.0, phase_groups(nodes, edges, p.1).flatten());
            let ma = p.0.to_multiset();
            let mb = phase_groups(nodes, edges, p.1).flatten().to_multiset();
            let mc = leftover(nodes, edges, p.1).to_multiset();
            assert(leftover(nodes, edges, rem) == leftover(nodes, edges, p.1));
            assert(g.flatten().to_multiset() =~= ma.add(mb));
            assert(ma.add(mb).add(mc) =~= ma.add(mb.add(mc)));
            assert(mb.add(mc) =~= p.1.to_multiset());
            assert(ma.add(p.1.to_multiset()) =~= rem.to_multiset());
        } else {
            let e = phase_groups(nodes, edges, rem).flatten();
            assert(e =~= Seq::<usize>::empty());
            vstd::seq_lib::to_multiset_len(e);
            vstd::multiset::lemma_multiset_empty_len(e.to_multiset());
            assert(e.to_multiset() =~= vstd::multiset::Multiset::<usize>::empty());
            assert(leftover(nodes, edges, rem) == rem);
            assert(vstd::multiset::Multiset::<usize>::empty().add(rem.to_multiset()) =~= rem.to_multiset());
        }
    }
}

/// Within a phase, no two systems write the same component; no phase is
/// empty.
pub proof fn law_phase_writes_disjoint(nodes: Seq<GraphNode>, edges: Seq<(usize, usize, GraphEdge)>, rem: Seq<usize>, k: int)
    requires
        0 <= k < phase_groups(nodes, edges, rem).len(),
    ensures
        writes_disjoint(systems_at(nodes, phase_groups(nodes, edges, rem)[k])),
        phase_groups(nodes, edges, rem)[k].len() > 0,
    decreases rem.len(),
{
    lemma_phase_pass(nodes, edges, rem, rem);
    let p = phase_pass(nodes, edges, rem, rem);
    if k > 0 {
        law_phase_writes_disjoint(nodes, edges, p.1, k - 1);
    }
}

/// No more phases than systems.
pub proof fn law_phase_count(nodes: Seq<GraphNode>, edges: Seq<(usize, usize, GraphEdge)>, rem: Seq<usize>)
    ensures
        phase_groups(nodes, edges, rem).len() <= rem.len(),
    decreases rem.len(),
{
    if rem.len() > 0 {
        lemma_phase_pass(nodes, edges, rem, rem);
        if phase_pass(nodes, edges, rem, rem).1.len() < rem.len() {
            law_phase_count(nodes, edges, phase_pass(nodes, edges, rem, rem).1);
        }
    }
}

/// A system runs in a later phase than every system given that it depends
/// on: when node `i` of phase `k` has a dependency edge to a node `j` that
/// was given, `j` is in an earlier phase or left over.
pub proof fn law_dependencies_run_first(nodes: Seq<GraphNode>, edges: Seq<(usize, usize, GraphEdge)>, rem: Seq<usize>, k: int, i: usize, e: int)
    requires
        0 <= k < phase_groups(nodes, edges, rem).len(),
        phase_groups(nodes, edges, rem)[k].contains(i),
        0 <= e < edges.len(),
        edges[e].0 == i,
        edges[e].2 == GraphEdge::DependsOn,
        rem.contains(edges[e].1),
    ensures
        exists|k2: int| 0 <= k2 < k && #[trigger] phase_groups(nodes, edges, rem)[k2].contains(edges[e].1),
    decreases rem.len(),
{
    broadcast use vstd::multiset::group_multiset_axioms;
    lemma_phase_pass(nodes, edges, rem, rem);
    let p = phase_pass(nodes, edges, rem, rem);
    let g = phase_groups(nodes, edges, rem);
    let j = edges[e].1;
    assert(g == seq![p.0] + phase_groups(nodes, edges, p.1));
    if k == 0 {
        let x = choose|x: int| 0 <= x < p.0.len() && p.0[x] == i;
        assert(!blocked(edges, rem, p.0[x]));
        assert(false);
    } else {
        assert(g[k] == phase_groups(nodes, edges, p.1)[k - 1]);
        vstd::seq_lib::to_multiset_contains(rem, j);
        if p.0.contains(j) {
            assert(g[0] == p.0);
        } else {
            assert(p.0.to_multiset().count(j) == 0) by {
                if p.0.to_multiset().count(j) > 0 {
                    vstd::seq_lib::to_multiset_contains(p.0, j);
                }
            }
            assert(p.1.to_multiset().count(j) > 0);
            vstd::seq_lib::to_multiset_contains(p.1, j);
            law_dependencies_run_first(nodes, edges, p.1, k - 1, i, e);
            let k2 = choose|k2: int| 0 <= k2 < k - 1 && #[trigger] phase_groups(nodes, edges, p.1)[k2].contains(j);
            assert(g[k2 + 1] == phase_groups(nodes, edges, p.1)[k2]);
        }
    }
}

/// Some component of `w` is in `acc`.
fn shares_any(w: &Vec<u64>, acc: &Vec<u64>) -> (r: bool)
    ensures
        r == shares(w@, acc@),
{
    let mut i: usize = 0;
    while i < w.len()
        invariant
            i <= w@.len(),
            forall|q: int| 0 <= q < i ==> !acc@.contains(w@[q]),
        decreases w@.len() - i,
    {
        let mut j: usize = 0;
        while j < acc.len()
            invariant
                i < w@.len(),
                j <= acc@.len(),
                forall|q: int| 0 <= q < j ==> acc@[q] != w@[i as int],
            decreases acc@.len() - j,
        {
            if acc[j] == w[i] {
                assert(acc@.contains(w@[i as int]));
                return true;
            }
            j = j + 1;
        }
        i = i + 1;
    }
    false
}

/// Appends `src` to `dst`.
fn append_all(dst: &mut Vec<u64>, src: &Vec<u64>)
    ensures
        final(dst)@ == old(dst)@ + src@,
{
    let mut i: usize = 0;
    while i < src.len()
        invariant
            i <= src@.len(),
            dst@ == old(dst)@ + src@.subrange(0, i as int),
        decreases src@.len() - i,
    {
        dst.push(src[i]);
        i = i + 1;
        proof {
            assert(src@.subrange(0, i as int) =~= src@.subrange(0, i - 1).push(src@[i - 1]));
        }
    }
    proof {
        assert(src@.subrange(0, i as int) =~= src@);
    }
}

impl SystemExecution {
    fn copy(&self) -> (r: Self)
        ensures
            r@ == self@,
    {
        SystemExecution { archetype: self.archetype, resonator: self.resonator, name: self.name.clone() }
    }
}

impl ExecutionPhase {
    fn copy(&self) -> (r: Self)
        ensures
            r@ == self@,
    {
        let mut systems: Vec<SystemExecution> = Vec::new();
        let mut i: usize = 0;
        while i < self.systems.len()
            invariant
                i <= self.systems@.len(),
                systems@.len() == i,
                forall|q: int| 0 <= q < i ==> (#[trigger] systems@[q])@ == self.systems@[q]@,
            decreases self.systems@.len() - i,
        {
            systems.push(self.systems[i].copy());
            i = i + 1;
        }
        let r = ExecutionPhase { systems, reads: self.reads.clone(), writes: self.writes.clone() };
        proof {
            assert(r.systems@.map_values(|s: SystemExecution| s@) =~= self.systems@.map_values(|s: SystemExecution| s@));
            assert(r.reads@ =~= self.reads@);
            assert(r.writes@ =~= self.writes@);
        }
        r
    }
}

impl ExecutionPlan {
    fn copy(&self) -> (r: Self)
        ensures
            r@ == self@,
    {
        let mut phases: Vec<ExecutionPhase> = Vec::new();
        let mut i: usize = 0;
        while i < self.phases.len()
            invariant
                i <= self.phases@.len(),
                phases@.len() == i,
                forall|q: int| 0 <= q < i ==> (#[trigger] phases@[q])@ == self.phases@[q]@,
            decreases self.phases@.len() - i,
        {
            phases.push(self.phases[i].copy());
            i = i + 1;
        }
        let r = ExecutionPlan { phases };
        proof {
            assert(r@ =~= self@);
        }
        r
    }

    /// Number of phases.
    pub fn phase_count(&self) -> (n: usize)
        ensures
            n == self@.len(),
    {
        self.phases.len()
    }

    /// Number of systems over all phases.
    pub fn total_systems(&self) -> (n: usize)
        requires
            total_of(self@) <= usize::MAX,
        ensures
            n == total_of(self@),
    {
        let mut sum: usize = 0;
        let mut i: usize = 0;
        while i < self.phases.len()
            invariant
                i <= self.phases@.len(),
                sum == total_of(self@.subrange(0, i as int)),
                total_of(self@) <= usize::MAX,
            decreases self.phases@.len() - i,
        {
            proof {
                assert(self@.subrange(0, i + 1).drop_last() =~= self@.subrange(0, i as int));
                lemma_total_prefix(self@, i + 1);
            }
            sum = sum + self.phases[i].systems.len();
            i = i + 1;
        }
        proof {
            assert(self@.subrange(0, i as int) =~= self@);
        }
        sum
    }

    /// Size of the largest phase; 0 for an empty plan.
    pub fn max_parallelism(&self) -> (n: usize)
        ensures
            forall|k: int| 0 <= k < self@.len() ==> (#[trigger] self@[k]).0.len() <= n,
            self@.len() == 0 ==> n == 0,
            self@.len() > 0 ==> exists|k: int| 0 <= k < self@.len() && (#[trigger] self@[k]).0.len() == n,
    {
        let mut best: usize = 0;
        let mut i: usize = 0;
        while i < self.phases.len()
            invariant
                i <= self.phases@.len(),
                forall|k: int| 0 <= k < i ==> (#[trigger] self@[k]).0.len() <= best,
                i == 0 ==> best == 0,
                i > 0 ==> exists|k: int| 0 <= k < i && (#[trigger] self@[k]).0.len() == best,
            decreases self.phases@.len() - i,
        {
            let n = self.phases[i].systems.len();
            proof {
                assert(self@[i as int].0.len() == n);
            }
            if i == 0 || n > best {
                best = n;
            }
            i = i + 1;
        }
        best
    }
}

/// Number of systems over phases `p`.
pub open spec fn total_of(p: Seq<(Seq<(ArchetypeId, usize, Seq<char>)>, Seq<u64>, Seq<u64>)>) -> nat
    decreases p.len(),
{
    if p.len() == 0 {
        0
    } else {
        total_of(p.drop_last()) + p.last().0.len()
    }
}

proof fn lemma_total_prefix(p: Seq<(Seq<(ArchetypeId, usize, Seq<char>)>, Seq<u64>, Seq<u64>)>, i: int)
    requires
        0 <= i <= p.len(),
    ensures
        total_of(p.subrange(0, i)) <= total_of(p),
    decreases p.len() - i,
{
    if i < p.len() {
        lemma_total_prefix(p, i + 1);
        assert(p.subrange(0, i + 1).drop_last() =~= p.subrange(0, i));
    } else {
        assert(p.subrange(0, i) =~= p);
    }
}

/// The node that node `a`'s most recently listed outgoing edge leads to.
pub open spec fn first_successor(g: DiGraph<GraphNode, GraphEdge>, a: usize) -> Option<usize> {
    if out_edges(g, a).len() > 0 {
        Some(out_edges(g, a)[0].0)
    } else {
        None
    }
}

/// The walk from `cur` along first successors: it stops at a node already
/// visited, at a node without successors, or after coming back to `start`.
pub open spec fn cycle_steps(g: DiGraph<GraphNode, GraphEdge>, start: usize, cur: usize, visited: Set<int>, fuel: nat) -> Seq<usize>
    decreases fuel,
{
    if fuel == 0 || visited.contains(cur as int) {
        Seq::empty()
    } else {
        match first_successor(g, cur) {
            None => Seq::empty(),
            Some(nx) => if nx == start {
                seq![nx]
            } else {
                seq![nx] + cycle_steps(g, start, nx, visited.insert(cur as int), (fuel - 1) as nat)
            },
        }
    }
}

/// The nodes named when a cycle is reported at `start`.
pub open spec fn cycle_path(g: DiGraph<GraphNode, GraphEdge>, start: usize) -> Seq<usize> {
    seq![start] + cycle_steps(g, start, start, Set::empty(), (graph_nodes(g).len() + 1) as nat)
}

/// How an entity node is named in a cycle report.
pub open spec fn entity_label(index: u32, generation: u32) -> Seq<char> {
    "Entity("@ + decimal(index as nat) + ":"@ + decimal(generation as nat) + ")"@
}

/// How a component node is named in a cycle report.
pub open spec fn component_label(name: Seq<char>) -> Seq<char> {
    "Component("@ + name + ")"@
}

/// How an archetype node is named in a cycle report.
pub open spec fn archetype_label(id: u32) -> Seq<char> {
    "Archetype("@ + decimal(id as nat) + ")"@
}

/// The name of an entity node in a cycle report.
fn format_entity_label(index: u32, generation: u32) -> (s: String)
    ensures
        s@ == entity_label(index, generation),
{
    let mut s = String::from_str("Entity(");
    append_decimal(&mut s, index as u64);
    s.append(":");
    append_decimal(&mut s, generation as u64);
    s.append(")");
    proof {
        assert(s@ =~= entity_label(index, generation));
    }
    s
}

/// The name of a component node in a cycle report.
fn format_component_label(name: &str) -> (s: String)
    ensures
        s@ == component_label(name@),
{
    let mut s = String::from_str("Component(");
    s.append(name);
    s.append(")");
    proof {
        assert(s@ =~= component_label(name@));
    }
    s
}

/// The name of an archetype node in a cycle report.
fn format_archetype_label(id: u32) -> (s: String)
    ensures
        s@ == archetype_label(id),
{
    let mut s = String::from_str("Archetype(");
    append_decimal(&mut s, id as u64);
    s.append(")");
    proof {
        assert(s@ =~= archetype_label(id));
    }
    s
}

/// How a node is named in a cycle report.
pub open spec fn node_label(n: GraphNode) -> Seq<char> {
    match n {
        GraphNode::System { name, .. } => name@,
        GraphNode::Entity { handle, .. } => entity_label(handle.0.index, handle.0.generation),
        GraphNode::Component { name, .. } => component_label(name@),
        GraphNode::Archetype { id, .. } => archetype_label(id.0),
    }
}

/// `petgraph::algo::toposort` over the whole graph: on an acyclic graph every
/// node once, the source of each edge before its target, in the order
/// `toposort_order` names, which its depth-first walk over the nodes by
/// index and over each successor list in turn fixes; otherwise a node on a
/// cycle, which one being left unsaid.
#[verifier::external_body]
fn graph_toposort(g: &DiGraph<GraphNode, GraphEdge>) -> (r: Result<Vec<usize>, usize>)
    ensures
        r matches Ok(o) ==> is_topological_order(o@, graph_nodes(*g).len(), graph_edges(*g)),
        r matches Ok(o) ==> o@ == toposort_order(graph_nodes(*g).len(), successor_lists(*g)),
        r matches Err(c) ==> (c as int) < graph_nodes(*g).len()
            && !exists|o: Seq<usize>| is_topological_order(o, graph_nodes(*g).len(), graph_edges(*g)),
{
    match petgraph::algo::toposort(g, None) {
        Ok(order) => Ok(order.iter().map(|n| n.index()).collect()),
        Err(cycle) => Err(cycle.node_id().index()),
    }
}

impl MetaGraph {
    /// Whether node `i` has a dependency edge to a node of `start`.
    fn depends_on_any(&self, i: usize, start: &Vec<usize>) -> (b: bool)
        ensures
            b == blocked(self.edges(), start@, i),
    {
        let g = self.graph();
        let m = graph_edge_count(g);
        let mut e: usize = 0;
        while e < m
            invariant
                m == self.edges().len(),
                graph_edges(*g) == self.edges(),
                e <= m,
                forall|f: int| 0 <= f < e ==> !((#[trigger] self.edges()[f]).0 == i && self.edges()[f].2 == GraphEdge::DependsOn
                    && start@.contains(self.edges()[f].1)),
            decreases m - e,
        {
            let (a, b, w) = graph_edge_at(g, e);
            if a == i {
                match w {
                    GraphEdge::DependsOn => {
                        let mut q: usize = 0;
                        while q < start.len()
                            invariant
                                q <= start@.len(),
                                e < m,
                                m == self.edges().len(),
                                graph_edges(*g) == self.edges(),
                                (a, b, w) == self.edges()[e as int],
                                a == i,
                                w == GraphEdge::DependsOn,
                                forall|r: int| 0 <= r < q ==> start@[r] != b,
                            decreases start@.len() - q,
                        {
                            if start[q] == b {
                                proof {
                                    assert(start@[q as int] == self.edges()[e as int].1);
                                    assert(start@.contains(self.edges()[e as int].1));
                                }
                                return true;
                            }
                            q = q + 1;
                        }
                    },
                    _ => {},
                }
            }
            e = e + 1;
        }
        false
    }

    /// Phases for system nodes `systems`, taken in the order given: each
    /// pass takes, in order, the systems that depend on no system not yet
    /// in a phase and write nothing a system taken before in the pass
    /// writes. A node that is not a system, or systems no pass can take,
    /// fail the build.
    fn build_phases(&self, systems: &[usize]) -> (r: Result<Vec<ExecutionPhase>, GraphError>)
        requires
            forall|k: int| 0 <= k < systems@.len() ==> (#[trigger] systems@[k] as int) < self.nodes().len(),
        ensures
            r is Ok <==> (forall|k: int| 0 <= k < systems@.len() ==> system_of(self.nodes()[#[trigger] systems@[k] as int]) is Some)
                && leftover(self.nodes(), self.edges(), systems@).len() == 0,
            r matches Ok(p) ==> p@.map_values(|x: ExecutionPhase| x@) == plan_view(self.nodes(), self.edges(), systems@),
            r matches Err(e) ==> e is ConflictingWrites,
    {
        let g = self.graph();
        let ghost nodes = self.nodes();
        let ghost edges = self.edges();
        let mut k: usize = 0;
        while k < systems.len()
            invariant
                graph_nodes(*g) == nodes,
                nodes == self.nodes(),
                k <= systems@.len(),
                forall|q: int| 0 <= q < systems@.len() ==> (#[trigger] systems@[q] as int) < nodes.len(),
                forall|q: int| 0 <= q < k ==> system_of(nodes[#[trigger] systems@[q] as int]) is Some,
            decreases systems@.len() - k,
        {
            match graph_node(g, systems[k]) {
                GraphNode::System { .. } => {},
                _ => {
                    return Err(GraphError::ConflictingWrites {
                        system_a: "unknown".to_owned(),
                        system_b: "unknown".to_owned(),
                        component: "unknown".to_owned(),
                    });
                },
            }
            k = k + 1;
        }
        let ghost all = systems@;
        let mut remaining: Vec<usize> = Vec::new();
        let mut k: usize = 0;
        while k < systems.len()
            invariant
                k <= systems@.len(),
                remaining@ == systems@.subrange(0, k as int),
            decreases systems@.len() - k,
        {
            remaining.push(systems[k]);
            k = k + 1;
            proof {
                assert(remaining@ =~= systems@.subrange(0, k as int));
            }
        }
        proof {
            assert(remaining@ =~= systems@);
        }
        let mut phases: Vec<ExecutionPhase> = Vec::new();
        let ghost mut done: Seq<Seq<usize>> = Seq::empty();
        while remaining.len() > 0
            invariant
                all == systems@,
                forall|q: int| 0 <= q < systems@.len() ==> system_of(nodes[#[trigger] systems@[q] as int]) is Some,
                graph_nodes(*g) == nodes,
                nodes == self.nodes(),
                edges == self.edges(),
                forall|q: int| 0 <= q < remaining@.len() ==> (#[trigger] remaining@[q] as int) < nodes.len()
                    && system_of(nodes[remaining@[q] as int]) is Some,
                phase_groups(nodes, edges, all) == done + phase_groups(nodes, edges, remaining@),
                leftover(nodes, edges, all) == leftover(nodes, edges, remaining@),
                phases@.map_values(|x: ExecutionPhase| x@) == done.map_values(|t: Seq<usize>| phase_view(systems_at(nodes, t))),
            decreases remaining@.len(),
        {
            let ghost rem = remaining@;
            let mut sys: Vec<SystemExecution> = Vec::new();
            let mut reads: Vec<u64> = Vec::new();
            let mut writes: Vec<u64> = Vec::new();
            let mut left: Vec<usize> = Vec::new();
            proof {
                assert(rem.subrange(0, 0) =~= Seq::<usize>::empty());
                assert(sys@.map_values(|s: SystemExecution| s@) =~= Seq::<(ArchetypeId, usize, Seq<char>)>::empty());
                assert(systems_at(nodes, Seq::<usize>::empty()) =~= Seq::<SystemSpec>::empty());
            }
            let mut k: usize = 0;
            while k < remaining.len()
                invariant
                    graph_nodes(*g) == nodes,
                    nodes == self.nodes(),
                    edges == self.edges(),
                    rem == remaining@,
                    k <= remaining@.len(),
                    forall|q: int| 0 <= q < remaining@.len() ==> (#[trigger] remaining@[q] as int) < nodes.len()
                        && system_of(nodes[remaining@[q] as int]) is Some,
                    forall|q: int| 0 <= q < left@.len() ==> (#[trigger] left@[q] as int) < nodes.len()
                        && system_of(nodes[left@[q] as int]) is Some,
                    sys@.map_values(|s: SystemExecution| s@) == systems_at(nodes, phase_pass(nodes, edges, rem, rem.subrange(0, k as int)).0).map_values(|s: SystemSpec| (s.1, s.2, s.0)),
                    reads@ == reads_of(systems_at(nodes, phase_pass(nodes, edges, rem, rem.subrange(0, k as int)).0)),
                    writes@ == writes_of(systems_at(nodes, phase_pass(nodes, edges, rem, rem.subrange(0, k as int)).0)),
                    left@ == phase_pass(nodes, edges, rem, rem.subrange(0, k as int)).1,
                decreases remaining@.len() - k,
            {
                let i = remaining[k];
                let ghost p = phase_pass(nodes, edges, rem, rem.subrange(0, k as int));
                proof {
                    assert(rem.subrange(0, k + 1).drop_last() =~= rem.subrange(0, k as int));
                    assert(rem.subrange(0, k + 1).last() == i);
                }
                let dep = self.depends_on_any(i, &remaining);
                match graph_node(g, i) {
                    GraphNode::System { name, archetype, resonator, reads: rd, writes: wr, .. } => {
                        let ghost s = system_of(nodes[i as int]).unwrap();
                        if dep || shares_any(wr, &writes) {
                            left.push(i);
                        } else {
                            let ghost old_sys = sys@;
                            sys.push(SystemExecution { archetype: *archetype, resonator: *resonator, name: name.clone() });
                            append_all(&mut reads, rd);
                            append_all(&mut writes, wr);
                            proof {
                                let t = p.0.push(i);
                                assert(systems_at(nodes, t) =~= systems_at(nodes, p.0).push(s));
                                assert(systems_at(nodes, t).drop_last() =~= systems_at(nodes, p.0));
                                assert(sys@ =~= old_sys.push(sys@.last()));
                                assert(sys@.last()@ == (s.1, s.2, s.0));
                                assert(sys@.map_values(|x: SystemExecution| x@) =~= old_sys.map_values(|x: SystemExecution| x@).push(sys@.last()@));
                                assert(systems_at(nodes, t).map_values(|x: SystemSpec| (x.1, x.2, x.0)) =~= systems_at(nodes, p.0).map_values(|x: SystemSpec| (x.1, x.2, x.0)).push((s.1, s.2, s.0)));
                            }
                        }
                    },
                    _ => {
                        proof {
                            assert(false);
                        }
                    },
                }
                k = k + 1;
            }
            proof {
                assert(rem.subrange(0, rem.len() as int) =~= rem);
                lemma_phase_pass(nodes, edges, rem, rem);
            }
            let ghost t = phase_pass(nodes, edges, rem, rem).0;
            let ghost l = phase_pass(nodes, edges, rem, rem).1;
            proof {
                assert(sys@.map_values(|x: SystemExecution| x@).len() == sys@.len());
                assert(systems_at(nodes, t).map_values(|x: SystemSpec| (x.1, x.2, x.0)).len() == t.len());
                assert(sys@.len() == t.len());
            }
            if sys.len() == 0 {
                proof {
                    assert(l.len() == rem.len());
                    assert(leftover(nodes, edges, rem) == rem);
                    assert(leftover(nodes, edges, all).len() > 0);
                }
                return Err(GraphError::ConflictingWrites {
                    system_a: "unknown".to_owned(),
                    system_b: "unknown".to_owned(),
                    component: "unknown".to_owned(),
                });
            }
            let ghost old_done = done;
            let phase = ExecutionPhase { systems: sys, reads, writes };
            let ghost old_phases = phases@;
            phases.push(phase);
            remaining = left;
            proof {
                assert(l.len() < rem.len()) by {
                    if t.len() == 0 {
                        assert(systems_at(nodes, t) =~= Seq::<SystemSpec>::empty());
                    }
                }
                done = done.push(t);
                assert(phase@ == phase_view(systems_at(nodes, t)));
                assert(phases@.map_values(|x: ExecutionPhase| x@) =~= old_phases.map_values(|x: ExecutionPhase| x@).push(phase@));
                assert(done.map_values(|x: Seq<usize>| phase_view(systems_at(nodes, x))) =~= old_done.map_values(|x: Seq<usize>| phase_view(systems_at(nodes, x))).push(phase_view(systems_at(nodes, t))));
                assert(phase_groups(nodes, edges, rem) == seq![t] + phase_groups(nodes, edges, l));
                assert(done + phase_groups(nodes, edges, l) =~= old_done + (seq![t] + phase_groups(nodes, edges, l)));
            }
        }
        proof {
            assert(done + Seq::<Seq<usize>>::empty() =~= done);
            assert(plan_view(nodes, edges, all) =~= done.map_values(|x: Seq<usize>| phase_view(systems_at(nodes, x))));
        }
        Ok(phases)
    }

    /// Compiles the plan for the system nodes of `order`, taken in that
    /// order, stores it and marks the graph clean; systems that depend on
    /// one another so that no phase can take them fail the compilation.
    /// Nodes that are not system nodes of the graph are passed over.
    pub fn compile_from_order(&mut self, order: &Vec<usize>) -> (r: Result<ExecutionPlan, GraphError>)
        ensures
            r is Ok <==> leftover(old(self).nodes(), old(self).edges(), system_nodes_in(old(self).nodes(), order@)).len() == 0,
            r matches Ok(p) ==> {
                &&& p@ == plan_view(old(self).nodes(), old(self).edges(), system_nodes_in(old(self).nodes(), order@))
                &&& final(self).plan_spec() matches Some(q) && q@ == p@
                &&& !final(self).dirty_spec()
            },
            r matches Err(e) ==> e is ConflictingWrites && *final(self) == *old(self),
            final(self).nodes() == old(self).nodes(),
            final(self).edges() == old(self).edges(),
            final(self).graph_spec() == old(self).graph_spec(),
            final(self).entity_nodes_spec() == old(self).entity_nodes_spec(),
            final(self).system_nodes_spec() == old(self).system_nodes_spec(),
    {
        let ghost nodes = self.nodes();
        let n = graph_node_count(self.graph());
        let mut systems: Vec<usize> = Vec::new();
        let mut k: usize = 0;
        while k < order.len()
            invariant
                n == nodes.len(),
                nodes == self.nodes(),
                k <= order@.len(),
                systems@ == system_nodes_in(nodes, order@.subrange(0, k as int)),
                forall|q: int| 0 <= q < systems@.len() ==> (#[trigger] systems@[q] as int) < nodes.len()
                    && system_of(nodes[systems@[q] as int]) is Some,
            decreases order@.len() - k,
        {
            let i = order[k];
            proof {
                assert(order@.subrange(0, k + 1).drop_last() =~= order@.subrange(0, k as int));
            }
            if i < n {
                match graph_node(self.graph(), i) {
                    GraphNode::System { .. } => {
                        systems.push(i);
                    },
                    _ => {},
                }
            }
            k = k + 1;
        }
        proof {
            assert(order@.subrange(0, order@.len() as int) =~= order@);
        }
        let phases = match self.build_phases(systems.as_slice()) {
            Ok(phases) => phases,
            Err(e) => {
                return Err(e);
            },
        };
        let plan = ExecutionPlan { phases };
        let kept = plan.copy();
        self.set_execution_plan(kept);
        Ok(plan)
    }

    /// Compiles the execution plan of the system nodes: a clean graph with a
    /// stored plan gives that plan back; otherwise the nodes are ordered so
    /// that every dependency comes first, the systems grouped greedily into
    /// phases, and the plan stored. A dependency cycle fails with the names
    /// along it; clashing writes never fail it, as each pass over the
    /// remaining systems in that order places at least one.
    pub fn compile_execution_plan(&mut self) -> (r: Result<ExecutionPlan, GraphError>)
        requires
            old(self).nodes().len() <= u32::MAX,
            old(self).edges().len() <= u32::MAX,
        ensures
            !old(self).dirty_spec() && old(self).plan_spec() is Some ==> {
                &&& r matches Ok(p)
                &&& p@ == old(self).plan_spec().unwrap()@
                &&& *final(self) == *old(self)
            },
            !(!old(self).dirty_spec() && old(self).plan_spec() is Some) && old(self).system_nodes_spec().len() == 0 ==> {
                &&& r matches Ok(p)
                &&& p@ == Seq::<(Seq<(ArchetypeId, usize, Seq<char>)>, Seq<u64>, Seq<u64>)>::empty()
                &&& final(self).plan_spec() matches Some(q)
                &&& q@ == p@
                &&& !final(self).dirty_spec()
            },
            !(!old(self).dirty_spec() && old(self).plan_spec() is Some) && old(self).system_nodes_spec().len() > 0 ==> {
                let nodes = old(self).nodes();
                let sys = system_list(nodes);
                let deps = dependency_edges(nodes, old(self).edges());
                let o = plan_order(nodes, old(self).edges());
                let by_order = system_nodes_in(nodes, o.map_values(|k: usize| sys[k as int]));
                &&& (r matches Err(GraphError::CyclicDependency(_)) <==> !exists|o: Seq<usize>| is_topological_order(o, sys.len(), deps))
                &&& r matches Ok(p) ==> {
                    &&& is_topological_order(o, sys.len(), deps)
                    &&& leftover(nodes, old(self).edges(), by_order).len() == 0
                    &&& p@ == plan_view(nodes, old(self).edges(), by_order)
                    &&& final(self).plan_spec() matches Some(q)
                    &&& q@ == p@
                    &&& !final(self).dirty_spec()
                }
                &&& r matches Err(e) ==> e is CyclicDependency
                &&& r matches Err(GraphError::CyclicDependency(names)) ==> {
                    &&& *final(self) == *old(self)
                    &&& exists|g: DiGraph<GraphNode, GraphEdge>, c: usize| #![trigger cycle_path(g, c)]
                        graph_nodes(g).len() == sys.len() && graph_edges(g) == deps && (c as int) < sys.len()
                        && names@.map_values(|s: String| s@) == cycle_path(g, c).map_values(|i: usize| node_label(nodes[sys[i as int] as int]))
                }
            },
            final(self).nodes() == old(self).nodes(),
            final(self).edges() == old(self).edges(),
            final(self).entity_nodes_spec() == old(self).entity_nodes_spec(),
            final(self).system_nodes_spec() == old(self).system_nodes_spec(),
    {
        if !self.is_dirty() {
            match self.execution_plan() {
                Some(plan) => {
                    return Ok(plan.copy());
                },
                None => {},
            }
        }
        if self.system_nodes().len() == 0 {
            let plan = ExecutionPlan { phases: Vec::new() };
            self.set_execution_plan(ExecutionPlan { phases: Vec::new() });
            proof {
                assert(plan@ =~= Seq::<(Seq<(ArchetypeId, usize, Seq<char>)>, Seq<u64>, Seq<u64>)>::empty());
            }
            return Ok(plan);
        }
        let (deps, map) = self.dependency_graph();
        match graph_toposort(&deps) {
            Ok(o) => {
                let ghost sys = map@;
                let mut order: Vec<usize> = Vec::new();
                let mut k: usize = 0;
                while k < o.len()
                    invariant
                        k <= o@.len(),
                        map@ == sys,
                        forall|q: int| 0 <= q < o@.len() ==> (#[trigger] o@[q] as int) < sys.len(),
                        order@ == o@.subrange(0, k as int).map_values(|x: usize| sys[x as int]),
                    decreases o@.len() - k,
                {
                    order.push(map[o[k]]);
                    k = k + 1;
                    proof {
                        assert(order@ =~= o@.subrange(0, k as int).map_values(|x: usize| sys[x as int]));
                    }
                }
                proof {
                    assert(o@.subrange(0, o@.len() as int) =~= o@);
                    law_topological_order_places_all(self.nodes(), self.edges(), o@);
                }
                self.compile_from_order(&order)
            },
            Err(c) => {
                proof {
                    lemma_system_list_bounded(self.nodes());
                }
                let names = self.extract_cycle_names(&deps, &map, c);
                Err(GraphError::CyclicDependency(names))
            },
        }
    }

    /// The graph of the dependencies between systems: node `k` for the
    /// `k`-th system node, and one edge per dependency edge between two
    /// systems. Its node weights carry nothing of interest.
    fn dependency_graph(&self) -> (r: (DiGraph<GraphNode, GraphEdge>, Vec<usize>))
        requires
            self.nodes().len() <= u32::MAX,
            self.edges().len() <= u32::MAX,
        ensures
            graph_nodes(r.0).len() == system_list(self.nodes()).len(),
            graph_nodes(r.0).len() <= u32::MAX,
            graph_edges(r.0) == dependency_edges(self.nodes(), self.edges()),
            r.1@ == system_list(self.nodes()),
            successor_lists(r.0) == successors_of(graph_nodes(r.0).len(), graph_edges(r.0)),
    {
        let g = self.graph();
        let ghost nodes = self.nodes();
        let n = graph_node_count(g);
        let mut sub = graph_new();
        let mut pos: Vec<usize> = Vec::new();
        let mut map: Vec<usize> = Vec::new();
        let mut i: usize = 0;
        while i < n
            invariant
                n == nodes.len(),
                n <= u32::MAX,
                nodes == graph_nodes(*g),
                i <= n,
                pos@.len() == i,
                map@ == system_nodes_in(nodes, node_range(i as nat)),
                graph_nodes(sub).len() == map@.len(),
                graph_edges(sub) == Seq::<(usize, usize, GraphEdge)>::empty(),
                forall|x: usize| #[trigger] out_edges(sub, x) == Seq::<(usize, GraphEdge)>::empty(),
                map@.len() <= i,
                forall|j: int| 0 <= j < i ==> #[trigger] pos@[j] == if is_system(nodes, j as usize) { system_rank(nodes, j as usize) } else { n },
                forall|j: int| 0 <= j < i && is_system(nodes, j as usize) ==> #[trigger] pos@[j] < map@.len(),
            decreases n - i,
        {
            proof {
                assert(node_range((i + 1) as nat).drop_last() =~= node_range(i as nat));
                assert(node_range((i + 1) as nat).last() == i);
            }
            match graph_node(g, i) {
                GraphNode::System { .. } => {
                    pos.push(map.len());
                    map.push(i);
                    graph_add_node(&mut sub, GraphNode::Archetype { id: ArchetypeId(0), schema: Vec::new() });
                },
                _ => {
                    pos.push(n);
                },
            }
            i = i + 1;
        }
        proof {
            assert(node_range(n as nat) =~= node_range(nodes.len()));
        }
        let m = graph_edge_count(g);
        let mut e: usize = 0;
        while e < m
            invariant
                m == self.edges().len(),
                m <= u32::MAX,
                graph_edges(*g) == self.edges(),
                n == nodes.len(),
                nodes == self.nodes(),
                pos@.len() == n,
                map@ == system_list(nodes),
                graph_nodes(sub).len() == map@.len(),
                map@.len() <= n,
                forall|j: int| 0 <= j < n ==> #[trigger] pos@[j] == if is_system(nodes, j as usize) { system_rank(nodes, j as usize) } else { n },
                forall|j: int| 0 <= j < n && is_system(nodes, j as usize) ==> #[trigger] pos@[j] < map@.len(),
                e <= m,
                graph_edges(sub) == dependency_edges(nodes, self.edges().subrange(0, e as int)),
                forall|x: usize| #[trigger] out_targets(sub, x) == targets_newest_first(graph_edges(sub), x),
            decreases m - e,
        {
            proof {
                assert(self.edges().subrange(0, e + 1).drop_last() =~= self.edges().subrange(0, e as int));
                lemma_dependency_edges_len(nodes, self.edges().subrange(0, e as int));
            }
            let (a, b, w) = graph_edge_at(g, e);
            match w {
                GraphEdge::DependsOn => {
                    if a < n && b < n && pos[a] < map.len() && pos[b] < map.len() {
                        let ghost before = sub;
                        let (pa, pb) = (pos[a], pos[b]);
                        graph_add_edge(&mut sub, pa, pb, GraphEdge::DependsOn);
                        proof {
                            let ed = graph_edges(sub);
                            assert(ed.drop_last() =~= graph_edges(before));
                            assert forall|x: usize| #[trigger] out_targets(sub, x) == targets_newest_first(graph_edges(sub), x) by {
                                assert(out_targets(before, x) == targets_newest_first(graph_edges(before), x));
                                if x == pa {
                                    assert(out_targets(sub, x) =~= seq![pb] + out_targets(before, x));
                                }
                            }
                        }
                    }
                },
                _ => {},
            }
            e = e + 1;
        }
        proof {
            assert(self.edges().subrange(0, m as int) =~= self.edges());
            assert(successor_lists(sub) =~= successors_of(graph_nodes(sub).len(), graph_edges(sub)));
        }
        (sub, map)
    }

    /// Names along the walk in `g` from `start` that a cycle report gives,
    /// node `i` of `g` standing for node `map[i]` of this graph.
    fn extract_cycle_names(&self, g: &DiGraph<GraphNode, GraphEdge>, map: &Vec<usize>, start: usize) -> (r: Vec<String>)
        requires
            (start as int) < graph_nodes(*g).len(),
            graph_nodes(*g).len() <= u32::MAX,
            map@.len() == graph_nodes(*g).len(),
            forall|k: int| 0 <= k < map@.len() ==> (#[trigger] map@[k] as int) < self.nodes().len(),
        ensures
            r@.map_values(|s: String| s@) == cycle_path(*g, start).map_values(|i: usize| node_label(self.nodes()[map@[i as int] as int])),
    {
        let ghost nodes = graph_nodes(*g);
        let n = graph_node_count(g);
        let mut seen: Vec<bool> = Vec::new();
        while seen.len() < n
            invariant
                seen@.len() <= n,
                forall|q: int| 0 <= q < seen@.len() ==> !(#[trigger] seen@[q]),
            decreases n - seen@.len(),
        {
            seen.push(false);
        }
        let mut path: Vec<usize> = Vec::new();
        path.push(start);
        let mut cur = start;
        let ghost mut visited: Set<int> = Set::empty();
        proof {
            vstd::set_lib::lemma_int_range(0, n as int);
            assert(path@ =~= seq![start]);
        }
        loop
            invariant
                n == nodes.len(),
                n <= u32::MAX,
                nodes == graph_nodes(*g),
                (cur as int) < n,
                seen@.len() == n,
                forall|q: int| 0 <= q < n ==> (#[trigger] seen@[q] <==> visited.contains(q)),
                visited.finite(),
                visited.subset_of(vstd::set_lib::set_int_range(0, n as int)),
                vstd::set_lib::set_int_range(0, n as int).finite(),
                vstd::set_lib::set_int_range(0, n as int).len() == n,
                forall|q: int| 0 <= q < path@.len() ==> (#[trigger] path@[q] as int) < n,
                path@ + cycle_steps(*g, start, cur, visited, (n + 1 - visited.len()) as nat) == cycle_path(*g, start),
            ensures
                path@ == cycle_path(*g, start),
                forall|q: int| 0 <= q < path@.len() ==> (#[trigger] path@[q] as int) < n,
            decreases n - visited.len(),
        {
            proof {
                vstd::set_lib::lemma_len_subset(visited, vstd::set_lib::set_int_range(0, n as int));
            }
            if seen[cur] {
                proof {
                    assert(path@ + Seq::<usize>::empty() =~= path@);
                }
                break;
            }
            let ghost fuel = (n + 1 - visited.len()) as nat;
            seen.set(cur, true);
            proof {
                visited = visited.insert(cur as int);
                assert(forall|q: int| 0 <= q < n ==> (#[trigger] seen@[q] <==> visited.contains(q)));
                vstd::set_lib::lemma_len_subset(visited, vstd::set_lib::set_int_range(0, n as int));
            }
            let out = graph_out_edges(g, cur);
            if out.len() == 0 {
                proof {
                    assert(path@ + Seq::<usize>::empty() =~= path@);
                }
                break;
            }
            let next = out[0].0;
            let ghost before = path@;
            path.push(next);
            proof {
                assert(out@[0].0 < n);
                assert(first_successor(*g, cur) == Some(next));
            }
            if next == start {
                proof {
                    assert(before + seq![next] =~= path@);
                }
                break;
            }
            cur = next;
            proof {
                assert(before + (seq![next] + cycle_steps(*g, start, next, visited, (fuel - 1) as nat)) =~= path@ + cycle_steps(*g, start, next, visited, (fuel - 1) as nat));
            }
        }
        let ghost own = self.nodes();
        let mut names: Vec<String> = Vec::new();
        let mut k: usize = 0;
        while k < path.len()
            invariant
                k <= path@.len(),
                own == self.nodes(),
                map@.len() == nodes.len(),
                forall|q: int| 0 <= q < map@.len() ==> (#[trigger] map@[q] as int) < own.len(),
                forall|q: int| 0 <= q < path@.len() ==> (#[trigger] path@[q] as int) < nodes.len(),
                names@.map_values(|s: String| s@) == path@.subrange(0, k as int).map_values(|i: usize| node_label(own[map@[i as int] as int])),
            decreases path@.len() - k,
        {
            let name = self.node_name(map[path[k]]);
            let ghost before = names@;
            names.push(name);
            k = k + 1;
            proof {
                assert(names@ =~= before.push(names@.last()));
                assert(path@.subrange(0, k as int) =~= path@.subrange(0, k - 1).push(path@[k - 1]));
                assert(names@.map_values(|s: String| s@) =~= before.map_values(|s: String| s@).push(names@.last()@));
                assert(path@.subrange(0, k as int).map_values(|i: usize| node_label(own[map@[i as int] as int])) =~= path@.subrange(0, k - 1).map_values(|i: usize| node_label(own[map@[i as int] as int])).push(node_label(own[map@[path@[k - 1] as int] as int])));
            }
        }
        proof {
            assert(path@.subrange(0, path@.len() as int) =~= path@);
        }
        names
    }

    /// How node `node` is named in a cycle report.
    fn node_name(&self, node: usize) -> (s: String)
        requires
            (node as int) < self.nodes().len(),
        ensures
            s@ == node_label(self.nodes()[node as int]),
    {
        match graph_node(self.graph(), node) {
            GraphNode::System { name, .. } => name.clone(),
            GraphNode::Entity { handle, .. } => format_entity_label(handle.0.index, handle.0.generation),
            GraphNode::Component { name, .. } => format_component_label(name),
            GraphNode::Archetype { id, .. } => format_archetype_label(id.0),
        }
    }
}

} // verus!
