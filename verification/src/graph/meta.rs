//! The metadata graph, kept in a `petgraph` directed graph.

use vstd::prelude::*;
use vstd::string::StringExecFns;
use petgraph::graph::{DiGraph, Graph, NodeIndex};
use petgraph::visit::EdgeRef;
use crate::archetype::ArchetypeId;
use crate::relations::{entity_key, key_spec, lemma_key_injective};
use std::collections::HashMap;
use crate::entity::EntityHandle;
use crate::graph::{GraphError, SystemHandle};
use crate::graph::plan::ExecutionPlan;
use crate::graph::query::{entity_at, is_entity_handle};

verus! {

/// Node of the metadata graph. Component types are numbered by the caller;
/// a system's resonator is referred to by the caller's number for it.
#[derive(Debug)]
pub enum GraphNode {
    Entity { handle: EntityHandle, archetype: ArchetypeId },
    Component { type_id: u64, name: &'static str },
    System { name: String, priority: i32, archetype: ArchetypeId, resonator: usize, reads: Vec<u64>, writes: Vec<u64> },
    Archetype { id: ArchetypeId, schema: Vec<u64> },
}

/// Edge of the metadata graph.
#[derive(Clone, Copy, Debug, PartialEq, Eq, Hash)]
pub enum GraphEdge {
    /// Entity has component.
    Has,
    /// Entity is a child of entity.
    ChildOf,
    /// System reads component.
    Reads,
    /// System writes component.
    Writes,
    /// System depends on system.
    DependsOn,
    /// A relation of the caller's.
    Custom(&'static str),
}

#[verifier::external_type_specification]
#[verifier::external_body]
#[verifier::reject_recursive_types(N)]
#[verifier::reject_recursive_types(E)]
#[verifier::reject_recursive_types(Ty)]
#[verifier::reject_recursive_types(Ix)]
pub struct ExGraph<N, E, Ty, Ix>(Graph<N, E, Ty, Ix>);

#[verifier::external_type_specification]
#[verifier::external_body]
pub struct ExDirected(petgraph::Directed);

/// Node weights of `g`, by node index.
pub uninterp spec fn graph_nodes(g: DiGraph<GraphNode, GraphEdge>) -> Seq<GraphNode>;

/// Edges of `g` as (source, target, weight), by edge index.
pub uninterp spec fn graph_edges(g: DiGraph<GraphNode, GraphEdge>) -> Seq<(usize, usize, GraphEdge)>;

/// Outgoing edges of node `a` of `g` as (target, weight), in the order
/// `Graph::edges` walks them.
pub uninterp spec fn out_edges(g: DiGraph<GraphNode, GraphEdge>, a: usize) -> Seq<(usize, GraphEdge)>;

/// Holds of the edges with source `a`.
pub open spec fn leaves(a: usize) -> spec_fn((usize, usize, GraphEdge)) -> bool {
    |e: (usize, usize, GraphEdge)| e.0 == a
}

/// The edges of `edges` that leave `a`, as (target, weight).
pub open spec fn edges_from(edges: Seq<(usize, usize, GraphEdge)>, a: usize) -> Seq<(usize, GraphEdge)> {
    edges.filter(leaves(a)).map_values(|e: (usize, usize, GraphEdge)| (e.1, e.2))
}

/// `Graph::new`: a graph with no nodes and no edges, so no node has an
/// outgoing edge.
#[verifier::external_body]
pub(crate) fn graph_new() -> (g: DiGraph<GraphNode, GraphEdge>)
    ensures
        graph_nodes(g) == Seq::<GraphNode>::empty(),
        graph_edges(g) == Seq::<(usize, usize, GraphEdge)>::empty(),
        forall|x: usize| #[trigger] out_edges(g, x) == Seq::<(usize, GraphEdge)>::empty(),
{
    DiGraph::new()
}

/// `Graph::add_node`: appends a node; its index is the old node count. The
/// new node starts with no outgoing edge and no other list changes.
#[verifier::external_body]
pub(crate) fn graph_add_node(g: &mut DiGraph<GraphNode, GraphEdge>, weight: GraphNode) -> (i: usize)
    requires
        graph_nodes(*old(g)).len() < u32::MAX,
    ensures
        i == graph_nodes(*old(g)).len(),
        graph_nodes(*final(g)) == graph_nodes(*old(g)).push(weight),
        graph_edges(*final(g)) == graph_edges(*old(g)),
        forall|x: usize| #[trigger] out_edges(*final(g), x) == out_edges(*old(g), x),
{
    g.add_node(weight).index()
}

/// `Graph::add_edge`: appends an edge; its index is the old edge count. The
/// edge goes to the front of the outgoing list of its source, which is how
/// `Graph::edges` and `Graph::neighbors` come to list the newest edge first.
#[verifier::external_body]
pub(crate) fn graph_add_edge(g: &mut DiGraph<GraphNode, GraphEdge>, a: usize, b: usize, weight: GraphEdge) -> (e: usize)
    requires
        a < graph_nodes(*old(g)).len(),
        b < graph_nodes(*old(g)).len(),
        graph_edges(*old(g)).len() < u32::MAX,
    ensures
        e == graph_edges(*old(g)).len(),
        graph_edges(*final(g)) == graph_edges(*old(g)).push((a, b, weight)),
        graph_nodes(*final(g)) == graph_nodes(*old(g)),
        forall|x: usize| #[trigger] out_edges(*final(g), x) == if x == a {
            seq![(b, weight)] + out_edges(*old(g), a)
        } else {
            out_edges(*old(g), x)
        },
{
    g.add_edge(NodeIndex::new(a), NodeIndex::new(b), weight).index()
}

/// `Graph::remove_node`: the last node takes the removed node's index,
/// and the edges touching the removed node go, the others renamed
/// accordingly; the order of the remaining edges is not stated.
#[verifier::external_body]
fn graph_remove_node(g: &mut DiGraph<GraphNode, GraphEdge>, a: usize) -> (r: Option<GraphNode>)
    requires
        graph_nodes(*old(g)).len() <= u32::MAX,
        a < u32::MAX,
    ensures
        a >= graph_nodes(*old(g)).len() ==> r is None && *final(g) == *old(g),
        a < graph_nodes(*old(g)).len() ==> {
            let n = graph_nodes(*old(g));
            let last = (n.len() - 1) as usize;
            &&& r == Some(n[a as int])
            &&& graph_nodes(*final(g)) == n.update(a as int, n.last()).drop_last()
            &&& graph_edges(*final(g)).to_multiset() == graph_edges(*old(g))
                .filter(|e: (usize, usize, GraphEdge)| e.0 != a && e.1 != a)
                .map_values(|e: (usize, usize, GraphEdge)| (
                    if e.0 == last { a } else { e.0 },
                    if e.1 == last { a } else { e.1 },
                    e.2))
                .to_multiset()
        },
{
    g.remove_node(NodeIndex::new(a))
}

/// `Index<NodeIndex>` of `Graph`: the weight of node `i`.
#[verifier::external_body]
pub(crate) fn graph_node(g: &DiGraph<GraphNode, GraphEdge>, i: usize) -> (w: &GraphNode)
    requires
        i < graph_nodes(*g).len(),
    ensures
        *w == graph_nodes(*g)[i as int],
{
    &g[NodeIndex::new(i)]
}

/// `Graph::edges`: the outgoing edges of `a` as (target, weight); they are
/// exactly the edges leaving `a`, in the graph's list order, and each
/// target is a node of the graph.
#[verifier::external_body]
pub(crate) fn graph_out_edges(g: &DiGraph<GraphNode, GraphEdge>, a: usize) -> (r: Vec<(usize, GraphEdge)>)
    requires
        a < u32::MAX,
    ensures
        r@ == out_edges(*g, a),
        r@.to_multiset() == edges_from(graph_edges(*g), a).to_multiset(),
        forall|k: int| 0 <= k < r@.len() ==> (#[trigger] r@[k]).0 < graph_nodes(*g).len(),
{
    g.edges(NodeIndex::new(a)).map(|e| (e.target().index(), *e.weight())).collect()
}

/// `Graph::node_count`.
#[verifier::external_body]
pub(crate) fn graph_node_count(g: &DiGraph<GraphNode, GraphEdge>) -> (n: usize)
    ensures
        n == graph_nodes(*g).len(),
{
    g.node_count()
}

/// `Graph::edge_count`.
#[verifier::external_body]
pub(crate) fn graph_edge_count(g: &DiGraph<GraphNode, GraphEdge>) -> (n: usize)
    ensures
        n == graph_edges(*g).len(),
{
    g.edge_count()
}

/// `Graph::raw_edges`: edge `e` as (source, target, weight).
#[verifier::external_body]
pub(crate) fn graph_edge_at(g: &DiGraph<GraphNode, GraphEdge>, e: usize) -> (r: (usize, usize, GraphEdge))
    requires
        e < graph_edges(*g).len(),
    ensures
        r == graph_edges(*g)[e as int],
{
    let edge = &g.raw_edges()[e];
    (edge.source().index(), edge.target().index(), edge.weight)
}

/// Value kept under `key`, the first pair with it.
pub open spec fn lookup_key<K, V>(s: Seq<(K, V)>, key: K) -> Option<V>
    decreases s.len(),
{
    if s.len() == 0 {
        None
    } else if s[0].0 == key {
        Some(s[0].1)
    } else {
        lookup_key(s.drop_first(), key)
    }
}

pub proof fn lemma_lookup_key_at<K, V>(s: Seq<(K, V)>, i: int, key: K)
    requires
        0 <= i < s.len(),
        s[i].0 == key,
        forall|j: int| 0 <= j < i ==> s[j].0 != key,
    ensures
        lookup_key(s, key) == Some(s[i].1),
    decreases s.len(),
{
    if i > 0 {
        lemma_lookup_key_at(s.drop_first(), i - 1, key);
    }
}

pub proof fn lemma_lookup_key_none<K, V>(s: Seq<(K, V)>, key: K)
    requires
        forall|j: int| 0 <= j < s.len() ==> s[j].0 != key,
    ensures
        lookup_key(s, key) is None,
    decreases s.len(),
{
    if s.len() > 0 {
        lemma_lookup_key_none(s.drop_first(), key);
    }
}

/// The digit of `d < 10`.
pub open spec fn digit(d: nat) -> char {
    (48 + d) as char
}

/// `n` written in decimal, as `{}` formats an unsigned integer.
pub open spec fn decimal(n: nat) -> Seq<char>
    decreases n,
{
    if n < 10 {
        seq![digit(n)]
    } else {
        decimal(n / 10) + seq![digit(n % 10)]
    }
}

/// The message of a traversal from an entity the graph does not have.
pub open spec fn not_in_graph_message(index: u32, generation: u32) -> Seq<char> {
    "Entity EntityHandle(EntityId { index: "@ + decimal(index as nat) + ", generation: "@ + decimal(generation as nat)
        + " }) not in graph"@
}

/// The one-character text of digit `d`.
fn digit_str(d: u64) -> (s: &'static str)
    requires
        d < 10,
    ensures
        s@ == seq![digit(d as nat)],
{
    proof {
        reveal_strlit("0");
        reveal_strlit("1");
        reveal_strlit("2");
        reveal_strlit("3");
        reveal_strlit("4");
        reveal_strlit("5");
        reveal_strlit("6");
        reveal_strlit("7");
        reveal_strlit("8");
        reveal_strlit("9");
    }
    if d == 0 {
        "0"
    } else if d == 1 {
        "1"
    } else if d == 2 {
        "2"
    } else if d == 3 {
        "3"
    } else if d == 4 {
        "4"
    } else if d == 5 {
        "5"
    } else if d == 6 {
        "6"
    } else if d == 7 {
        "7"
    } else if d == 8 {
        "8"
    } else {
        "9"
    }
}

/// `n` written in decimal.
pub(crate) fn decimal_string(n: u64) -> (s: String)
    ensures
        s@ == decimal(n as nat),
    decreases n,
{
    if n < 10 {
        String::from_str(digit_str(n))
    } else {
        let mut s = decimal_string(n / 10);
        s.append(digit_str(n % 10));
        s
    }
}

/// Appends `n` in decimal to `out`.
pub(crate) fn append_decimal(out: &mut String, n: u64)
    ensures
        final(out)@ == old(out)@ + decimal(n as nat),
{
    let d = decimal_string(n);
    out.append(d.as_str());
}

/// The message for an entity the graph lacks.
fn not_in_graph(index: u32, generation: u32) -> (s: String)
    ensures
        s@ == not_in_graph_message(index, generation),
{
    let mut s = String::from_str("Entity EntityHandle(EntityId { index: ");
    append_decimal(&mut s, index as u64);
    s.append(", generation: ");
    append_decimal(&mut s, generation as u64);
    s.append(" }) not in graph");
    proof {
        assert(s@ =~= not_in_graph_message(index, generation));
    }
    s
}

/// Message of a traversal from entity `h`, which the graph does not have.
pub open spec fn missing_entity_message(h: EntityHandle) -> Seq<char> {
    not_in_graph_message(h.0.index, h.0.generation)
}

/// Entities whose child edge leads to node `a`, in the order of `edges`:
/// the sources of the child edges among `edges` that end at `a` and start
/// at an entity node of `nodes`.
pub open spec fn child_sources(nodes: Seq<GraphNode>, edges: Seq<(usize, usize, GraphEdge)>, a: usize) -> Seq<EntityHandle>
    decreases edges.len(),
{
    if edges.len() == 0 {
        Seq::empty()
    } else {
        let rest = child_sources(nodes, edges.drop_last(), a);
        let e = edges.last();
        if e.1 == a && e.2 == GraphEdge::ChildOf && (e.0 as int) < nodes.len() {
            match nodes[e.0 as int] {
                GraphNode::Entity { handle, .. } => rest.push(handle),
                _ => rest,
            }
        } else {
            rest
        }
    }
}

/// DOT line of entity node `i`.
pub open spec fn dot_entity_line(i: usize, index: u32, generation: u32) -> Seq<char> {
    "  E"@ + decimal(i as nat) + " [label=\"Entity "@ + decimal(index as nat) + ":"@ + decimal(generation as nat)
        + "\", color=green];\n"@
}

/// DOT line of system node `i`.
pub open spec fn dot_system_line(i: usize, name: Seq<char>) -> Seq<char> {
    "  S"@ + decimal(i as nat) + " [label=\""@ + name + "\", shape=ellipse, color=blue];\n"@
}

/// DOT line of component node `i`.
pub open spec fn dot_component_line(i: usize, name: Seq<char>) -> Seq<char> {
    "  C"@ + decimal(i as nat) + " [label=\""@ + name + "\", shape=diamond, color=orange];\n"@
}

/// DOT line of archetype node `i`.
pub open spec fn dot_archetype_line(i: usize, id: u32) -> Seq<char> {
    "  A"@ + decimal(i as nat) + " [label=\"Archetype "@ + decimal(id as nat) + "\", shape=hexagon, color=purple];\n"@
}

/// DOT line of an edge with a label.
pub open spec fn dot_labelled_edge_line(pa: char, a: usize, pb: char, b: usize, name: Seq<char>) -> Seq<char> {
    "  "@ + seq![pa] + decimal(a as nat) + " -> "@ + seq![pb] + decimal(b as nat) + " ["@ + "label"@ + "=\""@ + name + "\"];\n"@
}

/// DOT line of an edge with a style.
pub open spec fn dot_styled_edge_line(pa: char, a: usize, pb: char, b: usize, style: Seq<char>) -> Seq<char> {
    "  "@ + seq![pa] + decimal(a as nat) + " -> "@ + seq![pb] + decimal(b as nat) + " ["@ + "style"@ + "=\""@ + style + "\"];\n"@
}

/// The DOT line of entity node `i`.
fn dot_entity(i: usize, index: u32, generation: u32) -> (s: String)
    ensures
        s@ == dot_entity_line(i, index, generation),
{
    let mut s = String::from_str("  E");
    append_decimal(&mut s, i as u64);
    s.append(" [label=\"Entity ");
    append_decimal(&mut s, index as u64);
    s.append(":");
    append_decimal(&mut s, generation as u64);
    s.append("\", color=green];\n");
    proof {
        assert(s@ =~= dot_entity_line(i, index, generation));
    }
    s
}

/// The DOT line of system node `i`.
fn dot_system(i: usize, name: &str) -> (s: String)
    ensures
        s@ == dot_system_line(i, name@),
{
    let mut s = String::from_str("  S");
    append_decimal(&mut s, i as u64);
    s.append(" [label=\"");
    s.append(name);
    s.append("\", shape=ellipse, color=blue];\n");
    proof {
        assert(s@ =~= dot_system_line(i, name@));
    }
    s
}

/// The DOT line of component node `i`.
fn dot_component(i: usize, name: &str) -> (s: String)
    ensures
        s@ == dot_component_line(i, name@),
{
    let mut s = String::from_str("  C");
    append_decimal(&mut s, i as u64);
    s.append(" [label=\"");
    s.append(name);
    s.append("\", shape=diamond, color=orange];\n");
    proof {
        assert(s@ =~= dot_component_line(i, name@));
    }
    s
}

/// The DOT line of archetype node `i`.
fn dot_archetype(i: usize, id: u32) -> (s: String)
    ensures
        s@ == dot_archetype_line(i, id),
{
    let mut s = String::from_str("  A");
    append_decimal(&mut s, i as u64);
    s.append(" [label=\"Archetype ");
    append_decimal(&mut s, id as u64);
    s.append("\", shape=hexagon, color=purple];\n");
    proof {
        assert(s@ =~= dot_archetype_line(i, id));
    }
    s
}

/// The DOT line of an edge from `pa`-node `a` to `pb`-node `b` with a
/// label or a style in brackets: `key` is `label` or `style`.
fn dot_edge(pa: &str, a: usize, pb: &str, b: usize, key: &str, value: &str) -> (s: String)
    ensures
        s@ == "  "@ + pa@ + decimal(a as nat) + " -> "@ + pb@ + decimal(b as nat) + " ["@ + key@ + "=\""@ + value@ + "\"];\n"@,
{
    let mut s = String::from_str("  ");
    s.append(pa);
    append_decimal(&mut s, a as u64);
    s.append(" -> ");
    s.append(pb);
    append_decimal(&mut s, b as u64);
    s.append(" [");
    s.append(key);
    s.append("=\"");
    s.append(value);
    s.append("\"];\n");
    proof {
        assert(s@ =~= "  "@ + pa@ + decimal(a as nat) + " -> "@ + pb@ + decimal(b as nat) + " ["@ + key@ + "=\""@ + value@ + "\"];\n"@);
    }
    s
}

/// Line style of an edge of kind `w` in DOT text.
pub open spec fn edge_style(w: GraphEdge) -> Seq<char> {
    match w {
        GraphEdge::Has => "solid"@,
        GraphEdge::ChildOf => "bold"@,
        GraphEdge::Reads => "dashed, color=gray"@,
        GraphEdge::Writes => "solid, color=red"@,
        GraphEdge::DependsOn => "dotted, color=blue"@,
        GraphEdge::Custom(_) => Seq::empty(),
    }
}

fn edge_style_of(w: GraphEdge) -> (s: &'static str)
    ensures
        s@ == edge_style(w),
{
    proof {
        reveal_strlit("solid");
        reveal_strlit("bold");
        reveal_strlit("dashed, color=gray");
        reveal_strlit("solid, color=red");
        reveal_strlit("dotted, color=blue");
        reveal_strlit("");
    }
    match w {
        GraphEdge::Has => "solid",
        GraphEdge::ChildOf => "bold",
        GraphEdge::Reads => "dashed, color=gray",
        GraphEdge::Writes => "solid, color=red",
        GraphEdge::DependsOn => "dotted, color=blue",
        GraphEdge::Custom(_) => "",
    }
}

/// DOT line of node `i` with weight `n`.
pub open spec fn dot_node_line(i: usize, n: GraphNode) -> Seq<char> {
    match n {
        GraphNode::Entity { handle, .. } => dot_entity_line(i, handle.0.index, handle.0.generation),
        GraphNode::System { name, .. } => dot_system_line(i, name@),
        GraphNode::Component { name, .. } => dot_component_line(i, name@),
        GraphNode::Archetype { id, .. } => dot_archetype_line(i, id.0),
    }
}

/// Letter that starts the DOT id of a node of weight `n`.
pub open spec fn node_prefix(n: GraphNode) -> char {
    match n {
        GraphNode::Entity { .. } => 'E',
        GraphNode::System { .. } => 'S',
        GraphNode::Component { .. } => 'C',
        GraphNode::Archetype { .. } => 'A',
    }
}

/// Letter of the DOT id of node `i` of `nodes`; `N` for an index the graph
/// does not have.
pub open spec fn prefix_at(nodes: Seq<GraphNode>, i: usize) -> char {
    if (i as int) < nodes.len() { node_prefix(nodes[i as int]) } else { 'N' }
}

/// DOT line of edge `e` between the ids its end nodes are declared with:
/// its label for a relation of the caller's, its style otherwise.
pub open spec fn dot_edge_line(nodes: Seq<GraphNode>, e: (usize, usize, GraphEdge)) -> Seq<char> {
    match e.2 {
        GraphEdge::Custom(name) => dot_labelled_edge_line(prefix_at(nodes, e.0), e.0, prefix_at(nodes, e.1), e.1, name@),
        w => dot_styled_edge_line(prefix_at(nodes, e.0), e.0, prefix_at(nodes, e.1), e.1, edge_style(w)),
    }
}

fn prefix_of(g: &DiGraph<GraphNode, GraphEdge>, i: usize) -> (c: &'static str)
    ensures
        c@ == seq![prefix_at(graph_nodes(*g), i)],
{
    proof {
        reveal_strlit("E");
        reveal_strlit("S");
        reveal_strlit("C");
        reveal_strlit("A");
        reveal_strlit("N");
    }
    if i < graph_node_count(g) {
        match graph_node(g, i) {
            GraphNode::Entity { .. } => "E",
            GraphNode::System { .. } => "S",
            GraphNode::Component { .. } => "C",
            GraphNode::Archetype { .. } => "A",
        }
    } else {
        "N"
    }
}

/// DOT lines of the first `k` nodes.
pub open spec fn dot_node_lines(nodes: Seq<GraphNode>, k: nat) -> Seq<char>
    decreases k,
{
    if k == 0 || k > nodes.len() {
        Seq::empty()
    } else {
        dot_node_lines(nodes, (k - 1) as nat) + dot_node_line((k - 1) as usize, nodes[k - 1])
    }
}

/// DOT lines of the first `k` edges.
pub open spec fn dot_edge_lines(nodes: Seq<GraphNode>, edges: Seq<(usize, usize, GraphEdge)>, k: nat) -> Seq<char>
    decreases k,
{
    if k == 0 || k > edges.len() {
        Seq::empty()
    } else {
        dot_edge_lines(nodes, edges, (k - 1) as nat) + dot_edge_line(nodes, edges[k - 1])
    }
}

/// The DOT text of a graph with `nodes` and `edges`.
pub open spec fn dot_text(nodes: Seq<GraphNode>, edges: Seq<(usize, usize, GraphEdge)>) -> Seq<char> {
    "digraph Simulation {\n"@ + "  rankdir=LR;\n"@ + "  node [shape=box];\n\n"@
        + dot_node_lines(nodes, nodes.len()) + "\n"@ + dot_edge_lines(nodes, edges, edges.len()) + "}\n"@
}

/// Entities with a child edge to node `a`.
pub open spec fn child_set(nodes: Seq<GraphNode>, edges: Seq<(usize, usize, GraphEdge)>, a: usize) -> Set<EntityHandle> {
    Set::new(|h: EntityHandle| exists|e: int| 0 <= e < edges.len() && edges[e].1 == a && edges[e].2 == GraphEdge::ChildOf
        && #[trigger] entity_at(nodes, edges[e].0 as int, h))
}

/// A handle is among the children listed from `edges` exactly when it has
/// a child edge among them to `a`.
pub proof fn lemma_child_sources_has(nodes: Seq<GraphNode>, edges: Seq<(usize, usize, GraphEdge)>, a: usize, h: EntityHandle)
    ensures
        child_sources(nodes, edges, a).contains(h) <==> child_set(nodes, edges, a).contains(h),
    decreases edges.len(),
{
    if edges.len() > 0 {
        let init = edges.drop_last();
        lemma_child_sources_has(nodes, init, a, h);
        let rest = child_sources(nodes, init, a);
        let all = child_sources(nodes, edges, a);
        let last = edges.len() - 1;
        assert forall|k: int| 0 <= k < init.len() implies init[k] == edges[k] by {}
        if all.contains(h) {
            if !rest.contains(h) {
                let i = choose|i: int| 0 <= i < all.len() && all[i] == h;
                assert(i == rest.len());
                assert(entity_at(nodes, edges[last].0 as int, h));
            } else {
                let e = choose|e: int| 0 <= e < init.len() && init[e].1 == a && init[e].2 == GraphEdge::ChildOf
                    && #[trigger] entity_at(nodes, init[e].0 as int, h);
                assert(entity_at(nodes, edges[e].0 as int, h));
            }
        }
        if child_set(nodes, edges, a).contains(h) {
            let e = choose|e: int| 0 <= e < edges.len() && edges[e].1 == a && edges[e].2 == GraphEdge::ChildOf
                && #[trigger] entity_at(nodes, edges[e].0 as int, h);
            if e < init.len() {
                assert(entity_at(nodes, init[e].0 as int, h));
                assert(rest.contains(h));
                let i = choose|i: int| 0 <= i < rest.len() && rest[i] == h;
                assert(all[i] == h);
            } else {
                assert(all == rest.push(h));
                assert(all[rest.len() as int] == h);
            }
        }
    } else {
        assert(!child_set(nodes, edges, a).contains(h));
    }
}

/// After a child edge from the entity node of `c` to node `a` is appended,
/// `c` is among the children of `a`.
pub proof fn law_added_child_is_found(nodes: Seq<GraphNode>, edges: Seq<(usize, usize, GraphEdge)>, a: usize, b: usize, c: EntityHandle)
    requires
        entity_at(nodes, b as int, c),
    ensures
        child_set(nodes, edges.push((b, a, GraphEdge::ChildOf)), a).contains(c),
        child_sources(nodes, edges.push((b, a, GraphEdge::ChildOf)), a).contains(c),
{
    let e2 = edges.push((b, a, GraphEdge::ChildOf));
    assert(e2[edges.len() as int] == (b, a, GraphEdge::ChildOf));
    assert(entity_at(nodes, e2[edges.len() as int].0 as int, c));
    lemma_child_sources_has(nodes, e2, a, c);
}

/// The node of each entity added: a list, first entry per handle, and a
/// table keyed by entity id that agrees with the list wherever it has an
/// entry, so that most entities are found without walking the list.
pub struct EntityTable {
    list: Vec<(EntityHandle, usize)>,
    by_id: HashMap<u64, usize>,
}

impl EntityTable {
    /// Each id in the table gives the node the list has first for it.
    #[verifier::type_invariant]
    spec fn agrees(&self) -> bool {
        forall|h: EntityHandle| #[trigger] self.by_id@.contains_key(key_spec(h.0))
            ==> lookup_key(self.list@, h) == Some(self.by_id@[key_spec(h.0)])
    }

    pub closed spec fn list_spec(&self) -> Seq<(EntityHandle, usize)> {
        self.list@
    }

    fn new() -> (t: Self)
        ensures
            t.list_spec() == Seq::<(EntityHandle, usize)>::empty(),
    {
        EntityTable { list: Vec::new(), by_id: HashMap::new() }
    }

    fn len(&self) -> (n: usize)
        ensures
            n == self.list_spec().len(),
    {
        self.list.len()
    }

    fn at(&self, k: usize) -> (r: (EntityHandle, usize))
        requires
            k < self.list_spec().len(),
        ensures
            r == self.list_spec()[k as int],
    {
        self.list[k]
    }

    /// The node the list has first for `h`.
    fn find(&self, h: EntityHandle) -> (r: Option<usize>)
        ensures
            r == lookup_key(self.list_spec(), h),
    {
        proof {
            use_type_invariant(self);
        }
        if let Some(v) = self.by_id.get(&entity_key(h.0)) {
            return Some(*v);
        }
        let n = self.list.len();
        let mut k: usize = 0;
        while k < n
            invariant
                n == self.list@.len(),
                k <= n,
                forall|j: int| 0 <= j < k ==> self.list@[j].0 != h,
            decreases n - k,
        {
            if self.list[k].0 == h {
                proof {
                    lemma_lookup_key_at(self.list@, k as int, h);
                }
                return Some(self.list[k].1);
            }
            k = k + 1;
        }
        proof {
            lemma_lookup_key_none(self.list@, h);
        }
        None
    }

    /// Takes the list and the id table out, leaving both empty, so that the
    /// list can change while no id points into it.
    fn take_parts(&mut self) -> (r: (Vec<(EntityHandle, usize)>, HashMap<u64, usize>))
        ensures
            r.0@ == old(self).list_spec(),
            forall|h: EntityHandle| #[trigger] r.1@.contains_key(key_spec(h.0))
                ==> lookup_key(r.0@, h) == Some(r.1@[key_spec(h.0)]),
            final(self).list_spec() == Seq::<(EntityHandle, usize)>::empty(),
    {
        proof {
            use_type_invariant(&*self);
        }
        let mut by_id = HashMap::new();
        std::mem::swap(&mut by_id, &mut self.by_id);
        let mut list = Vec::new();
        std::mem::swap(&mut list, &mut self.list);
        (list, by_id)
    }

    /// Puts a list and an id table that agrees with it back.
    fn put_parts(&mut self, list: Vec<(EntityHandle, usize)>, by_id: HashMap<u64, usize>)
        requires
            old(self).list_spec() == Seq::<(EntityHandle, usize)>::empty(),
            forall|h: EntityHandle| #[trigger] by_id@.contains_key(key_spec(h.0))
                ==> lookup_key(list@, h) == Some(by_id@[key_spec(h.0)]),
        ensures
            final(self).list_spec() == list@,
    {
        proof {
            use_type_invariant(&*self);
        }
        let mut empty = HashMap::new();
        std::mem::swap(&mut empty, &mut self.by_id);
        let mut l = list;
        std::mem::swap(&mut l, &mut self.list);
        let mut m = by_id;
        std::mem::swap(&mut m, &mut self.by_id);
    }

    /// Replaces entry `k` with `v`.
    fn set_at(&mut self, k: usize, v: (EntityHandle, usize))
        requires
            k < old(self).list_spec().len(),
        ensures
            final(self).list_spec() == old(self).list_spec().update(k as int, v),
    {
        let (mut list, mut by_id) = self.take_parts();
        let ghost s = list@;
        let gone = list[k].0;
        by_id.remove(&entity_key(gone.0));
        by_id.remove(&entity_key(v.0.0));
        list.set(k, v);
        proof {
            assert forall|h: EntityHandle| #[trigger] by_id@.contains_key(key_spec(h.0))
                implies lookup_key(list@, h) == Some(by_id@[key_spec(h.0)]) by {
                lemma_key_injective(h.0, gone.0);
                lemma_key_injective(h.0, v.0.0);
                lemma_lookup_key_update_other(s, k as int, v, h);
            }
        }
        self.put_parts(list, by_id);
    }

    /// Appends `v`.
    fn push(&mut self, v: (EntityHandle, usize))
        ensures
            final(self).list_spec() == old(self).list_spec().push(v),
    {
        let (mut list, by_id) = self.take_parts();
        let ghost s = list@;
        list.push(v);
        proof {
            assert forall|h: EntityHandle| #[trigger] by_id@.contains_key(key_spec(h.0))
                implies lookup_key(list@, h) == Some(by_id@[key_spec(h.0)]) by {
                lemma_lookup_key_push(s, v, h);
            }
        }
        self.put_parts(list, by_id);
    }

    /// Removes entry `k` and gives it back.
    fn remove_at(&mut self, k: usize) -> (r: (EntityHandle, usize))
        requires
            k < old(self).list_spec().len(),
        ensures
            r == old(self).list_spec()[k as int],
            final(self).list_spec() == old(self).list_spec().remove(k as int),
    {
        let (mut list, mut by_id) = self.take_parts();
        let ghost s = list@;
        let r = list.remove(k);
        by_id.remove(&entity_key(r.0.0));
        proof {
            assert forall|h: EntityHandle| #[trigger] by_id@.contains_key(key_spec(h.0))
                implies lookup_key(list@, h) == Some(by_id@[key_spec(h.0)]) by {
                lemma_key_injective(h.0, r.0.0);
                lemma_lookup_key_remove(s, k as int, h);
            }
        }
        self.put_parts(list, by_id);
        r
    }

    /// Records in the table that `h` is at node `v`, as the list has it.
    fn note(&mut self, h: EntityHandle, v: usize)
        requires
            lookup_key(old(self).list_spec(), h) == Some(v),
        ensures
            final(self).list_spec() == old(self).list_spec(),
    {
        let (list, mut by_id) = self.take_parts();
        by_id.insert(entity_key(h.0), v);
        proof {
            assert forall|h2: EntityHandle| #[trigger] by_id@.contains_key(key_spec(h2.0))
                implies lookup_key(list@, h2) == Some(by_id@[key_spec(h2.0)]) by {
                lemma_key_injective(h2.0, h.0);
            }
        }
        self.put_parts(list, by_id);
    }
}

/// The metadata graph: topology only, apart from the resonators that run.
pub struct MetaGraph {
    graph: DiGraph<GraphNode, GraphEdge>,
    entity_nodes: EntityTable,
    system_nodes: Vec<(String, usize)>,
    execution_plan: Option<ExecutionPlan>,
    dirty: bool,
}

} // verus!

verus! {

impl MetaGraph {
    pub closed spec fn nodes(&self) -> Seq<GraphNode> {
        graph_nodes(self.graph)
    }

    pub closed spec fn edges(&self) -> Seq<(usize, usize, GraphEdge)> {
        graph_edges(self.graph)
    }

    /// Node of each entity added, first entry per handle.
    pub closed spec fn entity_nodes_spec(&self) -> Seq<(EntityHandle, usize)> {
        self.entity_nodes.list_spec()
    }

    /// Node of each system added, by name.
    pub closed spec fn system_nodes_spec(&self) -> Seq<(Seq<char>, usize)> {
        self.system_nodes@.map_values(|p: (String, usize)| (p.0@, p.1))
    }

    /// Node indices fit petgraph's `u32` indices; each entity is recorded
    /// once; recorded entities and systems name nodes of the graph, no two
    /// entities the same node and no entity the node of a system.
    pub open spec fn wf(&self) -> bool {
        &&& self.nodes().len() <= u32::MAX
        &&& forall|k: int| 0 <= k < self.entity_nodes_spec().len() ==> (#[trigger] self.entity_nodes_spec()[k]).1 < self.nodes().len()
        &&& forall|k: int| 0 <= k < self.system_nodes_spec().len() ==> (#[trigger] self.system_nodes_spec()[k]).1 < self.nodes().len()
        &&& forall|j: int, k: int| 0 <= j < k < self.entity_nodes_spec().len()
            ==> #[trigger] self.entity_nodes_spec()[j].0 != #[trigger] self.entity_nodes_spec()[k].0
        &&& forall|j: int, k: int| 0 <= j < k < self.entity_nodes_spec().len()
            ==> #[trigger] self.entity_nodes_spec()[j].1 != #[trigger] self.entity_nodes_spec()[k].1
        &&& forall|j: int, k: int| 0 <= j < self.entity_nodes_spec().len() && 0 <= k < self.system_nodes_spec().len()
            ==> #[trigger] self.entity_nodes_spec()[j].1 != #[trigger] self.system_nodes_spec()[k].1
    }

    pub closed spec fn dirty_spec(&self) -> bool {
        self.dirty
    }

    pub closed spec fn plan_spec(&self) -> Option<ExecutionPlan> {
        self.execution_plan
    }

    /// Node of entity `h`, if it was added.
    pub open spec fn entity_node(&self, h: EntityHandle) -> Option<usize> {
        lookup_key(self.entity_nodes_spec(), h)
    }

    /// Entity `h` was added and its node is in the graph.
    pub open spec fn has_node(&self, h: EntityHandle) -> bool {
        self.entity_node(h) matches Some(a) && (a as int) < self.nodes().len()
    }

    /// Node of system `name`, if it was added.
    pub open spec fn system_node(&self, name: Seq<char>) -> Option<usize> {
        lookup_key(self.system_nodes_spec(), name)
    }

    /// Children of node `a`: the entities with a child edge to it, in edge
    /// order.
    pub open spec fn children_of(&self, a: usize) -> Seq<EntityHandle> {
        child_sources(self.nodes(), self.edges(), a)
    }

    pub closed spec fn graph_spec(&self) -> DiGraph<GraphNode, GraphEdge> {
        self.graph
    }

    pub fn new() -> (m: Self)
        ensures
            m.nodes() == Seq::<GraphNode>::empty(),
            m.edges() == Seq::<(usize, usize, GraphEdge)>::empty(),
            m.entity_nodes_spec() == Seq::<(EntityHandle, usize)>::empty(),
            m.system_nodes_spec() == Seq::<(Seq<char>, usize)>::empty(),
            m.plan_spec() is None,
            !m.dirty_spec(),
            m.wf(),
    {
        let m = MetaGraph {
            graph: graph_new(),
            entity_nodes: EntityTable::new(),
            system_nodes: Vec::new(),
            execution_plan: None,
            dirty: false,
        };
        proof {
            assert(m.system_nodes_spec() =~= Seq::<(Seq<char>, usize)>::empty());
        }
        m
    }

    /// Adds an entity node and records it as the node of `handle`.
    pub fn add_entity(&mut self, handle: EntityHandle, archetype: ArchetypeId) -> (i: usize)
        requires
            old(self).nodes().len() < u32::MAX,
        ensures
            i == old(self).nodes().len(),
            final(self).nodes() == old(self).nodes().push(GraphNode::Entity { handle, archetype }),
            final(self).edges() == old(self).edges(),
            forall|h: EntityHandle| #[trigger] final(self).entity_node(h) == if h == handle { Some(i) } else { old(self).entity_node(h) },
            final(self).system_nodes_spec() == old(self).system_nodes_spec(),
            final(self).plan_spec() == old(self).plan_spec(),
            final(self).dirty_spec(),
            old(self).wf() ==> final(self).wf(),
    {
        let node = graph_add_node(&mut self.graph, GraphNode::Entity { handle, archetype });
        let ghost s = self.entity_nodes.list_spec();
        match self.entity_index(handle) {
            Some(k) => {
                self.entity_nodes.set_at(k, (handle, node));
                proof {
                    assert forall|j: int| 0 <= j < self.entity_nodes.list_spec().len() implies #[trigger] self.entity_nodes.list_spec()[j].0 == s[j].0 by {}
                    assert forall|h: EntityHandle| #[trigger] lookup_key(self.entity_nodes.list_spec(), h)
                        == if h == handle { Some(node) } else { lookup_key(s, h) } by {
                        lemma_lookup_key_set(s, k as int, node, h);
                    }
                }
            },
            None => {
                self.entity_nodes.push((handle, node));
                proof {
                    assert forall|j: int| 0 <= j < s.len() implies #[trigger] self.entity_nodes.list_spec()[j] == s[j] by {}
                    assert forall|h: EntityHandle| #[trigger] lookup_key(self.entity_nodes.list_spec(), h)
                        == if h == handle { Some(node) } else { lookup_key(s, h) } by {
                        lemma_lookup_key_push(s, (handle, node), h);
                        if h == handle {
                            lemma_lookup_key_none(s, handle);
                        }
                    }
                }
            },
        }
        proof {
            assert(lookup_key(self.entity_nodes.list_spec(), handle) == Some(node));
        }
        self.entity_nodes.note(handle, node);
        self.dirty = true;
        proof {
            if old(self).wf() {
                let t = self.entity_nodes.list_spec();
                let y = self.system_nodes_spec();
                assert(y == old(self).system_nodes_spec());
                assert forall|j: int| 0 <= j < t.len() implies (#[trigger] t[j]).1 < self.nodes().len()
                    && (t[j].1 == node || (t[j] == s[j] && t[j].1 < node)) by {
                    if t[j].1 != node {
                        assert(t[j] == s[j]);
                    }
                }
                assert forall|j: int| 0 <= j < y.len() implies (#[trigger] y[j]).1 < self.nodes().len() by {}
                assert forall|i: int, j: int| 0 <= i < j < t.len() implies
                    #[trigger] t[i].1 != #[trigger] t[j].1 by {
                    if t[i].1 == node {
                        assert(t[j].1 != node) by {
                            if t[j].1 == node {
                                assert(t[i].0 == handle);
                                assert(t[j].0 == handle);
                            }
                        }
                    } else if t[j].1 != node {
                        assert(s[i].1 != s[j].1);
                    }
                }
                assert forall|i: int, j: int| 0 <= i < t.len() && 0 <= j < y.len() implies
                    #[trigger] self.entity_nodes_spec()[i].1 != #[trigger] self.system_nodes_spec()[j].1 by {
                    if t[i].1 != node {
                        assert(s[i].1 != y[j].1);
                    }
                }
            }
        }
        node
    }

    /// Adds a system node and records it as the node of `name`.
    pub fn add_system_node(&mut self, name: String, archetype: ArchetypeId, resonator: usize, reads: Vec<u64>, writes: Vec<u64>) -> (h: SystemHandle)
        requires
            old(self).nodes().len() < u32::MAX,
        ensures
            h.0 == old(self).nodes().len(),
            final(self).nodes().len() == old(self).nodes().len() + 1,
            final(self).nodes().subrange(0, old(self).nodes().len() as int) == old(self).nodes(),
            final(self).nodes().last() matches GraphNode::System { name: n2, priority, archetype: a2, resonator: r2, reads: rd, writes: wr }
                && n2@ == name@ && priority == 0 && a2 == archetype && r2 == resonator && rd@ == reads@ && wr@ == writes@,
            final(self).edges() == old(self).edges(),
            forall|n: Seq<char>| #[trigger] final(self).system_node(n) == if n == name@ { Some(h.0) } else { old(self).system_node(n) },
            final(self).entity_nodes_spec() == old(self).entity_nodes_spec(),
            final(self).plan_spec() == old(self).plan_spec(),
            final(self).dirty_spec(),
            old(self).wf() ==> final(self).wf(),
    {
        let key = name.clone();
        let node = graph_add_node(&mut self.graph, GraphNode::System { name, priority: 0, archetype, resonator, reads, writes });
        let ghost s = self.system_nodes_spec();
        let ghost s0 = self.system_nodes@;
        self.dirty = true;
        proof {
            assert(key@ == name@);
            assert(s == old(self).system_nodes_spec());
        }
        match self.system_index(key.as_str()) {
            Some(k) => {
                let ghost kk = s[k as int].0;
                proof {
                    assert(key == name);
                    assert(kk == name@);
                }
                self.system_nodes.set(k, (key, node));
                proof {
                    assert forall|j: int| 0 <= j < s.len() implies #[trigger] self.system_nodes_spec()[j] == s.update(k as int, (kk, node))[j] by {
                        if j != k {
                            assert(self.system_nodes@[j] == s0[j]);
                        }
                    }
                    assert(self.system_nodes_spec() =~= s.update(k as int, (kk, node)));
                    assert forall|m: Seq<char>| #[trigger] self.system_node(m)
                        == if m == kk { Some(node) } else { lookup_key(s, m) } by {
                        lemma_lookup_key_set(s, k as int, node, m);
                    }
                }
            },
            None => {
                let ghost x = (key@, node);
                proof {
                    assert(s.len() == self.system_nodes@.len());
                    assert forall|j: int| 0 <= j < s.len() implies s[j].0 != x.0 by {
                        assert(s[j] == self.system_nodes_spec()[j]);
                    }
                }
                self.system_nodes.push((key, node));
                proof {
                    assert forall|j: int| 0 <= j < s.len() + 1 implies #[trigger] self.system_nodes_spec()[j] == s.push(x)[j] by {
                        if j < s.len() {
                            assert(self.system_nodes@[j] == s0[j]);
                        }
                    }
                    assert(self.system_nodes_spec() =~= s.push(x));
                    assert forall|m: Seq<char>| #[trigger] self.system_node(m)
                        == if m == x.0 { Some(node) } else { lookup_key(s, m) } by {
                        lemma_lookup_key_push(s, x, m);
                        if m == x.0 {
                            lemma_lookup_key_none(s, m);
                        }
                    }
                }
            },
        }
        proof {
            assert(self.entity_nodes_spec() == old(self).entity_nodes_spec());
            assert(self.nodes().len() == old(self).nodes().len() + 1);
        }
        SystemHandle(node)
    }

    /// Position of the first entry of `h` in the entity table.
    fn entity_index(&self, h: EntityHandle) -> (r: Option<usize>)
        ensures
            r matches Some(k) ==> k < self.entity_nodes.list_spec().len() && self.entity_nodes.list_spec()[k as int].0 == h
                && forall|j: int| 0 <= j < k ==> self.entity_nodes.list_spec()[j].0 != h,
            r is None ==> forall|j: int| 0 <= j < self.entity_nodes.list_spec().len() ==> self.entity_nodes.list_spec()[j].0 != h,
    {
        let n = self.entity_nodes.len();
        let mut k: usize = 0;
        while k < n
            invariant
                n == self.entity_nodes.list_spec().len(),
                k <= n,
                forall|j: int| 0 <= j < k ==> self.entity_nodes.list_spec()[j].0 != h,
            decreases n - k,
        {
            if self.entity_nodes.at(k).0 == h {
                return Some(k);
            }
            k = k + 1;
        }
        None
    }

    /// Position of the first entry of system `name` in the system table.
    fn system_index(&self, name: &str) -> (r: Option<usize>)
        ensures
            r matches Some(k) ==> k < self.system_nodes@.len() && self.system_nodes_spec()[k as int].0 == name@
                && forall|j: int| 0 <= j < k ==> self.system_nodes_spec()[j].0 != name@,
            r is None ==> forall|j: int| 0 <= j < self.system_nodes@.len() ==> self.system_nodes_spec()[j].0 != name@,
    {
        let ghost s = self.system_nodes_spec();
        let n = self.system_nodes.len();
        let mut k: usize = 0;
        while k < n
            invariant
                n == self.system_nodes@.len(),
                s == self.system_nodes_spec(),
                k <= n,
                forall|j: int| 0 <= j < k ==> s[j].0 != name@,
            decreases n - k,
        {
            proof {
                assert(s[k as int] == (self.system_nodes@[k as int].0@, self.system_nodes@[k as int].1));
            }
            if crate::interning::str_eq(self.system_nodes[k].0.as_str(), name) {
                return Some(k);
            }
            k = k + 1;
        }
        None
    }

    /// Node of `h`, if it was added.
    fn find_entity(&self, h: EntityHandle) -> (r: Option<usize>)
        ensures
            r == self.entity_node(h),
    {
        self.entity_nodes.find(h)
    }

    /// Node of system `name`, if it was added.
    fn find_system(&self, name: &str) -> (r: Option<usize>)
        ensures
            r == self.system_node(name@),
    {
        match self.system_index(name) {
            Some(k) => {
                proof {
                    lemma_lookup_key_at(self.system_nodes_spec(), k as int, name@);
                }
                Some(self.system_nodes[k].1)
            },
            None => {
                proof {
                    lemma_lookup_key_none(self.system_nodes_spec(), name@);
                }
                None
            },
        }
    }

    /// Adds edge `relation` from entity `subject` to entity `object`; both
    /// must have been added.
    pub fn add_relation(&mut self, subject: EntityHandle, relation: GraphEdge, object: EntityHandle) -> (r: Result<(), GraphError>)
        requires
            old(self).edges().len() < u32::MAX,
        ensures
            r is Ok <==> old(self).has_node(subject) && old(self).has_node(object),
            old(self).wf() ==> (r is Ok <==> old(self).entity_node(subject) is Some && old(self).entity_node(object) is Some),
            r matches Err(e) ==> e matches GraphError::InvalidTraversal(msg)
                && msg@ == missing_entity_message(if !old(self).has_node(subject) { subject } else { object }),
            r is Ok ==> final(self).edges() == old(self).edges().push(
                (old(self).entity_node(subject).unwrap(), old(self).entity_node(object).unwrap(), relation)),
            r is Err ==> final(self).edges() == old(self).edges(),
            final(self).nodes() == old(self).nodes(),
            final(self).entity_nodes_spec() == old(self).entity_nodes_spec(),
            final(self).system_nodes_spec() == old(self).system_nodes_spec(),
            final(self).plan_spec() == old(self).plan_spec(),
            final(self).dirty_spec() == old(self).dirty_spec(),
    {
        proof {
            lemma_lookup_key_in(self.entity_nodes.list_spec(), subject);
            lemma_lookup_key_in(self.entity_nodes.list_spec(), object);
        }
        let count = graph_node_count(&self.graph);
        let fs = self.find_entity(subject);
        let from: usize = match fs {
            Some(a) => a,
            None => count,
        };
        if from >= count {
            return Err(GraphError::InvalidTraversal(not_in_graph(subject.0.index, subject.0.generation)));
        }
        let fo = self.find_entity(object);
        let to: usize = match fo {
            Some(b) => b,
            None => count,
        };
        if to >= count {
            return Err(GraphError::InvalidTraversal(not_in_graph(object.0.index, object.0.generation)));
        }
        graph_add_edge(&mut self.graph, from, to, relation);
        Ok(())
    }

    /// Adds a dependency edge from system `from` to system `to`.
    pub fn add_dependency(&mut self, from: &str, to: &str) -> (r: Result<(), GraphError>)
        requires
            old(self).system_node(from@) matches Some(a) ==> a < old(self).nodes().len(),
            old(self).system_node(to@) matches Some(b) ==> b < old(self).nodes().len(),
            old(self).edges().len() < u32::MAX,
        ensures
            r is Ok <==> old(self).system_node(from@) is Some && old(self).system_node(to@) is Some,
            r matches Err(e) ==> e matches GraphError::SystemNotFound(msg)
                && msg@ == if old(self).system_node(from@) is None { from@ } else { to@ },
            r is Ok ==> final(self).edges() == old(self).edges().push(
                (old(self).system_node(from@).unwrap(), old(self).system_node(to@).unwrap(), GraphEdge::DependsOn))
                && final(self).dirty_spec(),
            r is Err ==> final(self).edges() == old(self).edges() && final(self).dirty_spec() == old(self).dirty_spec(),
            final(self).nodes() == old(self).nodes(),
            final(self).entity_nodes_spec() == old(self).entity_nodes_spec(),
            final(self).system_nodes_spec() == old(self).system_nodes_spec(),
            final(self).plan_spec() == old(self).plan_spec(),
    {
        let a = match self.find_system(from) {
            Some(a) => a,
            None => return Err(GraphError::SystemNotFound(from.to_owned())),
        };
        let b = match self.find_system(to) {
            Some(b) => b,
            None => return Err(GraphError::SystemNotFound(to.to_owned())),
        };
        graph_add_edge(&mut self.graph, a, b, GraphEdge::DependsOn);
        self.dirty = true;
        Ok(())
    }

    /// Children of `parent`: the entities that have a child edge to it,
    /// in the order the edges were added.
    pub fn query_children(&self, parent: EntityHandle) -> (r: Vec<EntityHandle>)
        ensures
            r@ == match self.entity_node(parent) {
                Some(a) => self.children_of(a),
                None => Seq::<EntityHandle>::empty(),
            },
            forall|k: int| 0 <= k < r@.len() ==> is_entity_handle(self.nodes(), #[trigger] r@[k]),
            self.entity_node(parent) matches Some(a) ==> r@.to_set() == child_set(self.nodes(), self.edges(), a),
    {
        let node = match self.find_entity(parent) {
            Some(n) => n,
            None => return Vec::new(),
        };
        let count = graph_node_count(&self.graph);
        let m = graph_edge_count(&self.graph);
        let mut out: Vec<EntityHandle> = Vec::new();
        let mut e: usize = 0;
        while e < m
            invariant
                m == self.edges().len(),
                count == self.nodes().len(),
                e <= m,
                out@ == child_sources(self.nodes(), self.edges().subrange(0, e as int), node),
                forall|q: int| 0 <= q < out@.len() ==> is_entity_handle(self.nodes(), #[trigger] out@[q]),
            decreases m - e,
        {
            proof {
                assert(self.edges().subrange(0, e + 1).drop_last() =~= self.edges().subrange(0, e as int));
            }
            let (source, target, w) = graph_edge_at(&self.graph, e);
            if target == node && source < count {
                match w {
                    GraphEdge::ChildOf => {
                        match graph_node(&self.graph, source) {
                            GraphNode::Entity { handle, .. } => {
                                proof {
                                    assert(entity_at(self.nodes(), source as int, *handle));
                                }
                                out.push(*handle);
                            },
                            _ => {},
                        }
                    },
                    _ => {},
                }
            }
            e = e + 1;
        }
        proof {
            assert(self.edges().subrange(0, m as int) =~= self.edges());
            assert forall|h: EntityHandle| out@.to_set().contains(h) <==> child_set(self.nodes(), self.edges(), node).contains(h) by {
                lemma_child_sources_has(self.nodes(), self.edges(), node, h);
            }
            assert(out@.to_set() =~= child_set(self.nodes(), self.edges(), node));
        }
        out
    }

    /// The graph as DOT text: nodes by index, then edges by index.
    pub fn to_dot(&self) -> (s: String)
        requires
            self.nodes().len() <= usize::MAX,
        ensures
            s@ == dot_text(self.nodes(), self.edges()),
    {
        let mut out = String::from_str("digraph Simulation {\n");
        out.append("  rankdir=LR;\n");
        out.append("  node [shape=box];\n\n");
        let ghost head = out@;
        let n = graph_node_count(&self.graph);
        let mut i: usize = 0;
        while i < n
            invariant
                n == self.nodes().len(),
                i <= n,
                out@ == head + dot_node_lines(self.nodes(), i as nat),
            decreases n - i,
        {
            let line = match graph_node(&self.graph, i) {
                GraphNode::Entity { handle, .. } => dot_entity(i, handle.0.index, handle.0.generation),
                GraphNode::System { name, .. } => dot_system(i, name.as_str()),
                GraphNode::Component { name, .. } => dot_component(i, name),
                GraphNode::Archetype { id, .. } => dot_archetype(i, id.0),
            };
            out.append(line.as_str());
            i = i + 1;
            proof {
                assert(head + dot_node_lines(self.nodes(), (i - 1) as nat) + dot_node_line((i - 1) as usize, self.nodes()[i - 1])
                    =~= head + dot_node_lines(self.nodes(), i as nat));
            }
        }
        out.append("\n");
        let ghost mid = out@;
        let m = graph_edge_count(&self.graph);
        let mut e: usize = 0;
        while e < m
            invariant
                m == self.edges().len(),
                e <= m,
                out@ == mid + dot_edge_lines(self.nodes(), self.edges(), e as nat),
            decreases m - e,
        {
            let (a, b, w) = graph_edge_at(&self.graph, e);
            let pa = prefix_of(&self.graph, a);
            let pb = prefix_of(&self.graph, b);
            let line = match w {
                GraphEdge::Custom(name) => dot_edge(pa, a, pb, b, "label", name),
                _ => dot_edge(pa, a, pb, b, "style", edge_style_of(w)),
            };
            out.append(line.as_str());
            e = e + 1;
            proof {
                assert(mid + dot_edge_lines(self.nodes(), self.edges(), (e - 1) as nat) + dot_edge_line(self.nodes(), self.edges()[e - 1])
                    =~= mid + dot_edge_lines(self.nodes(), self.edges(), e as nat));
            }
        }
        out.append("}\n");
        proof {
            assert(out@ =~= dot_text(self.nodes(), self.edges()));
        }
        out
    }

    /// Number of nodes.
    pub fn node_count(&self) -> (n: usize)
        ensures
            n == self.nodes().len(),
    {
        graph_node_count(&self.graph)
    }

    pub fn is_dirty(&self) -> (b: bool)
        ensures
            b == self.dirty_spec(),
    {
        self.dirty
    }

    pub fn mark_clean(&mut self)
        ensures
            !final(self).dirty_spec(),
            final(self).nodes() == old(self).nodes(),
            final(self).edges() == old(self).edges(),
            final(self).entity_nodes_spec() == old(self).entity_nodes_spec(),
            final(self).system_nodes_spec() == old(self).system_nodes_spec(),
            final(self).plan_spec() == old(self).plan_spec(),
    {
        self.dirty = false;
    }

    pub fn execution_plan(&self) -> (r: Option<&ExecutionPlan>)
        ensures
            r matches Some(p) ==> self.plan_spec() == Some(*p),
            r is None ==> self.plan_spec() is None,
    {
        match &self.execution_plan {
            Some(p) => Some(p),
            None => None,
        }
    }

    /// Stores `plan` as the compiled plan; the graph counts as clean.
    pub fn set_execution_plan(&mut self, plan: ExecutionPlan)
        ensures
            final(self).plan_spec() == Some(plan),
            !final(self).dirty_spec(),
            final(self).graph_spec() == old(self).graph_spec(),
            final(self).nodes() == old(self).nodes(),
            final(self).edges() == old(self).edges(),
            final(self).entity_nodes_spec() == old(self).entity_nodes_spec(),
            final(self).system_nodes_spec() == old(self).system_nodes_spec(),
    {
        self.execution_plan = Some(plan);
        self.dirty = false;
    }

    /// The graph itself.
    pub fn graph(&self) -> (g: &DiGraph<GraphNode, GraphEdge>)
        ensures
            *g == self.graph_spec(),
            graph_nodes(*g) == self.nodes(),
            graph_edges(*g) == self.edges(),
    {
        &self.graph
    }

    /// Systems with their nodes, as added.
    pub fn system_nodes(&self) -> (r: &Vec<(String, usize)>)
        ensures
            r@.map_values(|p: (String, usize)| (p.0@, p.1)) == self.system_nodes_spec(),
    {
        &self.system_nodes
    }

    /// Removes the node of entity `handle`, if it was added: the entity is
    /// forgotten, and the graph's last node takes the removed node's index,
    /// so the entity or system recorded at the last node is recorded at
    /// that index now.
    pub fn remove_entity(&mut self, handle: EntityHandle)
        requires
            old(self).wf(),
        ensures
            final(self).wf(),
            final(self).entity_node(handle) is None,
            old(self).entity_node(handle) is None ==> *final(self) == *old(self),
            old(self).entity_node(handle) matches Some(a) ==> {
                let last = (old(self).nodes().len() - 1) as usize;
                &&& (a as int) < old(self).nodes().len()
                &&& final(self).entity_nodes_spec() == old(self).entity_nodes_spec()
                    .remove(index_of_key(old(self).entity_nodes_spec(), handle))
                    .map_values(|p: (EntityHandle, usize)| (p.0, moved(p.1, last, a)))
                &&& final(self).system_nodes_spec() == old(self).system_nodes_spec()
                    .map_values(|p: (Seq<char>, usize)| (p.0, moved(p.1, last, a)))
                &&& forall|h: EntityHandle| h != handle ==> #[trigger] final(self).entity_node(h) == match old(self).entity_node(h) {
                    Some(v) => Some(moved(v, last, a)),
                    None => None,
                }
                &&& final(self).nodes() == old(self).nodes().update(a as int, old(self).nodes().last()).drop_last()
                &&& final(self).edges().to_multiset() == old(self).edges()
                    .filter(|e: (usize, usize, GraphEdge)| e.0 != a && e.1 != a)
                    .map_values(|e: (usize, usize, GraphEdge)| (moved(e.0, last, a), moved(e.1, last, a), e.2))
                    .to_multiset()
                &&& final(self).dirty_spec()
            },
            final(self).plan_spec() == old(self).plan_spec(),
    {
        let ghost s = self.entity_nodes.list_spec();
        let ghost sys0 = self.system_nodes_spec();
        match self.entity_index(handle) {
            Some(k) => {
                proof {
                    lemma_lookup_key_at(s, k as int, handle);
                    lemma_index_of_key(s, k as int, handle);
                }
                let n = graph_node_count(&self.graph);
                let (_, node) = self.entity_nodes.remove_at(k);
                let ghost s1 = self.entity_nodes.list_spec();
                proof {
                    assert(s1 =~= s.remove(k as int));
                    assert forall|j: int| 0 <= j < s1.len() implies (#[trigger] s1[j]).0 != handle && s1[j].1 != node by {
                        if j < k {
                            assert(s1[j] == s[j]);
                            assert(s[j].0 != s[k as int].0);
                            assert(s[j].1 != s[k as int].1);
                        } else {
                            assert(s1[j] == s[j + 1]);
                            assert(s[k as int].0 != s[j + 1].0);
                            assert(s[k as int].1 != s[j + 1].1);
                        }
                    }
                }
                let last = n - 1;
                let ghost e0 = graph_edges(self.graph);
                graph_remove_node(&mut self.graph, node);
                proof {
                    let f1 = e0.filter(|e: (usize, usize, GraphEdge)| e.0 != node && e.1 != node);
                    let f2 = old(self).edges().filter(|e: (usize, usize, GraphEdge)| e.0 != node && e.1 != node);
                    assert(e0 == old(self).edges());
                    assert(f1 == f2);
                    assert(f1.map_values(|e: (usize, usize, GraphEdge)| (
                        if e.0 == last { node } else { e.0 },
                        if e.1 == last { node } else { e.1 },
                        e.2)) =~= f2.map_values(|e: (usize, usize, GraphEdge)| (moved(e.0, last, node), moved(e.1, last, node), e.2)));
                }
                self.dirty = true;
                self.renumber(last, node);
                proof {
                    let sm = s.remove(k as int).map_values(|p: (EntityHandle, usize)| (p.0, moved(p.1, last, node)));
                    assert(self.entity_nodes.list_spec() =~= sm);
                    assert forall|h: EntityHandle| h != handle implies #[trigger] lookup_key(self.entity_nodes.list_spec(), h) == match lookup_key(s, h) {
                        Some(v) => Some(moved(v, last, node)),
                        None => None,
                    } by {
                        lemma_lookup_key_remove(s, k as int, h);
                        lemma_lookup_key_map(s.remove(k as int), last, node, h);
                    }
                    lemma_lookup_key_none_map(s.remove(k as int), last, node, handle);
                    assert forall|j: int| 0 <= j < self.entity_nodes.list_spec().len() implies (#[trigger] self.entity_nodes.list_spec()[j]).1 < self.nodes().len() by {
                        assert(self.entity_nodes.list_spec()[j] == (s1[j].0, moved(s1[j].1, last, node)));
                        assert(s1[j].1 < n);
                    }
                    assert forall|j: int| 0 <= j < self.system_nodes_spec().len() implies (#[trigger] self.system_nodes_spec()[j]).1 < self.nodes().len() by {
                        assert(self.system_nodes_spec()[j] == (sys0[j].0, moved(sys0[j].1, last, node)));
                        assert(sys0[j].1 != node) by {
                            assert(s[k as int].1 != sys0[j].1);
                        }
                    }
                    assert forall|i: int, j: int| 0 <= i < j < self.entity_nodes.list_spec().len()
                        implies #[trigger] self.entity_nodes.list_spec()[i].0 != #[trigger] self.entity_nodes.list_spec()[j].0
                            && self.entity_nodes.list_spec()[i].1 != self.entity_nodes.list_spec()[j].1 by {
                        assert(self.entity_nodes.list_spec()[i] == (s1[i].0, moved(s1[i].1, last, node)));
                        assert(self.entity_nodes.list_spec()[j] == (s1[j].0, moved(s1[j].1, last, node)));
                        let (ii, jj) = (if i < k { i } else { i + 1 }, if j < k { j } else { j + 1 });
                        assert(s1[i] == s[ii]);
                        assert(s1[j] == s[jj]);
                        assert(s[ii].0 != s[jj].0);
                        assert(s[ii].1 != s[jj].1);
                    }
                    assert forall|i: int, j: int| 0 <= i < self.entity_nodes.list_spec().len() && 0 <= j < self.system_nodes_spec().len()
                        implies #[trigger] self.entity_nodes_spec()[i].1 != #[trigger] self.system_nodes_spec()[j].1 by {
                        assert(self.entity_nodes.list_spec()[i] == (s1[i].0, moved(s1[i].1, last, node)));
                        assert(self.system_nodes_spec()[j] == (sys0[j].0, moved(sys0[j].1, last, node)));
                        let ii = if i < k { i } else { i + 1 };
                        assert(s1[i] == s[ii]);
                        assert(s[ii].1 != sys0[j].1);
                        assert(s[k as int].1 != sys0[j].1);
                    }
                }
            },
            None => {
                proof {
                    lemma_lookup_key_none(s, handle);
                }
            },
        }
    }

    /// Records node `to` for every entity and system recorded at node `from`.
    fn renumber(&mut self, from: usize, to: usize)
        ensures
            final(self).entity_nodes_spec() == old(self).entity_nodes_spec().map_values(|p: (EntityHandle, usize)| (p.0, moved(p.1, from, to))),
            final(self).system_nodes_spec() == old(self).system_nodes_spec().map_values(|p: (Seq<char>, usize)| (p.0, moved(p.1, from, to))),
            final(self).graph_spec() == old(self).graph_spec(),
            final(self).plan_spec() == old(self).plan_spec(),
            final(self).dirty_spec() == old(self).dirty_spec(),
    {
        let ghost e0 = self.entity_nodes.list_spec();
        let n = self.entity_nodes.len();
        let mut k: usize = 0;
        while k < n
            invariant
                n == e0.len(),
                self.entity_nodes.list_spec().len() == n,
                k <= n,
                forall|j: int| 0 <= j < k ==> #[trigger] self.entity_nodes.list_spec()[j] == (e0[j].0, moved(e0[j].1, from, to)),
                forall|j: int| k <= j < n ==> #[trigger] self.entity_nodes.list_spec()[j] == e0[j],
                self.graph == old(self).graph,
                self.system_nodes == old(self).system_nodes,
                self.execution_plan == old(self).execution_plan,
                self.dirty == old(self).dirty,
            decreases n - k,
        {
            let (h, v) = self.entity_nodes.at(k);
            if v == from {
                self.entity_nodes.set_at(k, (h, to));
            }
            k = k + 1;
        }
        proof {
            assert(self.entity_nodes.list_spec() =~= e0.map_values(|p: (EntityHandle, usize)| (p.0, moved(p.1, from, to))));
        }
        let ghost s0 = self.system_nodes_spec();
        let m = self.system_nodes.len();
        let mut j: usize = 0;
        while j < m
            invariant
                m == s0.len(),
                self.system_nodes@.len() == m,
                j <= m,
                forall|q: int| 0 <= q < j ==> #[trigger] self.system_nodes_spec()[q] == (s0[q].0, moved(s0[q].1, from, to)),
                forall|q: int| j <= q < m ==> #[trigger] self.system_nodes_spec()[q] == s0[q],
                self.graph == old(self).graph,
                self.entity_nodes.list_spec() == e0.map_values(|p: (EntityHandle, usize)| (p.0, moved(p.1, from, to))),
                self.execution_plan == old(self).execution_plan,
                self.dirty == old(self).dirty,
            decreases m - j,
        {
            if self.system_nodes[j].1 == from {
                let ghost before = self.system_nodes_spec();
                let (name, _) = self.system_nodes.remove(j);
                self.system_nodes.insert(j, (name, to));
                proof {
                    assert forall|q: int| 0 <= q < m implies #[trigger] self.system_nodes_spec()[q]
                        == if q == j { (before[q].0, to) } else { before[q] } by {
                        if q < j {
                        } else if q > j {
                        }
                    }
                }
            }
            j = j + 1;
        }
        proof {
            assert(self.system_nodes_spec() =~= s0.map_values(|p: (Seq<char>, usize)| (p.0, moved(p.1, from, to))));
        }
    }
}

/// Index `v` after node `from` took index `to`.
pub open spec fn moved(v: usize, from: usize, to: usize) -> usize {
    if v == from { to } else { v }
}

/// Looking up a key in a table whose values are renumbered gives the
/// renumbered value.
proof fn lemma_lookup_key_map<K>(s: Seq<(K, usize)>, from: usize, to: usize, k: K)
    ensures
        lookup_key(s.map_values(|p: (K, usize)| (p.0, moved(p.1, from, to))), k) == match lookup_key(s, k) {
            Some(v) => Some(moved(v, from, to)),
            None => None,
        },
    decreases s.len(),
{
    let t = s.map_values(|p: (K, usize)| (p.0, moved(p.1, from, to)));
    if s.len() > 0 {
        assert(t.drop_first() =~= s.drop_first().map_values(|p: (K, usize)| (p.0, moved(p.1, from, to))));
        lemma_lookup_key_map(s.drop_first(), from, to, k);
    }
}

proof fn lemma_lookup_key_none_map<K>(s: Seq<(K, usize)>, from: usize, to: usize, k: K)
    requires
        forall|j: int| 0 <= j < s.len() ==> s[j].0 != k,
    ensures
        lookup_key(s.map_values(|p: (K, usize)| (p.0, moved(p.1, from, to))), k) is None,
{
    let t = s.map_values(|p: (K, usize)| (p.0, moved(p.1, from, to)));
    assert forall|j: int| 0 <= j < t.len() implies t[j].0 != k by {}
    lemma_lookup_key_none(t, k);
}

/// Removing the pair of one key leaves what the other keys look up.
proof fn lemma_lookup_key_remove<K, V>(s: Seq<(K, V)>, i: int, k: K)
    requires
        0 <= i < s.len(),
        k != s[i].0,
    ensures
        lookup_key(s.remove(i), k) == lookup_key(s, k),
    decreases s.len(),
{
    if i == 0 {
        assert(s.remove(0) =~= s.drop_first());
    } else {
        assert(s.remove(i).drop_first() =~= s.drop_first().remove(i - 1));
        assert(s.remove(i)[0] == s[0]);
        lemma_lookup_key_remove(s.drop_first(), i - 1, k);
    }
}

/// A key found in a table names the value of one of its pairs.
proof fn lemma_lookup_key_in<K, V>(s: Seq<(K, V)>, key: K)
    ensures
        lookup_key(s, key) matches Some(v) ==> exists|j: int| 0 <= j < s.len() && #[trigger] s[j] == (key, v),
    decreases s.len(),
{
    if s.len() > 0 && s[0].0 != key {
        lemma_lookup_key_in(s.drop_first(), key);
        if lookup_key(s, key) is Some {
            let v = lookup_key(s, key).unwrap();
            let j = choose|j: int| 0 <= j < s.drop_first().len() && #[trigger] s.drop_first()[j] == (key, v);
            assert(s[j + 1] == (key, v));
        }
    } else if s.len() > 0 {
        assert(s[0] == (key, s[0].1));
    }
}

/// Position of the first pair with `key`.
pub open spec fn index_of_key<K, V>(s: Seq<(K, V)>, key: K) -> int
    decreases s.len(),
{
    if s.len() == 0 {
        0
    } else if s[0].0 == key {
        0
    } else {
        1 + index_of_key(s.drop_first(), key)
    }
}

proof fn lemma_index_of_key<K, V>(s: Seq<(K, V)>, i: int, key: K)
    requires
        0 <= i < s.len(),
        s[i].0 == key,
        forall|j: int| 0 <= j < i ==> s[j].0 != key,
    ensures
        index_of_key(s, key) == i,
    decreases s.len(),
{
    if i > 0 {
        lemma_index_of_key(s.drop_first(), i - 1, key);
    }
}

/// Replacing the value of pair `i`, the first with its key, changes only
/// what that key looks up.
proof fn lemma_lookup_key_set<K, V>(s: Seq<(K, V)>, i: int, v: V, k: K)
    requires
        0 <= i < s.len(),
        forall|j: int| 0 <= j < i ==> s[j].0 != s[i].0,
    ensures
        lookup_key(s.update(i, (s[i].0, v)), k) == if k == s[i].0 { Some(v) } else { lookup_key(s, k) },
    decreases s.len(),
{
    let t = s.update(i, (s[i].0, v));
    if i > 0 {
        assert(t.drop_first() =~= s.drop_first().update(i - 1, (s[i].0, v)));
        assert(s.drop_first()[i - 1] == s[i]);
        assert forall|j: int| 0 <= j < i - 1 implies (#[trigger] s.drop_first()[j]).0 != s.drop_first()[i - 1].0 by {
            assert(s.drop_first()[j] == s[j + 1]);
        }
        lemma_lookup_key_set(s.drop_first(), i - 1, v, k);
        assert(t[0] == s[0]);
    } else {
        assert(t.drop_first() =~= s.drop_first());
    }
}

/// Replacing pair `i` leaves what keys other than its old and new key
/// look up.
proof fn lemma_lookup_key_update_other<K, V>(s: Seq<(K, V)>, i: int, y: (K, V), k: K)
    requires
        0 <= i < s.len(),
        k != s[i].0,
        k != y.0,
    ensures
        lookup_key(s.update(i, y), k) == lookup_key(s, k),
    decreases s.len(),
{
    let t = s.update(i, y);
    if i > 0 {
        assert(t.drop_first() =~= s.drop_first().update(i - 1, y));
        assert(s.drop_first()[i - 1] == s[i]);
        lemma_lookup_key_update_other(s.drop_first(), i - 1, y, k);
        assert(t[0] == s[0]);
    } else {
        assert(t.drop_first() =~= s.drop_first());
    }
}

/// Appending a pair only adds a key not found before.
proof fn lemma_lookup_key_push<K, V>(s: Seq<(K, V)>, x: (K, V), k: K)
    ensures
        lookup_key(s.push(x), k) == if lookup_key(s, k) is Some { lookup_key(s, k) } else if x.0 == k { Some(x.1) } else { None },
    decreases s.len(),
{
    if s.len() > 0 {
        assert(s.push(x).drop_first() =~= s.drop_first().push(x));
        assert(s.push(x)[0] == s[0]);
        lemma_lookup_key_push(s.drop_first(), x, k);
    } else {
        assert(s.push(x).drop_first() =~= s);
    }
}

impl Default for MetaGraph {
    fn default() -> (m: Self)
        ensures
            m.nodes() == Seq::<GraphNode>::empty(),
            m.edges() == Seq::<(usize, usize, GraphEdge)>::empty(),
            m.entity_nodes_spec() == Seq::<(EntityHandle, usize)>::empty(),
            m.system_nodes_spec() == Seq::<(Seq<char>, usize)>::empty(),
            m.plan_spec() is None,
            !m.dirty_spec(),
            m.wf(),
    {
        Self::new()
    }
}

} // verus!
