//! Graph queries: walks along child edges from a start entity, and the
//! entities of a walk that a filter accepts.

use vstd::prelude::*;
use crate::entity::EntityHandle;
use crate::graph::GraphError;
use crate::graph::meta::{GraphEdge, GraphNode, MetaGraph};
use crate::query::kept;

verus! {

/// How far a traversal goes.
#[derive(Clone, Copy, Debug, PartialEq, Eq, Structural)]
pub enum TraversalMode {
    /// Direct children only.
    OneHop,
    /// Breadth-first, all descendants.
    Recursive,
    /// Depth-first, all descendants.
    RecursiveDFS,
}

/// Node `i` of `nodes` is the entity node of `h`.
pub open spec fn entity_at(nodes: Seq<GraphNode>, i: int, h: EntityHandle) -> bool {
    0 <= i < nodes.len() && (nodes[i] matches GraphNode::Entity { handle, .. } && handle == h)
}

/// `h` has an entity node in `nodes`.
pub open spec fn is_entity_handle(nodes: Seq<GraphNode>, h: EntityHandle) -> bool {
    exists|i: int| #[trigger] entity_at(nodes, i, h)
}

/// Children of entity `h` in `mg`, as `MetaGraph::query_children` gives them.
pub open spec fn kids(mg: MetaGraph, h: EntityHandle) -> Seq<EntityHandle> {
    match mg.entity_node(h) {
        Some(a) => mg.children_of(a),
        None => Seq::empty(),
    }
}

/// `order` followed by the handles of `ks` it does not hold yet, in the order
/// of `ks`, each once.
pub open spec fn add_new(order: Seq<EntityHandle>, ks: Seq<EntityHandle>) -> Seq<EntityHandle>
    decreases ks.len(),
{
    if ks.len() == 0 {
        order
    } else {
        let o = add_new(order, ks.drop_last());
        if o.contains(ks.last()) {
            o
        } else {
            o.push(ks.last())
        }
    }
}

/// Breadth-first visit order after `fuel` more steps: `order` lists the
/// entities seen, those before `head` already expanded.
pub open spec fn bfs_run(mg: MetaGraph, order: Seq<EntityHandle>, head: nat, fuel: nat) -> Seq<EntityHandle>
    decreases fuel,
{
    if fuel == 0 || head >= order.len() {
        order
    } else {
        bfs_run(mg, add_new(order, kids(mg, order[head as int])), head + 1, (fuel - 1) as nat)
    }
}

/// The breadth-first walk ends within `fuel` steps.
pub open spec fn bfs_done(mg: MetaGraph, order: Seq<EntityHandle>, head: nat, fuel: nat) -> bool
    decreases fuel,
{
    if head >= order.len() {
        true
    } else if fuel == 0 {
        false
    } else {
        bfs_done(mg, add_new(order, kids(mg, order[head as int])), head + 1, (fuel - 1) as nat)
    }
}

/// Depth-first walk after `fuel` more steps from `stack` (top last) with
/// `visited` seen: the entities visited, `start` left out.
pub open spec fn dfs_run(mg: MetaGraph, start: EntityHandle, stack: Seq<EntityHandle>, visited: Seq<EntityHandle>, fuel: nat) -> Seq<EntityHandle>
    decreases fuel,
{
    if fuel == 0 || stack.len() == 0 {
        Seq::empty()
    } else {
        let cur = stack.last();
        let rest = stack.drop_last();
        if visited.contains(cur) {
            dfs_run(mg, start, rest, visited, (fuel - 1) as nat)
        } else {
            let here = if cur != start { seq![cur] } else { Seq::empty() };
            here + dfs_run(mg, start, rest + kids(mg, cur), visited.push(cur), (fuel - 1) as nat)
        }
    }
}

/// The depth-first walk ends within `fuel` steps.
pub open spec fn dfs_done(mg: MetaGraph, start: EntityHandle, stack: Seq<EntityHandle>, visited: Seq<EntityHandle>, fuel: nat) -> bool
    decreases fuel,
{
    if stack.len() == 0 {
        true
    } else if fuel == 0 {
        false
    } else {
        let cur = stack.last();
        let rest = stack.drop_last();
        if visited.contains(cur) {
            dfs_done(mg, start, rest, visited, (fuel - 1) as nat)
        } else {
            dfs_done(mg, start, rest + kids(mg, cur), visited.push(cur), (fuel - 1) as nat)
        }
    }
}

/// Descendants of `start` breadth-first, each once, `start` left out.
pub open spec fn bfs_result(mg: MetaGraph, start: EntityHandle, r: Seq<EntityHandle>) -> bool {
    exists|f: nat| #[trigger] bfs_done(mg, seq![start], 0, f) && r == bfs_run(mg, seq![start], 0, f).drop_first()
}

/// Descendants of `start` depth-first, each once, `start` left out.
pub open spec fn dfs_result(mg: MetaGraph, start: EntityHandle, r: Seq<EntityHandle>) -> bool {
    exists|f: nat| #[trigger] dfs_done(mg, start, seq![start], Seq::empty(), f) && r == dfs_run(mg, start, seq![start], Seq::empty(), f)
}

/// A sequence without repeats of `start` and handles of entity nodes is no
/// longer than the nodes plus one.
proof fn lemma_handles_bounded(s: Seq<EntityHandle>, nodes: Seq<GraphNode>, start: EntityHandle)
    requires
        s.no_duplicates(),
        forall|k: int| 0 <= k < s.len() ==> #[trigger] s[k] == start || is_entity_handle(nodes, s[k]),
    ensures
        s.len() <= nodes.len() + 1,
{
    let n = nodes.len() as int;
    let idx = Seq::new(s.len(), |k: int| if s[k] == start { n } else { choose|i: int| entity_at(nodes, i, s[k]) });
    assert forall|a: int, b: int| 0 <= a < idx.len() && 0 <= b < idx.len() && a != b implies idx[a] != idx[b] by {
        assert(s[a] != s[b]);
        if s[a] != start {
            assert(entity_at(nodes, idx[a], s[a]));
        }
        if s[b] != start {
            assert(entity_at(nodes, idx[b], s[b]));
        }
    }
    assert(idx.no_duplicates());
    idx.unique_seq_to_set();
    vstd::set_lib::lemma_int_range(0, n + 1);
    assert forall|x: int| idx.to_set().contains(x) implies vstd::set_lib::set_int_range(0, n + 1).contains(x) by {
        let k = choose|k: int| 0 <= k < idx.len() && idx[k] == x;
        if s[k] != start {
            assert(entity_at(nodes, idx[k], s[k]));
        }
    }
    vstd::set_lib::lemma_len_subset(idx.to_set(), vstd::set_lib::set_int_range(0, n + 1));
}

/// `h` is in `s`.
fn holds(s: &Vec<EntityHandle>, h: EntityHandle) -> (r: bool)
    ensures
        r == s@.contains(h),
{
    let mut i: usize = 0;
    while i < s.len()
        invariant
            i <= s@.len(),
            forall|q: int| 0 <= q < i ==> s@[q] != h,
        decreases s@.len() - i,
    {
        if s[i] == h {
            return true;
        }
        i = i + 1;
    }
    false
}

/// A query over the graph: where it starts, the edges named, and how far it
/// goes.
pub struct GraphQuery<'w> {
    meta_graph: &'w MetaGraph,
    start: Option<EntityHandle>,
    edges: Vec<GraphEdge>,
    mode: TraversalMode,
}

impl<'w> GraphQuery<'w> {
    pub closed spec fn graph_spec(&self) -> MetaGraph {
        *self.meta_graph
    }

    pub closed spec fn start_spec(&self) -> Option<EntityHandle> {
        self.start
    }

    pub closed spec fn edges_spec(&self) -> Seq<GraphEdge> {
        self.edges@
    }

    pub closed spec fn mode_spec(&self) -> TraversalMode {
        self.mode
    }

    /// A one-hop query on `meta_graph` with no start yet.
    pub fn new(meta_graph: &'w MetaGraph) -> (q: Self)
        ensures
            q.graph_spec() == *meta_graph,
            q.start_spec() is None,
            q.edges_spec() == Seq::<GraphEdge>::empty(),
            q.mode_spec() == TraversalMode::OneHop,
    {
        GraphQuery { meta_graph, start: None, edges: Vec::new(), mode: TraversalMode::OneHop }
    }

    /// Starts the query at `entity`.
    pub fn start(self, entity: EntityHandle) -> (q: Self)
        ensures
            q.graph_spec() == self.graph_spec(),
            q.start_spec() == Some(entity),
            q.edges_spec() == self.edges_spec(),
            q.mode_spec() == self.mode_spec(),
    {
        let mut q = self;
        q.start = Some(entity);
        q
    }

    /// Names edge kind `edge` and sets how far the walk goes.
    pub fn traverse(self, edge: GraphEdge, mode: TraversalMode) -> (q: Self)
        ensures
            q.graph_spec() == self.graph_spec(),
            q.start_spec() == self.start_spec(),
            q.edges_spec() == self.edges_spec().push(edge),
            q.mode_spec() == mode,
    {
        let mut q = self;
        q.edges.push(edge);
        q.mode = mode;
        q
    }

    /// Runs the walk from the start entity along child edges: direct
    /// children, or all descendants breadth- or depth-first. Fails when no
    /// start was given.
    pub fn execute(self) -> (r: Result<Vec<EntityHandle>, GraphError>)
        ensures
            self.start_spec() is None ==> (r matches Err(e) && e matches GraphError::InvalidTraversal(msg)
                && msg@ == "No start entity specified"@),
            self.start_spec() matches Some(s) ==> (r matches Ok(v) && match self.mode_spec() {
                TraversalMode::OneHop => v@ == kids(self.graph_spec(), s),
                TraversalMode::Recursive => bfs_result(self.graph_spec(), s, v@) && v@.no_duplicates() && !v@.contains(s),
                TraversalMode::RecursiveDFS => dfs_result(self.graph_spec(), s, v@) && v@.no_duplicates() && !v@.contains(s),
            }),
    {
        let start = match self.start {
            Some(s) => s,
            None => return Err(GraphError::InvalidTraversal("No start entity specified".to_owned())),
        };
        match self.mode {
            TraversalMode::OneHop => Ok(self.meta_graph.query_children(start)),
            TraversalMode::Recursive => Ok(bfs(self.meta_graph, start)),
            TraversalMode::RecursiveDFS => Ok(dfs(self.meta_graph, start)),
        }
    }
}

impl<'w> GraphQuery<'w> {
    /// What a walk from `s` in the query's mode gives.
    pub open spec fn walk_result(&self, s: EntityHandle, v: Seq<EntityHandle>) -> bool {
        match self.mode_spec() {
            TraversalMode::OneHop => v == kids(self.graph_spec(), s),
            TraversalMode::Recursive => bfs_result(self.graph_spec(), s, v) && v.no_duplicates() && !v.contains(s),
            TraversalMode::RecursiveDFS => dfs_result(self.graph_spec(), s, v) && v.no_duplicates() && !v.contains(s),
        }
    }

    /// The query narrowed to the entities `keep` accepts.
    pub fn filter<F: Fn(EntityHandle) -> bool>(self, keep: F) -> (q: FilteredWalk<'w, F>)
        ensures
            q.query_spec() == self,
            q.keep_spec() == keep,
    {
        FilteredWalk { query: self, keep }
    }
}

/// A graph query with a filter: the entities of the walk that the filter
/// accepts, asked once each.
pub struct FilteredWalk<'w, F> {
    query: GraphQuery<'w>,
    keep: F,
}

impl<'w, F: Fn(EntityHandle) -> bool> FilteredWalk<'w, F> {
    pub closed spec fn query_spec(&self) -> GraphQuery<'w> {
        self.query
    }

    pub closed spec fn keep_spec(&self) -> F {
        self.keep
    }

    /// Starts the walk at `entity`, as `GraphQuery::start` does.
    pub fn start(self, entity: EntityHandle) -> (q: Self)
        ensures
            q.keep_spec() == self.keep_spec(),
            q.query_spec().graph_spec() == self.query_spec().graph_spec(),
            q.query_spec().start_spec() == Some(entity),
            q.query_spec().edges_spec() == self.query_spec().edges_spec(),
            q.query_spec().mode_spec() == self.query_spec().mode_spec(),
    {
        let FilteredWalk { query, keep } = self;
        FilteredWalk { query: query.start(entity), keep }
    }

    /// Names edge kind `edge` and sets the mode, as `GraphQuery::traverse`
    /// does.
    pub fn traverse(self, edge: GraphEdge, mode: TraversalMode) -> (q: Self)
        ensures
            q.keep_spec() == self.keep_spec(),
            q.query_spec().graph_spec() == self.query_spec().graph_spec(),
            q.query_spec().start_spec() == self.query_spec().start_spec(),
            q.query_spec().edges_spec() == self.query_spec().edges_spec().push(edge),
            q.query_spec().mode_spec() == mode,
    {
        let FilteredWalk { query, keep } = self;
        FilteredWalk { query: query.traverse(edge, mode), keep }
    }

    /// Runs the walk (see `GraphQuery::execute`) and keeps the entities the
    /// filter accepts, in order.
    pub fn execute(self) -> (r: Result<Vec<EntityHandle>, GraphError>)
        requires
            forall|h: EntityHandle| call_requires(self.keep_spec(), (h,)),
        ensures
            self.query_spec().start_spec() is None ==> (r matches Err(e) && e matches GraphError::InvalidTraversal(msg)
                && msg@ == "No start entity specified"@),
            self.query_spec().start_spec() matches Some(s) ==> (r matches Ok(v) && exists|w: Seq<EntityHandle>, bs: Seq<bool>|
                #[trigger] kept(w, bs) == v@ && self.query_spec().walk_result(s, w) && bs.len() == w.len()
                && forall|i: int| 0 <= i < bs.len() ==> call_ensures(self.keep_spec(), (w[i],), bs[i])),
    {
        let ghost me = self.query;
        let FilteredWalk { query, keep } = self;
        proof {
            assert(keep == self.keep_spec());
            assert(query == self.query_spec());
        }
        match query.execute() {
            Err(e) => Err(e),
            Ok(all) => {
                let ghost w = all@;
                let mut out: Vec<EntityHandle> = Vec::new();
                let ghost mut bs: Seq<bool> = Seq::empty();
                let mut i: usize = 0;
                while i < all.len()
                    invariant
                        all@ == w,
                        i <= all@.len(),
                        bs.len() == i,
                        forall|h: EntityHandle| call_requires(keep, (h,)),
                        out@ == kept(w.subrange(0, i as int), bs),
                        forall|q: int| 0 <= q < i ==> call_ensures(keep, (w[q],), #[trigger] bs[q]),
                    decreases all@.len() - i,
                {
                    let h = all[i];
                    let b = keep(h);
                    proof {
                        let bs2 = bs.push(b);
                        assert(w.subrange(0, i + 1).drop_last() =~= w.subrange(0, i as int));
                        assert(bs2.drop_last() =~= bs);
                        assert(w.subrange(0, i + 1).last() == h);
                    }
                    if b {
                        out.push(h);
                    }
                    proof {
                        bs = bs.push(b);
                    }
                    i = i + 1;
                }
                proof {
                    assert(w.subrange(0, i as int) =~= w);
                    let s = me.start_spec().unwrap();
                    assert(me.walk_result(s, w));
                }
                Ok(out)
            },
        }
    }
}

/// Descendants of `start` breadth-first.
fn bfs(mg: &MetaGraph, start: EntityHandle) -> (r: Vec<EntityHandle>)
    ensures
        bfs_result(*mg, start, r@),
        r@.no_duplicates(),
        !r@.contains(start),
{
    let ghost nodes = mg.nodes();
    let mut order: Vec<EntityHandle> = Vec::new();
    order.push(start);
    let mut head: usize = 0;
    proof {
        assert(order@ =~= seq![start]);
    }
    while head < order.len()
        invariant
            nodes == mg.nodes(),
            head <= order@.len(),
            order@.len() >= 1,
            order@[0] == start,
            order@.no_duplicates(),
            forall|k: int| 0 <= k < order@.len() ==> #[trigger] order@[k] == start || is_entity_handle(nodes, order@[k]),
            forall|m: nat| #[trigger] bfs_run(*mg, seq![start], 0, (head + m) as nat) == bfs_run(*mg, order@, head as nat, m),
            forall|m: nat| #[trigger] bfs_done(*mg, seq![start], 0, (head + m) as nat) == bfs_done(*mg, order@, head as nat, m),
        decreases nodes.len() + 1 - head,
    {
        proof {
            lemma_handles_bounded(order@, nodes, start);
        }
        let current = order[head];
        let children = mg.query_children(current);
        let ghost before = order@;
        let mut j: usize = 0;
        while j < children.len()
            invariant
                j <= children@.len(),
                children@ == kids(*mg, current),
                nodes == mg.nodes(),
                forall|k: int| 0 <= k < children@.len() ==> is_entity_handle(nodes, #[trigger] children@[k]),
                order@ == add_new(before, children@.subrange(0, j as int)),
                order@.len() >= before.len(),
                order@.subrange(0, before.len() as int) == before,
                order@.no_duplicates(),
                forall|k: int| 0 <= k < order@.len() ==> #[trigger] order@[k] == start || is_entity_handle(nodes, order@[k]),
            decreases children@.len() - j,
        {
            let child = children[j];
            proof {
                assert(children@.subrange(0, j + 1).drop_last() =~= children@.subrange(0, j as int));
            }
            if !holds(&order, child) {
                order.push(child);
                proof {
                    assert(order@.subrange(0, before.len() as int) =~= before);
                }
            }
            j = j + 1;
        }
        proof {
            assert(children@.subrange(0, children@.len() as int) =~= children@);
            let next = order@;
            assert forall|m: nat| #[trigger] bfs_run(*mg, seq![start], 0, (head + 1 + m) as nat) == bfs_run(*mg, next, (head + 1) as nat, m) by {
                assert(bfs_run(*mg, seq![start], 0, (head + (m + 1)) as nat) == bfs_run(*mg, before, head as nat, (m + 1) as nat));
                assert(before[head as int] == current);
            }
            assert forall|m: nat| #[trigger] bfs_done(*mg, seq![start], 0, (head + 1 + m) as nat) == bfs_done(*mg, next, (head + 1) as nat, m) by {
                assert(bfs_done(*mg, seq![start], 0, (head + (m + 1)) as nat) == bfs_done(*mg, before, head as nat, (m + 1) as nat));
                assert(before[head as int] == current);
            }
        }
        head = head + 1;
    }
    proof {
        let z: nat = 0;
        assert(bfs_run(*mg, seq![start], 0, (head + z) as nat) == bfs_run(*mg, order@, head as nat, z));
        assert(bfs_done(*mg, seq![start], 0, (head + z) as nat) == bfs_done(*mg, order@, head as nat, z));
    }
    let mut r: Vec<EntityHandle> = Vec::new();
    let mut k: usize = 1;
    while k < order.len()
        invariant
            1 <= k <= order@.len(),
            r@ == order@.subrange(1, k as int),
        decreases order@.len() - k,
    {
        r.push(order[k]);
        k = k + 1;
        proof {
            assert(r@ =~= order@.subrange(1, k as int));
        }
    }
    proof {
        assert(r@ =~= order@.drop_first());
        assert(bfs_done(*mg, seq![start], 0, head as nat) && r@ == bfs_run(*mg, seq![start], 0, head as nat).drop_first());
        assert forall|a: int, b: int| 0 <= a < b < r@.len() implies r@[a] != r@[b] by {
            assert(r@[a] == order@[a + 1]);
            assert(r@[b] == order@[b + 1]);
        }
        if r@.contains(start) {
            let k = choose|k: int| 0 <= k < r@.len() && r@[k] == start;
            assert(order@[k + 1] == order@[0]);
        }
    }
    r
}

/// Descendants of `start` depth-first.
fn dfs(mg: &MetaGraph, start: EntityHandle) -> (r: Vec<EntityHandle>)
    ensures
        dfs_result(*mg, start, r@),
        r@.no_duplicates(),
        !r@.contains(start),
{
    let ghost nodes = mg.nodes();
    let mut result: Vec<EntityHandle> = Vec::new();
    let mut stack: Vec<EntityHandle> = Vec::new();
    stack.push(start);
    let mut visited: Vec<EntityHandle> = Vec::new();
    let ghost mut steps: nat = 0;
    proof {
        assert(stack@ =~= seq![start]);
        assert(visited@ =~= Seq::<EntityHandle>::empty());
        assert forall|m: nat| #[trigger] dfs_run(*mg, start, seq![start], Seq::empty(), steps + m)
            == result@ + dfs_run(*mg, start, stack@, visited@, m) by {
            assert(result@ + dfs_run(*mg, start, stack@, visited@, m) =~= dfs_run(*mg, start, stack@, visited@, m));
        }
    }
    while stack.len() > 0
        invariant
            nodes == mg.nodes(),
            visited@.no_duplicates(),
            result@.no_duplicates(),
            !result@.contains(start),
            forall|k: int| 0 <= k < result@.len() ==> visited@.contains(#[trigger] result@[k]),
            forall|k: int| 0 <= k < visited@.len() ==> #[trigger] visited@[k] == start || is_entity_handle(nodes, visited@[k]),
            forall|k: int| 0 <= k < stack@.len() ==> #[trigger] stack@[k] == start || is_entity_handle(nodes, stack@[k]),
            forall|m: nat| #[trigger] dfs_run(*mg, start, seq![start], Seq::empty(), steps + m)
                == result@ + dfs_run(*mg, start, stack@, visited@, m),
            forall|m: nat| #[trigger] dfs_done(*mg, start, seq![start], Seq::empty(), steps + m)
                == dfs_done(*mg, start, stack@, visited@, m),
        decreases nodes.len() + 1 - visited@.len(), stack@.len(),
    {
        proof {
            lemma_handles_bounded(visited@, nodes, start);
        }
        let ghost st = stack@;
        let ghost vis = visited@;
        let ghost res = result@;
        let current = match stack.pop() {
            Some(c) => c,
            None => {
                proof {
                    assert(false);
                }
                start
            },
        };
        proof {
            assert(current == st.last());
            assert(stack@ == st.drop_last());
        }
        if holds(&visited, current) {
            proof {
                assert forall|m: nat| #[trigger] dfs_run(*mg, start, seq![start], Seq::empty(), (steps + 1) + m)
                    == result@ + dfs_run(*mg, start, stack@, visited@, m) by {
                    assert(dfs_run(*mg, start, seq![start], Seq::empty(), steps + (m + 1))
                        == res + dfs_run(*mg, start, st, vis, (m + 1) as nat));
                }
                assert forall|m: nat| #[trigger] dfs_done(*mg, start, seq![start], Seq::empty(), (steps + 1) + m)
                    == dfs_done(*mg, start, stack@, visited@, m) by {
                    assert(dfs_done(*mg, start, seq![start], Seq::empty(), steps + (m + 1))
                        == dfs_done(*mg, start, st, vis, (m + 1) as nat));
                }
                steps = steps + 1;
            }
            continue;
        }
        visited.push(current);
        proof {
            assert forall|k: int| 0 <= k < res.len() implies visited@.contains(#[trigger] res[k]) by {
                assert(vis.contains(res[k]));
                let q = choose|q: int| 0 <= q < vis.len() && vis[q] == res[k];
                assert(visited@[q] == res[k]);
            }
            assert forall|k: int| 0 <= k < visited@.len() implies #[trigger] visited@[k] == start || is_entity_handle(nodes, visited@[k]) by {
                if k < vis.len() {
                    assert(visited@[k] == vis[k]);
                } else {
                    assert(st[st.len() - 1] == current);
                }
            }
            lemma_handles_bounded(visited@, nodes, start);
        }
        if current != start {
            result.push(current);
            proof {
                assert(!vis.contains(current));
                assert forall|a: int, b: int| 0 <= a < b < result@.len() implies result@[a] != result@[b] by {
                    if b == result@.len() - 1 {
                        assert(vis.contains(res[a]));
                    }
                }
                assert(visited@[visited@.len() - 1] == current);
                assert forall|k: int| 0 <= k < result@.len() implies visited@.contains(#[trigger] result@[k]) by {
                    if k < res.len() {
                        assert(visited@.contains(res[k]));
                    }
                }
                if result@.contains(start) {
                    let k = choose|k: int| 0 <= k < result@.len() && result@[k] == start;
                    assert(k < res.len());
                    assert(res.contains(start));
                }
            }
        }
        let children = mg.query_children(current);
        let ghost base = stack@;
        let mut j: usize = 0;
        while j < children.len()
            invariant
                j <= children@.len(),
                children@ == kids(*mg, current),
                forall|k: int| 0 <= k < children@.len() ==> is_entity_handle(nodes, #[trigger] children@[k]),
                stack@ == base + children@.subrange(0, j as int),
                forall|k: int| 0 <= k < base.len() ==> #[trigger] base[k] == start || is_entity_handle(nodes, base[k]),
            decreases children@.len() - j,
        {
            stack.push(children[j]);
            j = j + 1;
            proof {
                assert(stack@ =~= base + children@.subrange(0, j as int));
            }
        }
        proof {
            assert(children@.subrange(0, children@.len() as int) =~= children@);
            assert forall|k: int| 0 <= k < stack@.len() implies #[trigger] stack@[k] == start || is_entity_handle(nodes, stack@[k]) by {
                if k >= base.len() {
                    assert(stack@[k] == children@[k - base.len()]);
                }
            }
            let here = if current != start { seq![current] } else { Seq::<EntityHandle>::empty() };
            assert(result@ =~= res + here);
            assert forall|m: nat| #[trigger] dfs_run(*mg, start, seq![start], Seq::empty(), (steps + 1) + m)
                == result@ + dfs_run(*mg, start, stack@, visited@, m) by {
                assert(dfs_run(*mg, start, seq![start], Seq::empty(), steps + (m + 1))
                    == res + dfs_run(*mg, start, st, vis, (m + 1) as nat));
                assert(dfs_run(*mg, start, st, vis, (m + 1) as nat) == here + dfs_run(*mg, start, stack@, visited@, m));
                assert(res + (here + dfs_run(*mg, start, stack@, visited@, m)) =~= result@ + dfs_run(*mg, start, stack@, visited@, m));
            }
            assert forall|m: nat| #[trigger] dfs_done(*mg, start, seq![start], Seq::empty(), (steps + 1) + m)
                == dfs_done(*mg, start, stack@, visited@, m) by {
                assert(dfs_done(*mg, start, seq![start], Seq::empty(), steps + (m + 1))
                    == dfs_done(*mg, start, st, vis, (m + 1) as nat));
            }
            steps = steps + 1;
        }
    }
    proof {
        let z: nat = 0;
        assert(dfs_run(*mg, start, seq![start], Seq::empty(), steps + z) == result@ + dfs_run(*mg, start, stack@, visited@, z));
        assert(result@ + dfs_run(*mg, start, stack@, visited@, z) =~= result@);
        assert(dfs_done(*mg, start, seq![start], Seq::empty(), steps + z) == dfs_done(*mg, start, stack@, visited@, z));
        assert(dfs_done(*mg, start, seq![start], Seq::empty(), steps) && result@ == dfs_run(*mg, start, seq![start], Seq::empty(), steps));
    }
    result
}

} // verus!
