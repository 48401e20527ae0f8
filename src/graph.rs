use vstd::prelude::*;
use crate::query::Query;

verus! {

/// Handle of a node, unique within its graph.
#[derive(Clone, Copy, Debug, PartialEq, Eq, Structural)]
pub struct NodeRef {
    pub id: usize,
}

/// Handle of an edge, unique within its graph.
#[derive(Clone, Copy, Debug, PartialEq, Eq, Structural)]
pub struct EdgeRef {
    pub id: usize,
}

/// What an edge does with the result of its parent node.
///
/// The edges into a node apply in creation order. The builders keep each
/// argument field of a node to one writer (`single_writer`); the one
/// exception is the trailing read of an upsert, fed by its create and its
/// update branch, of which exactly one runs (`single_writer_except`, and the
/// upsert law in `outcomes`).
#[derive(Clone, Copy, Debug, PartialEq, Eq, Structural)]
pub enum Dependency {
    /// Writes the parent's identifier into argument `field` of the child;
    /// a parent result without an identifier is a resolution error.
    ParentId { field: u64 },
    /// Writes the parent's identifier into argument `field` of the child;
    /// a parent result without an identifier skips the child.
    IdOrSkip { field: u64 },
    /// Skips the child when the parent located a record.
    SkipIfFound,
    /// Pure ordering: no data flows.
    Order,
}

/// A directed dependency from node `from` to node `to`.
#[derive(Clone, Copy, Debug, PartialEq, Eq, Structural)]
pub struct Edge {
    pub from: usize,
    pub to: usize,
    pub dep: Dependency,
}

/// Errors of graph construction.
#[derive(Clone, Copy, Debug, PartialEq, Eq, Structural)]
pub enum GraphError {
    /// The edge would close a cycle.
    CycleDetected,
}

/// A graph of pending queries with dependency edges and designated result nodes.
///
/// `ranks` is a ghost potential that strictly increases along every edge; it
/// witnesses that the edge relation is acyclic.
pub struct QueryGraph {
    pub nodes: Vec<Query>,
    pub edges: Vec<Edge>,
    pub result_nodes: Vec<usize>,
    pub ranks: Ghost<Seq<int>>,
}

pub open spec fn has_edge(edges: Seq<Edge>, a: usize, b: usize) -> bool {
    exists|k: int| 0 <= k < edges.len() && (#[trigger] edges[k]).from == a && edges[k].to == b
}

pub open spec fn path_step(edges: Seq<Edge>, p: Seq<usize>, i: int) -> bool {
    has_edge(edges, p[i], p[i + 1])
}

/// The argument field that an edge writes into its child, if any.
pub open spec fn written_field(d: Dependency) -> Option<u64> {
    match d {
        Dependency::ParentId { field } => Some(field),
        Dependency::IdOrSkip { field } => Some(field),
        _ => None,
    }
}

/// No two edges into one node write the same argument field.
pub open spec fn single_writer(edges: Seq<Edge>) -> bool {
    forall|k1: int, k2: int|
        0 <= k1 < edges.len() && 0 <= k2 < edges.len() && k1 != k2 && (#[trigger] edges[k1]).to == (#[trigger] edges[k2]).to
            && written_field(edges[k1].dep) is Some ==> written_field(edges[k1].dep) != written_field(edges[k2].dep)
}

/// No two edges into one node other than `v` write the same argument field.
pub open spec fn single_writer_except(edges: Seq<Edge>, v: usize) -> bool {
    forall|k1: int, k2: int|
        0 <= k1 < edges.len() && 0 <= k2 < edges.len() && k1 != k2 && (#[trigger] edges[k1]).to == (#[trigger] edges[k2]).to
            && edges[k1].to != v && written_field(edges[k1].dep) is Some ==> written_field(edges[k1].dep) != written_field(
            edges[k2].dep,
        )
}

/// Appending an edge that writes no field already written into its child
/// keeps every field to one writer.
pub proof fn lemma_single_writer_push(edges: Seq<Edge>, e: Edge)
    requires
        single_writer(edges),
        forall|k: int|
            0 <= k < edges.len() && (#[trigger] edges[k]).to == e.to && written_field(e.dep) is Some ==> written_field(edges[k].dep)
                != written_field(e.dep),
    ensures
        single_writer(edges.push(e)),
{
    let n = edges.push(e);
    assert forall|k1: int, k2: int|
        0 <= k1 < n.len() && 0 <= k2 < n.len() && k1 != k2 && (#[trigger] n[k1]).to == (#[trigger] n[k2]).to
            && written_field(n[k1].dep) is Some implies written_field(n[k1].dep) != written_field(n[k2].dep) by {
        if k1 < edges.len() && k2 < edges.len() {
            assert(n[k1] == edges[k1] && n[k2] == edges[k2]);
        } else if k1 < edges.len() {
            assert(n[k1] == edges[k1]);
        } else {
            assert(n[k2] == edges[k2]);
        }
    }
}

/// `p` is a non-empty walk along the edges.
pub open spec fn is_path(edges: Seq<Edge>, p: Seq<usize>) -> bool {
    &&& p.len() >= 1
    &&& forall|i: int| 0 <= i < p.len() - 1 ==> #[trigger] path_step(edges, p, i)
}

/// `b` can be reached from `a` by following zero or more edges.
pub open spec fn reachable(edges: Seq<Edge>, a: usize, b: usize) -> bool {
    exists|p: Seq<usize>| #[trigger] is_path(edges, p) && p[0] == a && p.last() == b
}

/// No walk of one or more edges returns to where it started.
pub open spec fn acyclic(edges: Seq<Edge>) -> bool {
    forall|p: Seq<usize>| #[trigger] is_path(edges, p) && p.len() >= 2 ==> p[0] != p.last()
}

pub open spec fn count_false(s: Seq<bool>) -> nat
    decreases s.len(),
{
    if s.len() == 0 {
        0
    } else {
        count_false(s.drop_last()) + if s.last() {
            0nat
        } else {
            1nat
        }
    }
}

pub proof fn lemma_count_false_set(s: Seq<bool>, i: int)
    requires
        0 <= i < s.len(),
        !s[i],
    ensures
        count_false(s.update(i, true)) + 1 == count_false(s),
    decreases s.len(),
{
    let t = s.update(i, true);
    if i == s.len() - 1 {
        assert(t.drop_last() =~= s.drop_last());
    } else {
        assert(t.drop_last() =~= s.drop_last().update(i, true));
        lemma_count_false_set(s.drop_last(), i);
    }
}

/// Following one more edge extends reachability.
pub proof fn lemma_reach_step(edges: Seq<Edge>, a: usize, k: int)
    requires
        0 <= k < edges.len(),
        reachable(edges, a, edges[k].from),
    ensures
        reachable(edges, a, edges[k].to),
{
    let p = choose|p: Seq<usize>| #[trigger] is_path(edges, p) && p[0] == a && p.last() == edges[k].from;
    let q = p.push(edges[k].to);
    assert forall|i: int| 0 <= i < q.len() - 1 implies #[trigger] path_step(edges, q, i) by {
        if i < p.len() - 1 {
            assert(path_step(edges, p, i));
        } else {
            assert(edges[k].from == q[i] && edges[k].to == q[i + 1]);
        }
    }
    assert(is_path(edges, q));
}

pub proof fn lemma_reach_self(edges: Seq<Edge>, a: usize)
    ensures
        reachable(edges, a, a),
{
    let p = seq![a];
    assert(is_path(edges, p));
}

/// A set of nodes that holds `a` and is closed under edges holds whatever `a` reaches.
pub proof fn lemma_closed_reach(edges: Seq<Edge>, mark: Seq<bool>, p: Seq<usize>, i: int)
    requires
        is_path(edges, p),
        0 <= i < p.len(),
        forall|v: int| 0 <= v < p.len() ==> p[v] < mark.len(),
        mark[p[0] as int],
        forall|k: int|
            0 <= k < edges.len() && edges[k].from < mark.len() && #[trigger] mark[edges[k].from as int]
                ==> edges[k].to < mark.len() && mark[edges[k].to as int],
    ensures
        mark[p[i] as int],
    decreases i,
{
    if i > 0 {
        lemma_closed_reach(edges, mark, p, i - 1);
        assert(path_step(edges, p, i - 1));
        let k = choose|k: int| 0 <= k < edges.len() && (#[trigger] edges[k]).from == p[i - 1] && edges[k].to == p[i];
        assert(mark[edges[k].from as int]);
    }
}

pub proof fn lemma_count_false_all_true(s: Seq<bool>)
    requires
        forall|i: int| 0 <= i < s.len() ==> s[i],
    ensures
        count_false(s) == 0,
    decreases s.len(),
{
    if s.len() > 0 {
        lemma_count_false_all_true(s.drop_last());
    }
}

pub proof fn lemma_count_false_all_false(s: Seq<bool>)
    requires
        forall|i: int| 0 <= i < s.len() ==> !s[i],
    ensures
        count_false(s) == s.len(),
    decreases s.len(),
{
    if s.len() > 0 {
        lemma_count_false_all_false(s.drop_last());
    }
}

/// `order` lists each of the `n` nodes exactly once, each after every node
/// that has an edge into it.
pub open spec fn is_topological(n: nat, edges: Seq<Edge>, order: Seq<usize>) -> bool {
    &&& order.len() == n
    &&& forall|i: int| 0 <= i < order.len() ==> #[trigger] order[i] < n
    &&& forall|i: int, j: int| 0 <= i < j < order.len() ==> order[i] != order[j]
    &&& forall|v: int| 0 <= v < n ==> #[trigger] order.contains(v as usize)
    &&& forall|k: int, j: int|
        0 <= k < edges.len() && 0 <= j < order.len() && #[trigger] order[j] == (#[trigger] edges[k]).to
            ==> exists|i: int| 0 <= i < j && order[i] == edges[k].from
}

/// Every parent of `u` is among `placed`.
pub open spec fn ready(edges: Seq<Edge>, placed: Seq<usize>, u: usize) -> bool {
    forall|k: int| 0 <= k < edges.len() && (#[trigger] edges[k]).to == u ==> placed.contains(edges[k].from)
}

/// Each entry of `order` is the least node that was ready when it was
/// placed: ties between ready nodes go to the earlier-inserted one.
pub open spec fn least_ready_first(edges: Seq<Edge>, order: Seq<usize>) -> bool {
    forall|j: int, u: int|
        0 <= j < order.len() && 0 <= u < order[j] && !(#[trigger] order.subrange(0, j).contains(u as usize))
            ==> !ready(edges, order.subrange(0, j), u as usize)
}

/// Among the unmarked indices below `bound`, one of least rank.
proof fn min_unmarked(mark: Seq<bool>, ranks: Seq<int>, bound: int) -> (w: int)
    requires
        0 <= bound <= mark.len(),
        mark.len() == ranks.len(),
        exists|v: int| 0 <= v < bound && !mark[v],
    ensures
        0 <= w < bound,
        !mark[w],
        forall|u: int| 0 <= u < bound && !mark[u] ==> ranks[w] <= ranks[u],
    decreases bound,
{
    let top = bound - 1;
    if exists|v: int| 0 <= v < top && !mark[v] {
        let w = min_unmarked(mark, ranks, top);
        if !mark[top] && ranks[top] < ranks[w] {
            top
        } else {
            w
        }
    } else {
        top
    }
}

/// Only `t` itself reaches a node `t` without incoming edges.
pub proof fn lemma_no_incoming(edges: Seq<Edge>, a: usize, t: usize)
    requires
        forall|k: int| 0 <= k < edges.len() ==> (#[trigger] edges[k]).to != t,
        reachable(edges, a, t),
    ensures
        a == t,
{
    let p = choose|p: Seq<usize>| #[trigger] is_path(edges, p) && p[0] == a && p.last() == t;
    if p.len() >= 2 {
        assert(path_step(edges, p, p.len() - 2));
    }
}

/// A node `t` without outgoing edges reaches only itself.
pub proof fn lemma_no_outgoing(edges: Seq<Edge>, t: usize, b: usize)
    requires
        forall|k: int| 0 <= k < edges.len() ==> (#[trigger] edges[k]).from != t,
        reachable(edges, t, b),
    ensures
        b == t,
{
    let p = choose|p: Seq<usize>| #[trigger] is_path(edges, p) && p[0] == t && p.last() == b;
    if p.len() >= 2 {
        assert(path_step(edges, p, 0));
    }
}

impl QueryGraph {
    /// Well-formedness: every edge and result node names an existing node and
    /// the ghost ranks strictly increase along every edge.
    pub open spec fn wf(&self) -> bool {
        &&& self.ranks@.len() == self.nodes.len()
        &&& forall|k: int|
            0 <= k < self.edges.len() ==> {
                let e = #[trigger] self.edges@[k];
                &&& e.from < self.nodes.len()
                &&& e.to < self.nodes.len()
                &&& self.ranks@[e.from as int] < self.ranks@[e.to as int]
            }
        &&& forall|i: int| 0 <= i < self.result_nodes.len() ==> #[trigger] self.result_nodes@[i] < self.nodes.len()
    }

    /// An empty graph.
    pub fn new() -> (g: QueryGraph)
        ensures
            g.wf(),
            g.nodes@.len() == 0,
            g.edges@.len() == 0,
            g.result_nodes@.len() == 0,
    {
        QueryGraph { nodes: Vec::new(), edges: Vec::new(), result_nodes: Vec::new(), ranks: Ghost(Seq::empty()) }
    }

    pub fn node_count(&self) -> (n: usize)
        ensures
            n == self.nodes.len(),
    {
        self.nodes.len()
    }

    pub fn edge_count(&self) -> (n: usize)
        ensures
            n == self.edges.len(),
    {
        self.edges.len()
    }

    /// Adds a node holding `q` and returns its handle.
    pub fn create_node(&mut self, q: Query) -> (r: NodeRef)
        requires
            old(self).wf(),
        ensures
            final(self).wf(),
            r.id == old(self).nodes.len(),
            final(self).nodes@ == old(self).nodes@.push(q),
            final(self).edges@ == old(self).edges@,
            final(self).result_nodes@ == old(self).result_nodes@,
    {
        let id = self.nodes.len();
        self.nodes.push(q);
        self.ranks = Ghost(self.ranks@.push(0));
        NodeRef { id }
    }

    /// Designates `n` as a result node, after those designated before.
    pub fn add_result_node(&mut self, n: NodeRef)
        requires
            old(self).wf(),
            n.id < old(self).nodes.len(),
        ensures
            final(self).wf(),
            final(self).nodes@ == old(self).nodes@,
            final(self).edges@ == old(self).edges@,
            final(self).result_nodes@ == old(self).result_nodes@.push(n.id),
    {
        self.result_nodes.push(n.id);
    }

    /// Marks every node reachable from `start`.
    fn descendants(&self, start: usize) -> (mark: Vec<bool>)
        requires
            self.wf(),
            start < self.nodes.len(),
        ensures
            mark@.len() == self.nodes.len(),
            mark@[start as int],
            forall|v: int| 0 <= v < mark@.len() && #[trigger] mark@[v] ==> reachable(self.edges@, start, v as usize),
            forall|k: int|
                0 <= k < self.edges.len() && #[trigger] mark@[self.edges@[k].from as int]
                    ==> mark@[self.edges@[k].to as int],
    {
        let n = self.nodes.len();
        let mut mark: Vec<bool> = Vec::new();
        let mut i: usize = 0;
        while i < n
            invariant
                i <= n,
                mark@.len() == i,
                forall|j: int| 0 <= j < i ==> !mark@[j],
            decreases n - i,
        {
            mark.push(false);
            i = i + 1;
        }
        mark.set(start, true);
        proof {
            lemma_reach_self(self.edges@, start);
        }
        loop
            invariant
                self.wf(),
                n == self.nodes.len(),
                start < n,
                mark@.len() == n,
                mark@[start as int],
                forall|v: int| 0 <= v < mark@.len() && #[trigger] mark@[v] ==> reachable(self.edges@, start, v as usize),
            ensures
                mark@.len() == n,
                mark@[start as int],
                forall|v: int| 0 <= v < mark@.len() && #[trigger] mark@[v] ==> reachable(self.edges@, start, v as usize),
                forall|k: int|
                    0 <= k < self.edges.len() && #[trigger] mark@[self.edges@[k].from as int]
                        ==> mark@[self.edges@[k].to as int],
            decreases count_false(mark@),
        {
            let ghost before = mark@;
            let mut changed = false;
            let mut k: usize = 0;
            while k < self.edges.len()
                invariant
                    self.wf(),
                    n == self.nodes.len(),
                    k <= self.edges.len(),
                    start < n,
                    mark@.len() == n,
                    mark@[start as int],
                    forall|v: int| 0 <= v < mark@.len() && #[trigger] mark@[v] ==> reachable(self.edges@, start, v as usize),
                    changed ==> count_false(mark@) < count_false(before),
                    !changed ==> mark@ == before,
                    !changed ==> forall|j: int|
                        0 <= j < k && #[trigger] mark@[self.edges@[j].from as int]
                            ==> mark@[self.edges@[j].to as int],
                decreases self.edges.len() - k,
            {
                let e = self.edges[k];
                assert(self.edges@[k as int] == e);
                if mark[e.from] && !mark[e.to] {
                    proof {
                        lemma_reach_step(self.edges@, start, k as int);
                        lemma_count_false_set(mark@, e.to as int);
                    }
                    mark.set(e.to, true);
                    changed = true;
                }
                k = k + 1;
            }
            if !changed {
                break;
            }
        }
        mark
    }

    /// Adds an edge from `from` to `to` carrying `dep`. Fails with
    /// `CycleDetected`, leaving the graph unchanged, exactly when `from` is
    /// reachable from `to`, i.e. when the edge would close a cycle.
    pub fn create_edge(&mut self, from: NodeRef, to: NodeRef, dep: Dependency) -> (r: Result<EdgeRef, GraphError>)
        requires
            old(self).wf(),
            from.id < old(self).nodes.len(),
            to.id < old(self).nodes.len(),
        ensures
            final(self).wf(),
            r is Err <==> reachable(old(self).edges@, to.id, from.id),
            r is Err ==> r == Err::<EdgeRef, GraphError>(GraphError::CycleDetected) && *final(self) == *old(self),
            r is Ok ==> r->Ok_0.id == old(self).edges.len(),
            r is Ok ==> final(self).edges@ == old(self).edges@.push(Edge { from: from.id, to: to.id, dep }),
            final(self).nodes@ == old(self).nodes@,
            final(self).result_nodes@ == old(self).result_nodes@,
    {
        let mark = self.descendants(to.id);
        if mark[from.id] {
            return Err(GraphError::CycleDetected);
        }
        proof {
            if reachable(self.edges@, to.id, from.id) {
                let p = choose|p: Seq<usize>| #[trigger] is_path(self.edges@, p) && p[0] == to.id && p.last() == from.id;
                assert forall|v: int| 0 <= v < p.len() implies p[v] < mark@.len() by {
                    if v > 0 {
                        assert(path_step(self.edges@, p, v - 1));
                    } else {
                    }
                }
                lemma_closed_reach(self.edges@, mark@, p, p.len() - 1);
            }
        }
        let ghost old_ranks = self.ranks@;
        let ghost delta: int = if old_ranks[from.id as int] >= old_ranks[to.id as int] {
            old_ranks[from.id as int] - old_ranks[to.id as int] + 1
        } else {
            0
        };
        let id = self.edges.len();
        self.edges.push(Edge { from: from.id, to: to.id, dep });
        self.ranks = Ghost(Seq::new(old_ranks.len(), |v: int| if mark@[v] { old_ranks[v] + delta } else { old_ranks[v] }));
        proof {
            assert forall|k: int| 0 <= k < self.edges.len() implies {
                let e = #[trigger] self.edges@[k];
                &&& e.from < self.nodes.len()
                &&& e.to < self.nodes.len()
                &&& self.ranks@[e.from as int] < self.ranks@[e.to as int]
            } by {
                if k < id {
                    assert(old(self).edges@[k] == self.edges@[k]);
                    if mark@[self.edges@[k].from as int] {
                        assert(mark@[old(self).edges@[k].to as int]);
                    }
                }
            }
        }
        Ok(EdgeRef { id })
    }

    /// Every walk of one or more edges ends at a node of higher rank than
    /// it started from.
    proof fn lemma_path_rank(&self, p: Seq<usize>, i: int)
        requires
            self.wf(),
            is_path(self.edges@, p),
            1 <= i < p.len(),
            p[0] < self.nodes.len(),
        ensures
            p[i] < self.nodes.len(),
            self.ranks@[p[0] as int] < self.ranks@[p[i] as int],
        decreases i,
    {
        assert(path_step(self.edges@, p, i - 1));
        let k = choose|k: int| 0 <= k < self.edges.len() && (#[trigger] self.edges@[k]).from == p[i - 1] && self.edges@[k].to == p[i];
        assert(self.edges@[k].from < self.nodes.len());
        if i > 1 {
            self.lemma_path_rank(p, i - 1);
        }
    }

    /// A well-formed graph has no cycle.
    pub proof fn lemma_wf_acyclic(&self)
        requires
            self.wf(),
        ensures
            acyclic(self.edges@),
    {
        assert forall|p: Seq<usize>| #[trigger] is_path(self.edges@, p) && p.len() >= 2 implies p[0] != p.last() by {
            assert(path_step(self.edges@, p, 0));
            let k = choose|k: int| 0 <= k < self.edges.len() && (#[trigger] self.edges@[k]).from == p[0] && self.edges@[k].to == p[1];
            assert(self.edges@[k].from < self.nodes.len());
            self.lemma_path_rank(p, p.len() - 1);
        }
    }

    /// Whether every node with an edge into `v` is already marked.
    fn is_ready(&self, emitted: &Vec<bool>, v: usize) -> (r: bool)
        requires
            self.wf(),
            emitted@.len() == self.nodes.len(),
            v < self.nodes.len(),
        ensures
            r == forall|k: int|
                0 <= k < self.edges.len() && (#[trigger] self.edges@[k]).to == v ==> emitted@[self.edges@[k].from as int],
    {
        let mut k: usize = 0;
        while k < self.edges.len()
            invariant
                self.wf(),
                emitted@.len() == self.nodes.len(),
                k <= self.edges.len(),
                forall|j: int| 0 <= j < k && (#[trigger] self.edges@[j]).to == v ==> emitted@[self.edges@[j].from as int],
            decreases self.edges.len() - k,
        {
            let e = self.edges[k];
            if e.to == v && !emitted[e.from] {
                return false;
            }
            k = k + 1;
        }
        true
    }

    /// The nodes in an order that puts each after all of its dependencies.
    /// At each step the ready node (all parents listed) with the smallest
    /// handle comes next, so the order is deterministic.
    pub fn nodes_topologically(&self) -> (order: Vec<NodeRef>)
        requires
            self.wf(),
        ensures
            is_topological(self.nodes@.len(), self.edges@, order@.map_values(|r: NodeRef| r.id)),
            least_ready_first(self.edges@, order@.map_values(|r: NodeRef| r.id)),
    {
        let ids = self.topological_ids();
        let mut order: Vec<NodeRef> = Vec::new();
        let mut i: usize = 0;
        while i < ids.len()
            invariant
                i <= ids.len(),
                order.len() == i,
                forall|j: int| 0 <= j < i ==> #[trigger] order@[j].id == ids@[j],
            decreases ids.len() - i,
        {
            order.push(NodeRef { id: ids[i] });
            i = i + 1;
        }
        assert(order@.map_values(|r: NodeRef| r.id) =~= ids@);
        order
    }

    /// `nodes_topologically`, as plain node indices.
    pub fn topological_ids(&self) -> (order: Vec<usize>)
        requires
            self.wf(),
        ensures
            is_topological(self.nodes@.len(), self.edges@, order@),
            least_ready_first(self.edges@, order@),
    {
        let n = self.nodes.len();
        let mut emitted: Vec<bool> = Vec::new();
        let mut i: usize = 0;
        while i < n
            invariant
                i <= n,
                emitted@.len() == i,
                forall|j: int| 0 <= j < i ==> !emitted@[j],
            decreases n - i,
        {
            emitted.push(false);
            i = i + 1;
        }
        proof {
            lemma_count_false_all_false(emitted@);
        }
        let mut order: Vec<usize> = Vec::new();
        loop
            invariant
                self.wf(),
                n == self.nodes.len(),
                emitted@.len() == n,
                count_false(emitted@) + order.len() == n,
                forall|i: int| 0 <= i < order.len() ==> #[trigger] order@[i] < n,
                forall|i: int, j: int| 0 <= i < j < order.len() ==> order@[i] != order@[j],
                forall|v: int| 0 <= v < n ==> (#[trigger] emitted@[v] <==> order@.contains(v as usize)),
                forall|k: int, j: int|
                    0 <= k < self.edges.len() && 0 <= j < order.len() && #[trigger] order@[j] == (#[trigger] self.edges@[k]).to
                        ==> exists|i: int| 0 <= i < j && order@[i] == self.edges@[k].from,
                least_ready_first(self.edges@, order@),
            ensures
                least_ready_first(self.edges@, order@),
                emitted@.len() == n,
                count_false(emitted@) + order.len() == n,
                forall|i: int| 0 <= i < order.len() ==> #[trigger] order@[i] < n,
                forall|i: int, j: int| 0 <= i < j < order.len() ==> order@[i] != order@[j],
                forall|v: int| 0 <= v < n ==> (#[trigger] emitted@[v] <==> order@.contains(v as usize)),
                forall|v: int| 0 <= v < n ==> #[trigger] emitted@[v],
                forall|k: int, j: int|
                    0 <= k < self.edges.len() && 0 <= j < order.len() && #[trigger] order@[j] == (#[trigger] self.edges@[k]).to
                        ==> exists|i: int| 0 <= i < j && order@[i] == self.edges@[k].from,
            decreases count_false(emitted@),
        {
            let mut v: usize = 0;
            let mut found = false;
            while v < n && !found
                invariant
                    self.wf(),
                    n == self.nodes.len(),
                    emitted@.len() == n,
                    v <= n,
                    found ==> v < n && !emitted@[v as int] && forall|k: int|
                        0 <= k < self.edges.len() && (#[trigger] self.edges@[k]).to == v ==> emitted@[self.edges@[k].from as int],
                    forall|u: int| 0 <= u < v ==> !(!emitted@[u] && forall|k: int|
                        0 <= k < self.edges.len() && (#[trigger] self.edges@[k]).to == u ==> emitted@[self.edges@[k].from as int]),
                decreases n - v + if found { 0int } else { 1int },
            {
                if !emitted[v] && self.is_ready(&emitted, v) {
                    found = true;
                } else {
                    v = v + 1;
                }
            }
            if !found {
                proof {
                    if exists|u: int| 0 <= u < n && !emitted@[u] {
                        let w = min_unmarked(emitted@, self.ranks@, n as int);
                        assert forall|k: int| 0 <= k < self.edges.len() && (#[trigger] self.edges@[k]).to == w implies emitted@[self.edges@[k].from as int] by {
                            let f = self.edges@[k].from as int;
                            if !emitted@[f] {
                                assert(self.ranks@[w] <= self.ranks@[f]);
                            }
                        }
                        assert(false);
                    }
                }
                break;
            }
            proof {
                lemma_count_false_set(emitted@, v as int);
            }
            let ghost prev = order@;
            let ghost was = emitted@;
            emitted.set(v, true);
            order.push(v);
            proof {
                assert forall|u: int| 0 <= u < n implies (#[trigger] emitted@[u] <==> order@.contains(u as usize)) by {
                    if u != v {
                        if prev.contains(u as usize) {
                            let i = choose|i: int| 0 <= i < prev.len() && prev[i] == u as usize;
                            assert(order@[i] == u);
                        }
                        if order@.contains(u as usize) {
                            let i = choose|i: int| 0 <= i < order.len() && order@[i] == u as usize;
                            assert(prev[i] == u);
                        }
                    } else {
                        assert(order@[order.len() - 1] == v);
                    }
                }
                assert forall|i: int, j: int| 0 <= i < j < order.len() implies order@[i] != order@[j] by {
                    if j == order.len() - 1 {
                        if order@[i] == order@[j] {
                            assert(prev.contains(v));
                        }
                    }
                }
                assert forall|j: int, u: int|
                    0 <= j < order.len() && 0 <= u < order@[j] && !(#[trigger] order@.subrange(0, j).contains(u as usize))
                        implies !ready(self.edges@, order@.subrange(0, j), u as usize) by {
                    assert(order@.subrange(0, j) =~= prev.subrange(0, j));
                    if j == prev.len() {
                        assert(prev.subrange(0, j) =~= prev);
                        assert(!was[u] || !(forall|k: int|
                            0 <= k < self.edges.len() && (#[trigger] self.edges@[k]).to == u ==> was[self.edges@[k].from as int]));
                        if was[u] {
                            assert(prev.contains(u as usize));
                        } else {
                            let k = choose|k: int| 0 <= k < self.edges.len() && (#[trigger] self.edges@[k]).to == u && !was[self.edges@[k].from as int];
                            let f = self.edges@[k].from as int;
                            assert(was[f] <==> prev.contains(f as usize));
                            assert(!prev.contains(self.edges@[k].from));
                        }
                    } else {
                        assert(order@[j] == prev[j]);
                    }
                }
                assert forall|k: int, j: int|
                    0 <= k < self.edges.len() && 0 <= j < order.len() && #[trigger] order@[j] == (#[trigger] self.edges@[k]).to
                        implies exists|i: int| 0 <= i < j && order@[i] == self.edges@[k].from by {
                    if j == order.len() - 1 {
                        let f = self.edges@[k].from;
                        assert(prev.contains(f));
                        let i = choose|i: int| 0 <= i < prev.len() && prev[i] == f;
                        assert(order@[i] == f);
                    } else {
                        let i = choose|i: int| 0 <= i < j && prev[i] == self.edges@[k].from;
                        assert(order@[i] == prev[i]);
                    }
                }
            }
        }
        proof {
            lemma_count_false_all_true(emitted@);
            assert forall|v: int| 0 <= v < n implies #[trigger] order@.contains(v as usize) by {
                assert(emitted@[v]);
            }
        }
        order
    }
}

} // verus!
