use vstd::prelude::*;
use crate::graph::{Dependency, Edge, QueryGraph, is_topological};
use crate::query::{Arg, NodeResult, Query, QueryKind, Reply, id_of, reply_id};

verus! {

/// A failure reported by the store for one primitive operation.
#[derive(Clone, Copy, Debug, PartialEq, Eq, Structural)]
pub struct StoreError {
    pub code: u64,
}

/// One call to the store: the query handed over and the answer.
pub type StoreCall = (Query, Result<Reply, StoreError>);

/// The storage-connector boundary: executes one concrete query inside the
/// transaction that the caller holds.
pub trait Store {
    /// Every call this store has answered, oldest first.
    spec fn log(&self) -> Seq<StoreCall>;

    /// Executes `query`; the call and its answer join the log.
    fn execute(&mut self, query: &Query) -> (r: Result<Reply, StoreError>)
        ensures
            final(self).log() == old(self).log().push((*query, r)),
    ;
}

/// The reply of a node that ran.
pub open spec fn reply_of(r: NodeResult) -> Reply {
    match r {
        NodeResult::Done(x) => x,
        NodeResult::NotPerformed => Reply::NotFound,
    }
}

/// `calls` are the store calls of the pass that `rep` reports, in order: one
/// per dispatched node, with that node's resolved query. An `Ok` answer is
/// that node's result; an `Err` answer is the last call and is the failure
/// of the pass, and a store failure of the pass is the last call's error.
pub open spec fn calls_match(rep: ExecutionReport, calls: Seq<StoreCall>) -> bool {
    &&& calls.len() == rep.dispatched.len()
    &&& forall|k: int| 0 <= k < calls.len() ==> (#[trigger] calls[k]).0 == rep.issued@[k]
    &&& forall|k: int|
        0 <= k < calls.len() && (#[trigger] calls[k]).1 is Ok ==> rep.results@[rep.dispatched@[k] as int]
            == NodeResult::Done(calls[k].1->Ok_0)
    &&& forall|k: int|
        0 <= k < calls.len() && (#[trigger] calls[k]).1 is Err ==> k == calls.len() - 1 && rep.failure == Some(
            ExecError {
                node: rep.dispatched@[k],
                kind: rep.issued@[k].kind,
                model: rep.issued@[k].model,
                cause: FailureCause::Store(calls[k].1->Err_0),
            },
        )
    &&& (rep.failure is Some && rep.failure->Some_0.cause is Store) ==> calls.len() > 0 && calls.last().1 == Err::<
        Reply,
        StoreError,
    >(rep.failure->Some_0.cause->Store_0)
}

/// What an incoming edge tells its child, given the parent's result.
#[derive(Clone, Copy, Debug, PartialEq, Eq, Structural)]
pub enum Signal {
    /// Append this argument to the child's query.
    Apply(Arg),
    /// Skip the child.
    Skip,
    /// No data; go on.
    Continue,
    /// The value the child needs does not exist.
    Missing,
    /// The parent did not run.
    Inactive,
}

/// Why an execution stopped.
#[derive(Clone, Copy, Debug, PartialEq, Eq, Structural)]
pub enum FailureCause {
    /// A required parent identifier was absent (e.g. connecting to a record
    /// that does not exist).
    MissingParentValue,
    /// The store rejected the operation.
    Store(StoreError),
}

/// A failed execution, with the operation kind and model of the node that failed.
#[derive(Clone, Copy, Debug, PartialEq, Eq, Structural)]
pub struct ExecError {
    pub node: usize,
    pub kind: QueryKind,
    pub model: u64,
    pub cause: FailureCause,
}

/// The full account of one pass over a graph.
pub struct ExecutionReport {
    /// The order in which nodes were visited.
    pub order: Vec<usize>,
    /// The result of each node, by node index.
    pub results: Vec<NodeResult>,
    /// How many nodes of `order` completed (were performed or skipped).
    pub completed: usize,
    /// The nodes handed to the store, in call order.
    pub dispatched: Vec<usize>,
    /// The queries handed to the store, in call order.
    pub issued: Vec<Query>,
    /// Why the pass stopped early, if it did; the transaction must then roll back.
    pub failure: Option<ExecError>,
}

pub open spec fn edge_signal(dep: Dependency, parent: NodeResult) -> Signal {
    match parent {
        NodeResult::NotPerformed => Signal::Inactive,
        NodeResult::Done(r) => match dep {
            Dependency::ParentId { field } => match reply_id(r) {
                Some(x) => Signal::Apply(Arg { field, value: x }),
                None => Signal::Missing,
            },
            Dependency::IdOrSkip { field } => match reply_id(r) {
                Some(x) => Signal::Apply(Arg { field, value: x }),
                None => Signal::Skip,
            },
            Dependency::SkipIfFound => match reply_id(r) {
                Some(x) => Signal::Skip,
                None => Signal::Continue,
            },
            Dependency::Order => Signal::Continue,
        },
    }
}

/// The signal that edge `e` carries under `results`.
pub open spec fn signal_at(e: Edge, results: Seq<NodeResult>) -> Signal {
    edge_signal(e.dep, results[e.from as int])
}

/// Some edge into `v` signals a skip.
pub open spec fn direct_skip(edges: Seq<Edge>, results: Seq<NodeResult>, v: usize) -> bool {
    exists|k: int| 0 <= k < edges.len() && (#[trigger] edges[k]).to == v && signal_at(edges[k], results) == Signal::Skip
}

pub open spec fn has_incoming(edges: Seq<Edge>, v: usize) -> bool {
    exists|k: int| 0 <= k < edges.len() && (#[trigger] edges[k]).to == v
}

/// Every parent of `v` was skipped.
pub open spec fn all_inactive(edges: Seq<Edge>, results: Seq<NodeResult>, v: usize) -> bool {
    forall|k: int| 0 <= k < edges.len() && (#[trigger] edges[k]).to == v ==> results[edges[k].from as int] == NodeResult::NotPerformed
}

/// `v` is skipped: an edge into it signals a skip, or it has parents and all
/// of them were skipped (it descends only from skipped nodes).
pub open spec fn skipped(edges: Seq<Edge>, results: Seq<NodeResult>, v: usize) -> bool {
    direct_skip(edges, results, v) || (has_incoming(edges, v) && all_inactive(edges, results, v))
}

/// An edge into `v` requires an identifier that its parent did not produce.
pub open spec fn missing_value(edges: Seq<Edge>, results: Seq<NodeResult>, v: usize) -> bool {
    exists|k: int| 0 <= k < edges.len() && (#[trigger] edges[k]).to == v && signal_at(edges[k], results) == Signal::Missing
}

/// The arguments that the edges into `v` supply, in edge creation order.
pub open spec fn applied_args(edges: Seq<Edge>, results: Seq<NodeResult>, v: usize) -> Seq<Arg>
    decreases edges.len(),
{
    if edges.len() == 0 {
        Seq::empty()
    } else {
        let prev = applied_args(edges.drop_last(), results, v);
        let e = edges.last();
        if e.to == v {
            match signal_at(e, results) {
                Signal::Apply(a) => prev.push(a),
                _ => prev,
            }
        } else {
            prev
        }
    }
}

/// `q` is node `v`'s query with the values of its incoming edges filled in.
pub open spec fn is_resolved(g: QueryGraph, results: Seq<NodeResult>, v: usize, q: Query) -> bool {
    &&& q.kind == g.nodes@[v as int].kind
    &&& q.model == g.nodes@[v as int].model
    &&& q.args@ == g.nodes@[v as int].args@ + applied_args(g.edges@, results, v)
}

/// Node `v` was handled as its incoming edges demand: skipped nodes did not
/// run; the others ran and produced a store reply.
pub open spec fn node_done(edges: Seq<Edge>, results: Seq<NodeResult>, v: usize) -> bool {
    if skipped(edges, results, v) {
        results[v as int] == NodeResult::NotPerformed
    } else {
        !missing_value(edges, results, v) && results[v as int] is Done
    }
}

/// The performed nodes of `s`, in order.
pub open spec fn performed(results: Seq<NodeResult>, s: Seq<usize>) -> Seq<usize>
    decreases s.len(),
{
    if s.len() == 0 {
        Seq::empty()
    } else {
        let prev = performed(results, s.drop_last());
        if results[s.last() as int] is Done {
            prev.push(s.last())
        } else {
            prev
        }
    }
}

/// `rep` is an account of running `g`: nodes were visited in a topological
/// order; each completed node was handled as `node_done` says; the pass
/// stopped at the first failure and nothing after it ran; the store received
/// exactly the performed nodes' resolved queries, in visiting order, plus the
/// query that it rejected, if any.
pub open spec fn is_execution(g: QueryGraph, rep: ExecutionReport) -> bool {
    let n = g.nodes.len();
    let order = rep.order@;
    let results = rep.results@;
    let c = rep.completed as int;
    &&& is_topological(g.nodes@.len(), g.edges@, order)
    &&& results.len() == n
    &&& 0 <= c <= n
    &&& forall|i: int| 0 <= i < c ==> #[trigger] node_done(g.edges@, results, order[i])
    &&& forall|i: int| c <= i < n ==> results[#[trigger] order[i] as int] == NodeResult::NotPerformed
    &&& match rep.failure {
        None => {
            &&& c == n
            &&& rep.dispatched@ == performed(results, order)
        },
        Some(e) => {
            &&& c < n
            &&& e.node == order[c]
            &&& e.kind == g.nodes@[e.node as int].kind
            &&& e.model == g.nodes@[e.node as int].model
            &&& !skipped(g.edges@, results, e.node)
            &&& (e.cause is MissingParentValue <==> missing_value(g.edges@, results, e.node))
            &&& rep.dispatched@ == if e.cause is Store {
                performed(results, order.subrange(0, c)).push(e.node)
            } else {
                performed(results, order.subrange(0, c))
            }
        },
    }
    &&& rep.issued.len() == rep.dispatched.len()
    &&& forall|k: int| 0 <= k < rep.issued.len() ==> is_resolved(g, results, rep.dispatched@[k], #[trigger] rep.issued@[k])
}

pub fn signal_of(dep: Dependency, parent: NodeResult) -> (s: Signal)
    ensures
        s == edge_signal(dep, parent),
{
    match parent {
        NodeResult::NotPerformed => Signal::Inactive,
        NodeResult::Done(r) => {
            let id = id_of(&r);
            match dep {
                Dependency::ParentId { field } => match id {
                    Some(x) => Signal::Apply(Arg { field, value: x }),
                    None => Signal::Missing,
                },
                Dependency::IdOrSkip { field } => match id {
                    Some(x) => Signal::Apply(Arg { field, value: x }),
                    None => Signal::Skip,
                },
                Dependency::SkipIfFound => match id {
                    Some(_) => Signal::Skip,
                    None => Signal::Continue,
                },
                Dependency::Order => Signal::Continue,
            }
        },
    }
}

/// What the edges into one node say, gathered in one pass.
pub struct Incoming {
    pub direct_skip: bool,
    pub has_incoming: bool,
    pub all_inactive: bool,
    pub missing: bool,
    pub args: Vec<Arg>,
}

/// Evaluates every edge into `v` against `results`.
pub fn gather_incoming(g: &QueryGraph, results: &Vec<NodeResult>, v: usize) -> (r: Incoming)
    requires
        g.wf(),
        results@.len() == g.nodes.len(),
    ensures
        r.direct_skip == direct_skip(g.edges@, results@, v),
        r.has_incoming == has_incoming(g.edges@, v),
        r.all_inactive == all_inactive(g.edges@, results@, v),
        r.missing == missing_value(g.edges@, results@, v),
        r.args@ == applied_args(g.edges@, results@, v),
{
    let mut r = Incoming { direct_skip: false, has_incoming: false, all_inactive: true, missing: false, args: Vec::new() };
    let mut k: usize = 0;
    let ghost edges = g.edges@;
    while k < g.edges.len()
        invariant
            g.wf(),
            edges == g.edges@,
            results@.len() == g.nodes.len(),
            k <= edges.len(),
            r.direct_skip == exists|j: int| 0 <= j < k && (#[trigger] edges[j]).to == v && signal_at(edges[j], results@) == Signal::Skip,
            r.has_incoming == exists|j: int| 0 <= j < k && (#[trigger] edges[j]).to == v,
            r.all_inactive == forall|j: int| 0 <= j < k && (#[trigger] edges[j]).to == v ==> results@[edges[j].from as int] == NodeResult::NotPerformed,
            r.missing == exists|j: int| 0 <= j < k && (#[trigger] edges[j]).to == v && signal_at(edges[j], results@) == Signal::Missing,
            r.args@ == applied_args(edges.subrange(0, k as int), results@, v),
        decreases edges.len() - k,
    {
        let e = g.edges[k];
        assert(edges.subrange(0, k + 1).drop_last() =~= edges.subrange(0, k as int));
        assert(edges.subrange(0, k + 1).last() == e);
        if e.to == v {
            let s = signal_of(e.dep, results[e.from]);
            r.has_incoming = true;
            match s {
                Signal::Skip => {
                    r.direct_skip = true;
                },
                Signal::Missing => {
                    r.missing = true;
                },
                Signal::Apply(a) => {
                    r.args.push(a);
                },
                _ => {},
            }
            if s != Signal::Inactive {
                r.all_inactive = false;
            }
        }
        k = k + 1;
    }
    assert(edges.subrange(0, edges.len() as int) =~= edges);
    r
}


/// Results that agree on the parents of `v` give `v` the same signals.
pub proof fn lemma_incoming_congruent(edges: Seq<Edge>, r1: Seq<NodeResult>, r2: Seq<NodeResult>, v: usize)
    requires
        forall|k: int|
            0 <= k < edges.len() && (#[trigger] edges[k]).to == v ==> r1[edges[k].from as int] == r2[edges[k].from as int],
    ensures
        direct_skip(edges, r1, v) == direct_skip(edges, r2, v),
        all_inactive(edges, r1, v) == all_inactive(edges, r2, v),
        skipped(edges, r1, v) == skipped(edges, r2, v),
        missing_value(edges, r1, v) == missing_value(edges, r2, v),
        applied_args(edges, r1, v) == applied_args(edges, r2, v),
    decreases edges.len(),
{
    if edges.len() > 0 {
        let d = edges.drop_last();
        assert forall|k: int| 0 <= k < d.len() && (#[trigger] d[k]).to == v implies r1[d[k].from as int] == r2[d[k].from as int] by {
            assert(d[k] == edges[k]);
        }
        lemma_incoming_congruent(d, r1, r2, v);
        assert(edges.last() == edges[edges.len() - 1]);
    }
}

/// Results that agree on the nodes of `s` perform the same nodes of `s`.
pub proof fn lemma_performed_congruent(r1: Seq<NodeResult>, r2: Seq<NodeResult>, s: Seq<usize>)
    requires
        forall|j: int| 0 <= j < s.len() ==> r1[#[trigger] s[j] as int] == r2[s[j] as int],
    ensures
        performed(r1, s) == performed(r2, s),
    decreases s.len(),
{
    if s.len() > 0 {
        let d = s.drop_last();
        assert forall|j: int| 0 <= j < d.len() implies r1[#[trigger] d[j] as int] == r2[d[j] as int] by {
            assert(d[j] == s[j]);
        }
        lemma_performed_congruent(r1, r2, d);
        assert(s.last() == s[s.len() - 1]);
    }
}

/// Every performed node of `s` is a node of `s`.
pub proof fn lemma_performed_in(results: Seq<NodeResult>, s: Seq<usize>)
    ensures
        forall|k: int| 0 <= k < performed(results, s).len() ==> s.contains(#[trigger] performed(results, s)[k]),
    decreases s.len(),
{
    if s.len() > 0 {
        let d = s.drop_last();
        lemma_performed_in(results, d);
        let p = performed(results, s);
        let pd = performed(results, d);
        assert forall|k: int| 0 <= k < p.len() implies s.contains(#[trigger] p[k]) by {
            if k < pd.len() {
                assert(p[k] == pd[k]);
                let j = choose|j: int| 0 <= j < d.len() && d[j] == pd[k];
                assert(s[j] == d[j]);
            } else {
                assert(s[s.len() - 1] == p[k]);
            }
        }
    }
}

/// Node `v`'s query with `args` appended.
fn resolve(g: &QueryGraph, v: usize, args: &Vec<Arg>) -> (q: Query)
    requires
        v < g.nodes.len(),
    ensures
        q.kind == g.nodes@[v as int].kind,
        q.model == g.nodes@[v as int].model,
        q.args@ == g.nodes@[v as int].args@ + args@,
{
    let mut q = g.nodes[v].duplicate();
    let ghost base = q.args@;
    let mut i: usize = 0;
    while i < args.len()
        invariant
            i <= args.len(),
            q.kind == g.nodes@[v as int].kind,
            q.model == g.nodes@[v as int].model,
            base == g.nodes@[v as int].args@,
            q.args@ == base + args@.subrange(0, i as int),
        decreases args.len() - i,
    {
        q.args.push(args[i]);
        i = i + 1;
        assert(q.args@ =~= base + args@.subrange(0, i as int));
    }
    assert(args@.subrange(0, args.len() as int) =~= args@);
    q
}

/// Calls that all succeeded, each the reply of its dispatched node, match a
/// report that did not stop on a store error.
proof fn lemma_calls_all_ok(rep: ExecutionReport, calls: Seq<StoreCall>)
    requires
        calls.len() == rep.dispatched.len(),
        rep.issued.len() == rep.dispatched.len(),
        forall|k: int| 0 <= k < calls.len() ==> #[trigger] calls[k] == (
            rep.issued@[k],
            Ok::<Reply, StoreError>(reply_of(rep.results@[rep.dispatched@[k] as int])),
        ),
        forall|k: int| 0 <= k < rep.dispatched.len() ==> rep.results@[#[trigger] rep.dispatched@[k] as int] is Done,
        rep.failure matches Some(e) ==> e.cause is MissingParentValue,
    ensures
        calls_match(rep, calls),
{
    assert forall|k: int| 0 <= k < calls.len() && (#[trigger] calls[k]).1 is Ok implies rep.results@[rep.dispatched@[k] as int]
        == NodeResult::Done(calls[k].1->Ok_0) by {
        assert(rep.results@[rep.dispatched@[k] as int] is Done);
    }
}

/// Runs every node of `g` in topological order against `store`, inside the
/// transaction that the store holds. Skipped nodes make no store call; the
/// first failing node stops the pass, and the report says why.
pub fn execute_graph<S: Store>(g: &QueryGraph, store: &mut S) -> (rep: ExecutionReport)
    requires
        g.wf(),
    ensures
        is_execution(*g, rep),
        final(store).log().len() >= old(store).log().len(),
        final(store).log().subrange(0, old(store).log().len() as int) == old(store).log(),
        calls_match(rep, final(store).log().subrange(old(store).log().len() as int, final(store).log().len() as int)),
{
    let ghost log0 = store.log();
    let ghost l0 = log0.len() as int;
    let order = g.topological_ids();
    let n = g.nodes.len();
    let ghost edges = g.edges@;
    let mut results: Vec<NodeResult> = Vec::new();
    let mut i: usize = 0;
    while i < n
        invariant
            i <= n,
            results@.len() == i,
            forall|j: int| 0 <= j < i ==> results@[j] == NodeResult::NotPerformed,
        decreases n - i,
    {
        results.push(NodeResult::NotPerformed);
        i = i + 1;
    }
    let mut dispatched: Vec<usize> = Vec::new();
    let mut issued: Vec<Query> = Vec::new();
    i = 0;
    assert(order@.subrange(0, 0) =~= Seq::<usize>::empty());
    while i < n
        invariant
            g.wf(),
            edges == g.edges@,
            n == g.nodes.len(),
            is_topological(g.nodes@.len(), edges, order@),
            results@.len() == n,
            i <= n,
            forall|j: int| 0 <= j < i ==> #[trigger] node_done(edges, results@, order@[j]),
            forall|j: int| i <= j < n ==> results@[#[trigger] order@[j] as int] == NodeResult::NotPerformed,
            dispatched@ == performed(results@, order@.subrange(0, i as int)),
            issued.len() == dispatched.len(),
            forall|k: int| 0 <= k < issued.len() ==> is_resolved(*g, results@, dispatched@[k], #[trigger] issued@[k]),
            l0 == log0.len(),
            log0 == old(store).log(),
            store.log().len() == l0 + dispatched.len(),
            store.log().subrange(0, l0) == log0,
            forall|k: int| 0 <= k < dispatched.len() ==> #[trigger] store.log()[l0 + k] == (
                issued@[k],
                Ok::<Reply, StoreError>(reply_of(results@[dispatched@[k] as int])),
            ),
            forall|k: int| 0 <= k < dispatched.len() ==> results@[#[trigger] dispatched@[k] as int] is Done,
        decreases n - i,
    {
        let v = order[i];
        let ghost log_before = store.log();
        let inc = gather_incoming(g, &results, v);
        let ghost before = results@;
        let ghost prefix = order@.subrange(0, i as int);
        assert(order@.subrange(0, i + 1).drop_last() =~= prefix);
        assert(order@.subrange(0, i + 1).last() == v);
        if inc.direct_skip || (inc.has_incoming && inc.all_inactive) {
            assert(node_done(edges, results@, order@[i as int]));
        } else if inc.missing {
            let e = ExecError { node: v, kind: g.nodes[v].kind, model: g.nodes[v].model, cause: FailureCause::MissingParentValue };
            let rep = ExecutionReport { order, results, completed: i, dispatched, issued, failure: Some(e) };
            proof {
                let calls = store.log().subrange(l0, store.log().len() as int);
                assert forall|k: int| 0 <= k < calls.len() implies #[trigger] calls[k] == (
                    rep.issued@[k],
                    Ok::<Reply, StoreError>(reply_of(rep.results@[rep.dispatched@[k] as int])),
                ) by {
                    assert(calls[k] == store.log()[l0 + k]);
                }
                assert(store.log().subrange(0, l0) == log0);
                lemma_calls_all_ok(rep, calls);
            }
            return rep;
        } else {
            let q = resolve(g, v, &inc.args);
            match store.execute(&q) {
                Ok(reply) => {
                    results.set(v, NodeResult::Done(reply));
                    proof {
                        let after = results@;
                        // No node visited so far, nor `v` itself, has `v` as a parent.
                        assert forall|j: int, k: int|
                            0 <= j <= i && 0 <= k < edges.len() && (#[trigger] edges[k]).to == #[trigger] order@[j]
                                implies before[edges[k].from as int] == after[edges[k].from as int] by {
                            assert(order@[j] == edges[k].to);
                            let m = choose|m: int| 0 <= m < j && order@[m] == edges[k].from;
                            assert(order@[m] != order@[i as int]);
                        }
                        assert forall|j: int| 0 <= j <= i implies #[trigger] node_done(edges, after, order@[j]) by {
                            lemma_incoming_congruent(edges, before, after, order@[j]);
                            if j < i {
                                assert(order@[j] != order@[i as int]);
                                assert(node_done(edges, before, order@[j]));
                            } else {
                                assert(order@[j] == v);
                                assert(!skipped(edges, before, v));
                                assert(!missing_value(edges, before, v));
                                assert(after[v as int] is Done);
                            }
                        }
                        assert forall|j: int| 0 <= j < prefix.len() implies before[#[trigger] prefix[j] as int] == after[prefix[j] as int] by {
                            assert(order@[j] != order@[i as int]);
                        }
                        lemma_performed_congruent(before, after, prefix);
                        lemma_performed_in(before, prefix);
                        assert forall|k: int| 0 <= k < issued.len() implies is_resolved(*g, after, dispatched@[k], #[trigger] issued@[k]) by {
                            assert(prefix.contains(performed(before, prefix)[k]));
                            let j = choose|j: int| 0 <= j < prefix.len() && prefix[j] == dispatched@[k];
                            lemma_incoming_congruent(edges, before, after, order@[j]);
                        }
                        assert forall|k: int| 0 <= k < dispatched.len() implies after[#[trigger] dispatched@[k] as int]
                            == before[dispatched@[k] as int] by {
                            assert(prefix.contains(performed(before, prefix)[k]));
                            let j = choose|j: int| 0 <= j < prefix.len() && prefix[j] == dispatched@[k];
                            assert(order@[j] != order@[i as int]);
                        }
                        lemma_incoming_congruent(edges, before, after, v);
                        assert forall|j: int| i + 1 <= j < n implies after[#[trigger] order@[j] as int] == NodeResult::NotPerformed by {
                            assert(order@[j] != order@[i as int]);
                        }
                    }
                    let ghost old_dispatched = dispatched@;
                    let ghost old_issued = issued@;
                    dispatched.push(v);
                    issued.push(q);
                    proof {
                        assert forall|k: int| 0 <= k < dispatched.len() implies #[trigger] store.log()[l0 + k] == (
                            issued@[k],
                            Ok::<Reply, StoreError>(reply_of(results@[dispatched@[k] as int])),
                        ) by {
                            if k < old_dispatched.len() {
                                assert(store.log()[l0 + k] == log_before[l0 + k]);
                                assert(old_dispatched[k] == dispatched@[k]);
                            }
                        }
                        assert(store.log().subrange(0, l0) =~= log_before.subrange(0, l0));
                    }
                },
                Err(err) => {
                    let ghost old_dispatched = dispatched@;
                    dispatched.push(v);
                    issued.push(q);
                    let e = ExecError { node: v, kind: g.nodes[v].kind, model: g.nodes[v].model, cause: FailureCause::Store(err) };
                    let rep = ExecutionReport { order, results, completed: i, dispatched, issued, failure: Some(e) };
                    proof {
                        let calls = store.log().subrange(l0, store.log().len() as int);
                        let last = old_dispatched.len() as int;
                        assert(calls[last] == (q, Err::<Reply, StoreError>(err)));
                        assert forall|k: int| 0 <= k < calls.len() && (#[trigger] calls[k]).1 is Ok implies rep.results@[rep.dispatched@[k] as int]
                            == NodeResult::Done(calls[k].1->Ok_0) by {
                            assert(calls[k] == store.log()[l0 + k]);
                            assert(store.log()[l0 + k] == log_before[l0 + k]);
                            assert(old_dispatched[k] == rep.dispatched@[k]);
                        }
                        assert forall|k: int| 0 <= k < calls.len() implies (#[trigger] calls[k]).0 == rep.issued@[k] by {
                            if k < last {
                                assert(calls[k] == log_before[l0 + k]);
                            }
                        }
                        assert forall|k: int| 0 <= k < calls.len() && (#[trigger] calls[k]).1 is Err implies k == calls.len() - 1 by {
                            if k < last {
                                assert(calls[k] == log_before[l0 + k]);
                            }
                        }
                        assert(store.log().subrange(0, l0) =~= log_before.subrange(0, l0));
                    }
                    return rep;
                },
            }
        }
        i = i + 1;
    }
    assert(order@.subrange(0, n as int) =~= order@);
    let rep = ExecutionReport { order, results, completed: n, dispatched, issued, failure: None };
    proof {
        let calls = store.log().subrange(l0, store.log().len() as int);
        assert forall|k: int| 0 <= k < calls.len() implies #[trigger] calls[k] == (
            rep.issued@[k],
            Ok::<Reply, StoreError>(reply_of(rep.results@[rep.dispatched@[k] as int])),
        ) by {
            assert(calls[k] == store.log()[l0 + k]);
        }
        lemma_calls_all_ok(rep, calls);
    }
    rep
}


/// Every performed node of `s` has a store reply.
pub proof fn lemma_performed_done(results: Seq<NodeResult>, s: Seq<usize>)
    ensures
        forall|k: int| 0 <= k < performed(results, s).len() ==> results[#[trigger] performed(results, s)[k] as int] is Done,
    decreases s.len(),
{
    if s.len() > 0 {
        lemma_performed_done(results, s.drop_last());
        let p = performed(results, s);
        let pd = performed(results, s.drop_last());
        assert forall|k: int| 0 <= k < p.len() implies results[#[trigger] p[k] as int] is Done by {
            if k < pd.len() {
                assert(p[k] == pd[k]);
            }
        }
    }
}

/// A skipped node never reaches the store (no store call is made for it)
/// and reports `NotPerformed`. This
/// covers a node with an incoming edge that signals a skip (the inactive
/// branch of an upsert) and every node whose parents were all skipped (its
/// exclusive descendants), while a node that still has a performed parent
/// through a non-skipping edge is not skipped.
pub proof fn lemma_skipped_not_dispatched(g: QueryGraph, rep: ExecutionReport, calls: Seq<StoreCall>, w: usize)
    requires
        g.wf(),
        is_execution(g, rep),
        calls_match(rep, calls),
        w < g.nodes.len(),
        skipped(g.edges@, rep.results@, w),
    ensures
        rep.results@[w as int] == NodeResult::NotPerformed,
        !rep.dispatched@.contains(w),
        calls.len() == rep.dispatched.len(),
        forall|k: int| 0 <= k < calls.len() ==> #[trigger] rep.dispatched@[k] != w,
{
    let order = rep.order@;
    let results = rep.results@;
    let c = rep.completed as int;
    let wi: int = w as int;
    assert(order.contains(wi as usize));
    let i = choose|i: int| 0 <= i < order.len() && order[i] == w;
    if i < c {
        assert(node_done(g.edges@, results, order[i]));
    } else {
        assert(results[order[i] as int] == NodeResult::NotPerformed);
    }
    let pre = order.subrange(0, c);
    lemma_performed_done(results, pre);
    lemma_performed_done(results, order);
    if rep.dispatched@.contains(w) {
        let k = choose|k: int| 0 <= k < rep.dispatched@.len() && rep.dispatched@[k] == w;
        match rep.failure {
            None => {},
            Some(e) => {
                if k < performed(results, pre).len() {
                } else {
                    assert(w == e.node);
                }
            },
        }
    }
}

/// A failed pass stops at the failing node: no node after it in the
/// visiting order ran or reached the store, the store saw one call per
/// dispatched node, and a store failure is the last call it saw, answered
/// with the error that the failure carries.
pub proof fn lemma_failure_halts(g: QueryGraph, rep: ExecutionReport, calls: Seq<StoreCall>)
    requires
        g.wf(),
        is_execution(g, rep),
        calls_match(rep, calls),
        rep.failure is Some,
    ensures
        calls.len() == rep.dispatched.len(),
        rep.failure->Some_0.cause is Store ==> calls.last() == (rep.issued@.last(), Err::<Reply, StoreError>(
            rep.failure->Some_0.cause->Store_0,
        )) && rep.dispatched@.last() == rep.failure->Some_0.node,
        forall|i: int|
            rep.completed < i < g.nodes.len() ==> rep.results@[#[trigger] rep.order@[i] as int] == NodeResult::NotPerformed
                && !rep.dispatched@.contains(rep.order@[i]),
        rep.failure->Some_0.cause is Store ==> rep.dispatched@.last() == rep.failure->Some_0.node,
{
    let order = rep.order@;
    let results = rep.results@;
    let c = rep.completed as int;
    let pre = order.subrange(0, c);
    let e = rep.failure->Some_0;
    lemma_performed_in(results, pre);
    assert forall|i: int| c < i < g.nodes.len() implies rep.results@[#[trigger] order[i] as int] == NodeResult::NotPerformed
        && !rep.dispatched@.contains(order[i]) by {
        if rep.dispatched@.contains(order[i]) {
            let k = choose|k: int| 0 <= k < rep.dispatched@.len() && rep.dispatched@[k] == order[i];
            if k < performed(results, pre).len() {
                assert(pre.contains(performed(results, pre)[k]));
                let j = choose|j: int| 0 <= j < pre.len() && pre[j] == order[i];
                assert(order[j] == order[i]);
            } else {
                assert(order[c] == order[i]);
            }
        }
    }
}

/// A node of `s` with a store reply is among the performed nodes of `s`.
pub proof fn lemma_performed_has(results: Seq<NodeResult>, s: Seq<usize>, i: int)
    requires
        0 <= i < s.len(),
        results[s[i] as int] is Done,
    ensures
        performed(results, s).contains(s[i]),
    decreases s.len(),
{
    let d = s.drop_last();
    if i < s.len() - 1 {
        assert(d[i] == s[i]);
        lemma_performed_has(results, d, i);
        let k = choose|k: int| 0 <= k < performed(results, d).len() && performed(results, d)[k] == d[i];
        assert(performed(results, s)[k] == s[i]);
    } else {
        assert(s.last() == s[i]);
        assert(performed(results, s).last() == s[i]);
    }
}

/// A pass fails only when the store does: where the store answers every
/// call with `Ok`, and with an identifier wherever an identifier-carrying
/// edge leaves the called node, the pass completes without failure.
pub proof fn lemma_no_failure(g: QueryGraph, rep: ExecutionReport, calls: Seq<StoreCall>)
    requires
        g.wf(),
        is_execution(g, rep),
        calls_match(rep, calls),
        forall|k: int| 0 <= k < calls.len() ==> (#[trigger] calls[k]).1 is Ok,
        forall|k: int, j: int|
            0 <= k < calls.len() && 0 <= j < g.edges.len() && (#[trigger] g.edges@[j]).from == #[trigger] rep.dispatched@[k]
                && g.edges@[j].dep is ParentId ==> reply_id(calls[k].1->Ok_0) is Some,
    ensures
        rep.failure is None,
{
    if rep.failure is Some {
        let e = rep.failure->Some_0;
        if e.cause is Store {
            assert(calls[calls.len() - 1].1 is Ok);
        } else {
            let edges = g.edges@;
            let results = rep.results@;
            let j = choose|j: int| 0 <= j < edges.len() && (#[trigger] edges[j]).to == e.node && signal_at(edges[j], results) == Signal::Missing;
            let p = edges[j].from;
            let order = rep.order@;
            let c = rep.completed as int;
            assert(results[p as int] is Done);
            assert(order.contains(p));
            let i = choose|i: int| 0 <= i < order.len() && order[i] == p;
            if i >= c {
                assert(results[order[i] as int] == NodeResult::NotPerformed);
            }
            let pre = order.subrange(0, c);
            assert(pre[i] == p);
            lemma_performed_has(results, pre, i);
            let k = choose|k: int| 0 <= k < performed(results, pre).len() && performed(results, pre)[k] == p;
            assert(rep.dispatched@[k] == p);
            assert(calls[k].1 is Ok);
            assert(results[p as int] == NodeResult::Done(calls[k].1->Ok_0));
        }
    }
}

/// Runs `g` against `store` and returns the results of its result nodes, in
/// the order they were designated. On `Err` the pass stopped at the failure
/// and the caller must roll the transaction back.
pub fn execute<S: Store>(g: &QueryGraph, store: &mut S) -> (r: Result<Vec<NodeResult>, ExecError>)
    requires
        g.wf(),
    ensures
        final(store).log().len() >= old(store).log().len(),
        final(store).log().subrange(0, old(store).log().len() as int) == old(store).log(),
        exists|rep: ExecutionReport|
            is_execution(*g, rep) && calls_match(
                rep,
                final(store).log().subrange(old(store).log().len() as int, final(store).log().len() as int),
            ) && match r {
                Ok(out) => rep.failure is None && out@ == g.result_nodes@.map_values(|x: usize| rep.results@[x as int]),
                Err(e) => rep.failure == Some(e),
            },
{
    let rep = execute_graph(g, store);
    let ghost snapshot = rep;
    match rep.failure {
        Some(e) => Err(e),
        None => {
            let mut out: Vec<NodeResult> = Vec::new();
            let mut i: usize = 0;
            while i < g.result_nodes.len()
                invariant
                    g.wf(),
                    snapshot == rep,
                    rep.results@.len() == g.nodes.len(),
                    i <= g.result_nodes.len(),
                    out@.len() == i,
                    forall|j: int| 0 <= j < i ==> #[trigger] out@[j] == rep.results@[g.result_nodes@[j] as int],
                decreases g.result_nodes.len() - i,
            {
                out.push(rep.results[g.result_nodes[i]]);
                i = i + 1;
            }
            assert(out@ =~= g.result_nodes@.map_values(|x: usize| rep.results@[x as int]));
            assert(is_execution(*g, snapshot));
            Ok(out)
        },
    }
}

} // verus!
