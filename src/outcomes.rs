use vstd::prelude::*;
use crate::builders::{
    ChildShape, CreateData, NestedCreate, child_edge, children, create_shape, gate_edge, is_read, relation_children,
    upsert_shape,
};
use crate::executor::{
    lemma_no_failure, lemma_skipped_not_dispatched, ExecutionReport, StoreCall, calls_match, Signal, all_inactive, applied_args, direct_skip, has_incoming, is_execution,
    missing_value, node_done, performed, signal_at, skipped,
};
use crate::graph::{Dependency, Edge, QueryGraph};
use crate::query::{Arg, ID_FIELD, NodeResult, QueryKind, reply_id};

verus! {

/// No edge of `edges` can signal a skip.
pub open spec fn no_skip_edges(edges: Seq<Edge>) -> bool {
    forall|k: int| 0 <= k < edges.len() ==> (#[trigger] edges[k]).dep is ParentId || edges[k].dep is Order
}

/// After a pass without failure every node was handled as its edges demand.
pub proof fn lemma_all_done(g: QueryGraph, rep: ExecutionReport)
    requires
        g.wf(),
        is_execution(g, rep),
        rep.failure is None,
    ensures
        forall|v: int| 0 <= v < g.nodes.len() ==> #[trigger] node_done(g.edges@, rep.results@, v as usize),
{
    assert forall|v: int| 0 <= v < g.nodes.len() implies #[trigger] node_done(g.edges@, rep.results@, v as usize) by {
        assert(rep.order@.contains(v as usize));
        let i = choose|i: int| 0 <= i < rep.order@.len() && rep.order@[i] == v as usize;
        assert(node_done(g.edges@, rep.results@, rep.order@[i]));
    }
}

/// Where every node of `s` has a store reply, all of `s` was performed.
pub proof fn lemma_performed_all(results: Seq<NodeResult>, s: Seq<usize>)
    requires
        forall|j: int| 0 <= j < s.len() ==> results[#[trigger] s[j] as int] is Done,
    ensures
        performed(results, s) == s,
    decreases s.len(),
{
    if s.len() > 0 {
        let d = s.drop_last();
        assert forall|j: int| 0 <= j < d.len() implies results[#[trigger] d[j] as int] is Done by {
            assert(d[j] == s[j]);
        }
        lemma_performed_all(results, d);
        assert(s[s.len() - 1] == s.last());
        assert(d.push(s.last()) =~= s);
    }
}

/// In a graph whose edges never signal a skip, a pass without failure
/// performs every node, and so calls the store once per node.
pub proof fn lemma_no_skip_all_dispatched(g: QueryGraph, rep: ExecutionReport)
    requires
        g.wf(),
        no_skip_edges(g.edges@),
        is_execution(g, rep),
        rep.failure is None,
    ensures
        forall|v: int| 0 <= v < g.nodes.len() ==> rep.results@[v] is Done,
        rep.dispatched@ == rep.order@,
        rep.dispatched.len() == g.nodes.len(),
{
    lemma_done_prefix(g, rep, g.nodes.len() as int);
    assert forall|v: int| 0 <= v < g.nodes.len() implies rep.results@[v] is Done by {
        assert(rep.order@.contains(v as usize));
        let i = choose|i: int| 0 <= i < rep.order@.len() && rep.order@[i] == v as usize;
    }
    lemma_performed_all(rep.results@, rep.order@);
}

proof fn lemma_done_prefix(g: QueryGraph, rep: ExecutionReport, i: int)
    requires
        g.wf(),
        no_skip_edges(g.edges@),
        is_execution(g, rep),
        rep.failure is None,
        0 <= i <= g.nodes.len(),
    ensures
        forall|j: int| 0 <= j < i ==> rep.results@[#[trigger] rep.order@[j] as int] is Done,
    decreases i,
{
    if i > 0 {
        lemma_done_prefix(g, rep, i - 1);
        let v = rep.order@[i - 1];
        let edges = g.edges@;
        let results = rep.results@;
        assert(node_done(edges, results, rep.order@[i - 1]));
        assert(!direct_skip(edges, results, v));
        if has_incoming(edges, v) {
            let k = choose|k: int| 0 <= k < edges.len() && (#[trigger] edges[k]).to == v;
            assert(rep.order@[i - 1] == edges[k].to);
            let m = choose|m: int| 0 <= m < i - 1 && rep.order@[m] == edges[k].from;
            assert(results[rep.order@[m] as int] is Done);
            assert(!all_inactive(edges, results, v));
        }
    }
}

/// A nested create whose record has two relations with `m` and `n` nested
/// records builds exactly `m + n + 1` create nodes. Against a store that
/// answers every call with an identifier, a pass over it succeeds and makes
/// exactly `m + n + 1` store calls, one per node.
pub proof fn lemma_nested_create_calls(
    old: QueryGraph,
    new: QueryGraph,
    model: u64,
    data: CreateData,
    rep: ExecutionReport,
    calls: Seq<StoreCall>,
)
    requires
        old.wf(),
        new.wf(),
        old.nodes.len() == 0,
        old.edges.len() == 0,
        data.nested.len() == 2,
        create_shape(old, new, model, data),
        is_execution(new, rep),
        calls_match(rep, calls),
        forall|k: int| 0 <= k < calls.len() ==> (#[trigger] calls[k]).1 is Ok && reply_id(calls[k].1->Ok_0) is Some,
    ensures
        new.nodes.len() == data.nested@[0].items.len() + data.nested@[1].items.len() + 1,
        forall|v: int| 0 <= v < new.nodes.len() ==> (#[trigger] new.nodes@[v]).kind == QueryKind::Create,
        rep.failure is None,
        calls.len() == data.nested@[0].items.len() + data.nested@[1].items.len() + 1,
        forall|k: int| 0 <= k < calls.len() ==> (#[trigger] calls[k]).0.kind == QueryKind::Create,
{
    lemma_no_failure(new, rep, calls);
    let nested = data.nested@;
    let ch = children(nested);
    let d = nested.drop_last();
    assert(d.drop_last() =~= Seq::<NestedCreate>::empty());
    assert(children(d.drop_last()) == Seq::<ChildShape>::empty());
    assert(d.last() == nested[0]);
    assert(nested.last() == nested[1]);
    assert(children(d) == children(d.drop_last()) + relation_children(nested[0]));
    assert(ch == children(d) + relation_children(nested[1]));
    assert(ch.len() == relation_children(nested[0]).len() + relation_children(nested[1]).len());
    assert forall|v: int| 0 <= v < new.nodes.len() implies (#[trigger] new.nodes@[v]).kind == QueryKind::Create by {
        if v > 0 {
            assert(new.nodes@[0 + 1 + (v - 1)] == new.nodes@[v]);
        }
    }
    assert forall|k: int| 0 <= k < new.edges.len() implies (#[trigger] new.edges@[k]).dep is ParentId || new.edges@[k].dep is Order by {
        assert(new.edges@[0 + k] == child_edge(0, (0 + 1 + k) as usize, ch[k]));
    }
    lemma_no_skip_all_dispatched(new, rep);
    assert forall|k: int| 0 <= k < calls.len() implies (#[trigger] calls[k]).0.kind == QueryKind::Create by {
        assert(rep.order@[k] < new.nodes.len());
        assert(new.nodes@[rep.dispatched@[k] as int].kind == QueryKind::Create);
    }
}


/// No edge of `edges` enters `v`, so none supplies it an argument.
pub proof fn lemma_applied_none(edges: Seq<Edge>, results: Seq<NodeResult>, v: usize)
    requires
        forall|k: int| 0 <= k < edges.len() ==> (#[trigger] edges[k]).to != v,
    ensures
        applied_args(edges, results, v) == Seq::<Arg>::empty(),
    decreases edges.len(),
{
    if edges.len() > 0 {
        let d = edges.drop_last();
        assert forall|k: int| 0 <= k < d.len() implies (#[trigger] d[k]).to != v by {
            assert(d[k] == edges[k]);
        }
        lemma_applied_none(d, results, v);
        assert(edges.last() == edges[edges.len() - 1]);
    }
}

/// Where exactly one edge enters `v`, that edge alone supplies `v` its arguments.
pub proof fn lemma_applied_single(edges: Seq<Edge>, results: Seq<NodeResult>, v: usize, k: int)
    requires
        0 <= k < edges.len(),
        edges[k].to == v,
        forall|i: int| 0 <= i < edges.len() && i != k ==> (#[trigger] edges[i]).to != v,
    ensures
        applied_args(edges, results, v) == match signal_at(edges[k], results) {
            Signal::Apply(a) => seq![a],
            _ => Seq::<Arg>::empty(),
        },
    decreases edges.len(),
{
    let d = edges.drop_last();
    if k == edges.len() - 1 {
        assert forall|i: int| 0 <= i < d.len() implies (#[trigger] d[i]).to != v by {
            assert(d[i] == edges[i]);
        }
        lemma_applied_none(d, results, v);
        assert(edges.last() == edges[k]);
        match signal_at(edges[k], results) {
            Signal::Apply(a) => {
                assert(Seq::<Arg>::empty().push(a) =~= seq![a]);
            },
            _ => {},
        }
    } else {
        assert forall|i: int| 0 <= i < d.len() && i != k implies (#[trigger] d[i]).to != v by {
            assert(d[i] == edges[i]);
        }
        assert(d[k] == edges[k]);
        lemma_applied_single(d, results, v, k);
        assert(edges.last() == edges[edges.len() - 1]);
    }
}

/// In a nested create, the store call of each nested record whose foreign
/// key sits on it carries the record's own arguments followed by the
/// identifier that the store returned for the parent, in the foreign-key field.
pub proof fn lemma_children_receive_parent_id(
    old: QueryGraph,
    new: QueryGraph,
    model: u64,
    data: CreateData,
    rep: ExecutionReport,
    calls: Seq<StoreCall>,
    parent_call: int,
    parent_id: u64,
)
    requires
        old.wf(),
        new.wf(),
        create_shape(old, new, model, data),
        is_execution(new, rep),
        calls_match(rep, calls),
        0 <= parent_call < calls.len(),
        rep.dispatched@[parent_call] == old.nodes.len(),
        calls[parent_call].1 == Ok::<crate::query::Reply, crate::executor::StoreError>(crate::query::Reply::Id(parent_id)),
    ensures
        forall|k: int, j: int|
            0 <= k < calls.len() && 0 <= j < children(data.nested@).len() && !(#[trigger] children(data.nested@)[j]).2
                && rep.dispatched@[k] == old.nodes.len() + 1 + j ==> (#[trigger] calls[k]).0.args@
                == children(data.nested@)[j].3 + seq![Arg { field: children(data.nested@)[j].1, value: parent_id }],
{
    let ch = children(data.nested@);
    let base = old.nodes.len();
    let oe = old.edges.len() as int;
    let edges = new.edges@;
    assert(rep.results@[base as int] == NodeResult::Done(crate::query::Reply::Id(parent_id)));
    assert forall|k: int, j: int|
        0 <= k < calls.len() && 0 <= j < ch.len() && !(#[trigger] ch[j]).2 && rep.dispatched@[k] == base + 1 + j
            implies (#[trigger] calls[k]).0.args@ == ch[j].3 + seq![Arg { field: ch[j].1, value: parent_id }] by {
        let v = (base + 1 + j) as usize;
        assert(edges[oe + j] == child_edge(base, v, ch[j]));
        assert forall|i: int| 0 <= i < edges.len() && i != oe + j implies (#[trigger] edges[i]).to != v by {
            if i < oe {
                assert(edges[i] == new.edges@.subrange(0, oe)[i]);
            } else {
                assert(edges[oe + (i - oe)] == child_edge(base, (base + 1 + (i - oe)) as usize, ch[i - oe]));
            }
        }
        lemma_applied_single(edges, rep.results@, v, oe + j);
        assert(crate::executor::is_resolved(new, rep.results@, rep.dispatched@[k], rep.issued@[k]));
        assert(new.nodes@[base + 1 + j] == new.nodes@[v as int]);
    }
}

/// An upsert runs exactly one branch. Let the store answer every call, and
/// every call but the existence check's with an identifier; the pass then
/// succeeds. When the existence check finds no
/// record, the create node runs and the update is skipped; when it finds
/// one, the update runs and every node of the create subgraph is skipped.
/// Either way the trailing read receives exactly one identifier, from the
/// branch that ran.
pub proof fn lemma_upsert_one_branch(
    old: QueryGraph,
    new: QueryGraph,
    model: u64,
    locator: u64,
    data: CreateData,
    update_args: Seq<Arg>,
    rep: ExecutionReport,
    calls: Seq<StoreCall>,
)
    requires
        old.wf(),
        new.wf(),
        upsert_shape(old, new, model, locator, data, update_args),
        is_execution(new, rep),
        calls_match(rep, calls),
        forall|k: int| 0 <= k < calls.len() ==> (#[trigger] calls[k]).1 is Ok,
        forall|k: int|
            0 <= k < calls.len() && rep.dispatched@[k] != new.nodes.len() - 3 ==> reply_id(
                (#[trigger] calls[k]).1->Ok_0,
            ) is Some,
    ensures
        rep.failure is None,
        rep.results@[new.nodes.len() - 3] is Done,
        reply_id(rep.results@[new.nodes.len() - 3]->Done_0) is None ==> rep.results@[old.nodes.len() as int] is Done
            && rep.results@[new.nodes.len() - 2] == NodeResult::NotPerformed
            && !rep.dispatched@.contains((new.nodes.len() - 2) as usize),
        reply_id(rep.results@[new.nodes.len() - 3]->Done_0) is Some ==> rep.results@[new.nodes.len() - 2] is Done
            && forall|v: int| old.nodes.len() <= v < new.nodes.len() - 3 ==> rep.results@[v] == NodeResult::NotPerformed
                && !rep.dispatched@.contains(v as usize),
        rep.results@[new.nodes.len() - 1] is Done,
        applied_args(new.edges@, rep.results@, (new.nodes.len() - 1) as usize).len() == 1,
{
    let mid = choose|mid: QueryGraph|
        {
            let base = old.nodes.len();
            let check = mid.nodes.len();
            let e0 = mid.edges.len();
            let m = (check - base) as int;
            &&& #[trigger] create_shape(old, mid, model, data)
            &&& new.nodes.len() == check + 3
            &&& new.nodes@.subrange(0, check as int) == mid.nodes@
            &&& is_read(new.nodes@[check as int], model, seq![Arg { field: ID_FIELD, value: locator }])
            &&& new.nodes@[check + 1].kind == QueryKind::Update
            &&& new.nodes@[check + 1].model == model
            &&& new.nodes@[check + 1].args@ == update_args
            &&& is_read(new.nodes@[check + 2], model, Seq::empty())
            &&& new.edges.len() == e0 + m + 3
            &&& new.edges@.subrange(0, e0 as int) == mid.edges@
            &&& forall|j: int| 0 <= j < m ==> #[trigger] new.edges@[e0 + j] == gate_edge(check, (base + j) as usize)
            &&& new.edges@[e0 + m] == Edge { from: check, to: (check + 1) as usize, dep: Dependency::IdOrSkip { field: ID_FIELD } }
            &&& new.edges@[e0 + m + 1] == Edge { from: base, to: (check + 2) as usize, dep: Dependency::ParentId { field: ID_FIELD } }
            &&& new.edges@[e0 + m + 2] == Edge { from: (check + 1) as usize, to: (check + 2) as usize, dep: Dependency::ParentId { field: ID_FIELD } }
            &&& new.result_nodes@ == old.result_nodes@.push((check + 2) as usize)
        };
    let base = old.nodes.len();
    let check = mid.nodes.len();
    let upd = (check + 1) as usize;
    let read = (check + 2) as usize;
    let e0 = mid.edges.len() as int;
    let m = (check - base) as int;
    let ch = children(data.nested@);
    let edges = new.edges@;
    let results = rep.results@;
    let oe = old.edges.len() as int;
    // Edges of the create subgraph stay below the check; those that enter
    // it carry identifiers.
    assert forall|k: int| 0 <= k < e0 implies (#[trigger] edges[k]).to < check && edges[k].from < check
        && (edges[k].to >= base ==> edges[k].dep is ParentId) by {
        assert(edges[k] == mid.edges@[k]);
        if k < oe {
            assert(mid.edges@[k] == old.edges@[k]);
        } else {
            assert(mid.edges@[oe + (k - oe)] == child_edge(base, (base + 1 + (k - oe)) as usize, ch[k - oe]));
        }
    }
    // No identifier-carrying edge leaves the check, so the pass succeeds.
    assert forall|k: int, j: int|
        0 <= k < calls.len() && 0 <= j < edges.len() && (#[trigger] edges[j]).from == #[trigger] rep.dispatched@[k]
            && edges[j].dep is ParentId implies reply_id(calls[k].1->Ok_0) is Some by {
        if rep.dispatched@[k] == check {
            if e0 <= j < e0 + m {
                assert(edges[e0 + (j - e0)] == gate_edge(check, (base + (j - e0)) as usize));
            }
        }
    }
    lemma_no_failure(new, rep, calls);
    lemma_all_done(new, rep);
    let ci: int = check as int;
    let ui: int = upd as int;
    let ri: int = read as int;
    let bi: int = base as int;
    // The check has no incoming edge, so it ran.
    assert forall|k: int| 0 <= k < edges.len() implies (#[trigger] edges[k]).to != check by {
        if e0 <= k < e0 + m {
            assert(edges[e0 + (k - e0)] == gate_edge(check, (base + (k - e0)) as usize));
        }
    }
    assert(node_done(edges, results, ci as usize));
    assert(!has_incoming(edges, check));
    assert(!direct_skip(edges, results, check));
    assert(results[ci] is Done);
    let found = reply_id(results[ci]->Done_0) is Some;
    // Only the check enters the update.
    assert forall|k: int| 0 <= k < edges.len() && (#[trigger] edges[k]).to == upd implies k == e0 + m by {
        if e0 <= k < e0 + m {
            assert(edges[e0 + (k - e0)] == gate_edge(check, (base + (k - e0)) as usize));
        }
    }
    assert(edges[e0 + m].to == upd);
    assert(node_done(edges, results, ui as usize));
    if found {
        assert(signal_at(edges[e0 + m], results) is Apply);
        assert(!direct_skip(edges, results, upd));
        assert(!all_inactive(edges, results, upd));
        assert(results[ui] is Done);
        assert forall|v: int| base <= v < check implies results[v] == NodeResult::NotPerformed
            && !rep.dispatched@.contains(v as usize) by {
            assert(edges[e0 + (v - bi)] == gate_edge(check, (base + (v - bi)) as usize));
            assert(signal_at(edges[e0 + (v - bi)], results) == Signal::Skip);
            assert(direct_skip(edges, results, v as usize));
            assert(node_done(edges, results, v as usize));
            lemma_skipped_not_dispatched(new, rep, calls, v as usize);
        }
    } else {
        assert(signal_at(edges[e0 + m], results) == Signal::Skip);
        assert(direct_skip(edges, results, upd));
        assert(results[ui] == NodeResult::NotPerformed);
        lemma_skipped_not_dispatched(new, rep, calls, upd);
        // The create node runs: its gate lets it pass and nothing else skips it.
        assert(edges[e0 + 0] == gate_edge(check, (base + 0) as usize));
        assert forall|k: int| 0 <= k < edges.len() && (#[trigger] edges[k]).to == base implies signal_at(edges[k], results) != Signal::Skip by {
            if e0 <= k < e0 + m {
                assert(edges[e0 + (k - e0)] == gate_edge(check, (base + (k - e0)) as usize));
            }
        }
        assert(!direct_skip(edges, results, base));
        assert(!all_inactive(edges, results, base));
        assert(node_done(edges, results, bi as usize));
        assert(results[bi] is Done);
    }
    // The read has exactly two incoming edges: from the create node and from the update.
    let pre = edges.subrange(0, e0 + m + 1);
    assert forall|k: int| 0 <= k < pre.len() implies (#[trigger] pre[k]).to != read by {
        assert(pre[k] == edges[k]);
        if e0 <= k < e0 + m {
            assert(edges[e0 + (k - e0)] == gate_edge(check, (base + (k - e0)) as usize));
        }
    }
    lemma_applied_none(pre, results, read);
    assert(edges.drop_last().drop_last() =~= pre);
    assert(edges.drop_last().last() == edges[e0 + m + 1]);
    assert(edges.last() == edges[e0 + m + 2]);
    assert forall|k: int| 0 <= k < edges.len() && (#[trigger] edges[k]).to == read implies k == e0 + m + 1 || k == e0 + m + 2 by {
        if k < e0 + m + 1 {
            assert(pre[k] == edges[k]);
        }
    }
    assert(node_done(edges, results, ri as usize));
    assert(!direct_skip(edges, results, read));
    if found {
        assert(edges[e0 + m + 2].to == read);
        assert(!all_inactive(edges, results, read));
        assert(!missing_value(edges, results, read));
        assert(signal_at(edges[e0 + m + 2], results) != Signal::Missing);
        assert(signal_at(edges[e0 + m + 1], results) == Signal::Inactive);
    } else {
        assert(edges[e0 + m + 1].to == read);
        assert(!all_inactive(edges, results, read));
        assert(!missing_value(edges, results, read));
        assert(signal_at(edges[e0 + m + 1], results) != Signal::Missing);
        assert(signal_at(edges[e0 + m + 2], results) == Signal::Inactive);
    }
    let d = edges.drop_last();
    if found {
        assert(signal_at(d.last(), results) == Signal::Inactive);
        assert(applied_args(d, results, read) == applied_args(pre, results, read));
        assert(signal_at(edges.last(), results) is Apply);
    } else {
        assert(signal_at(d.last(), results) is Apply);
        assert(applied_args(d, results, read).len() == applied_args(pre, results, read).len() + 1);
        assert(signal_at(edges.last(), results) == Signal::Inactive);
    }
}

} // verus!
