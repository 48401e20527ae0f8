use query_core::builders::{
    connect_records, delete_record, disconnect_records, update_record, write_located_by, Builder, ReadOneRecordBuilder,
    connect_or_create, set_relation, create_record, create_record_node, upsert_record, NestedConnect, CreateData, NestedCreate, QueryValidationError};
use query_core::executor::{execute, execute_graph, ExecError, FailureCause, Store, StoreCall, StoreError};
use query_core::graph::{Dependency, GraphError, NodeRef, QueryGraph};
use query_core::query::{Arg, NodeResult, Query, QueryKind, Reply, ID_FIELD};

/// A store that assigns identifiers 1, 2, 3, ... to writes in call order,
/// keeps writes pending until commit, and can be told to fail a given call.
struct FakeStore {
    next_id: u64,
    calls: Vec<Query>,
    pending: Vec<u64>,
    committed: Vec<u64>,
    fail_on_call: Option<usize>,
    existing: Vec<u64>,
}

impl FakeStore {
    fn new() -> FakeStore {
        FakeStore { next_id: 1, calls: Vec::new(), pending: Vec::new(), committed: Vec::new(), fail_on_call: None, existing: Vec::new() }
    }

    fn commit(&mut self) {
        self.committed.append(&mut self.pending);
    }

    fn rollback(&mut self) {
        self.pending.clear();
    }
}

impl Store for FakeStore {
    // The call log is a view for proofs; nothing reads it at run time.
    fn log(&self) -> vstd::seq::Seq<StoreCall> {
        unreachable!()
    }

    fn execute(&mut self, query: &Query) -> Result<Reply, StoreError> {
        let call = self.calls.len();
        self.calls.push(query.clone());
        if self.fail_on_call == Some(call) {
            return Err(StoreError { code: 7 });
        }
        match query.kind {
            QueryKind::ReadOne | QueryKind::ReadMany => {
                match query.args.iter().rev().find(|a| a.field == ID_FIELD) {
                    Some(a) if self.existing.contains(&a.value) || self.pending.contains(&a.value) => Ok(Reply::Id(a.value)),
                    _ => Ok(Reply::NotFound),
                }
            }
            QueryKind::Create => {
                let id = self.next_id;
                self.next_id += 1;
                self.pending.push(id);
                Ok(Reply::Id(id))
            }
            _ => {
                let id = query.args.iter().rev().find(|a| a.field == ID_FIELD).map(|a| a.value).unwrap_or(0);
                Ok(Reply::Id(id))
            }
        }
    }
}

const FK: u64 = 9;

fn children_of(model: u64, count: usize) -> NestedCreate {
    NestedCreate {
        model,
        fk_field: FK,
        inlined_on_parent: false,
        items: (0..count).map(|i| vec![Arg { field: 1, value: i as u64 }]).collect(),
    }
}

fn fk_of(q: &Query) -> Option<u64> {
    q.args.iter().find(|a| a.field == FK).map(|a| a.value)
}

#[test]
fn topological_order_respects_every_edge() {
    let mut g = QueryGraph::new();
    let a = g.create_node(Query::new(QueryKind::Create, 1));
    let b = g.create_node(Query::new(QueryKind::Create, 2));
    let c = g.create_node(Query::new(QueryKind::Create, 3));
    let d = g.create_node(Query::new(QueryKind::Create, 4));
    g.create_edge(c, a, Dependency::Order).unwrap();
    g.create_edge(a, b, Dependency::Order).unwrap();
    g.create_edge(d, b, Dependency::Order).unwrap();
    let order: Vec<usize> = g.nodes_topologically().iter().map(|r| r.id).collect();
    assert_eq!(order, vec![2, 0, 3, 1]);
    let pos = |n: NodeRef| order.iter().position(|&x| x == n.id).unwrap();
    assert!(pos(c) < pos(a));
    assert!(pos(a) < pos(b));
    assert!(pos(d) < pos(b));
}

#[test]
fn topological_order_breaks_ties_by_insertion() {
    let mut g = QueryGraph::new();
    for m in 0..5 {
        g.create_node(Query::new(QueryKind::ReadOne, m));
    }
    let order: Vec<usize> = g.nodes_topologically().iter().map(|r| r.id).collect();
    assert_eq!(order, vec![0, 1, 2, 3, 4]);
    assert_eq!(g.topological_ids(), vec![0, 1, 2, 3, 4]);
}

#[test]
fn cycle_edge_is_rejected_and_graph_unchanged() {
    let mut g = QueryGraph::new();
    let a = g.create_node(Query::new(QueryKind::Create, 1));
    let b = g.create_node(Query::new(QueryKind::Create, 2));
    let c = g.create_node(Query::new(QueryKind::Create, 3));
    g.create_edge(a, b, Dependency::ParentId { field: FK }).unwrap();
    g.create_edge(b, c, Dependency::Order).unwrap();
    let edges_before = g.edges.clone();
    let order_before = g.topological_ids();
    assert_eq!(g.create_edge(c, a, Dependency::Order), Err(GraphError::CycleDetected));
    assert_eq!(g.create_edge(b, b, Dependency::Order), Err(GraphError::CycleDetected));
    assert_eq!(g.edges, edges_before);
    assert_eq!(g.edge_count(), 2);
    assert_eq!(g.node_count(), 3);
    assert_eq!(g.topological_ids(), order_before);
    // An edge between unrelated nodes in the other direction is fine.
    let d = g.create_node(Query::new(QueryKind::Create, 4));
    assert!(g.create_edge(d, a, Dependency::Order).is_ok());
}

#[test]
fn nested_children_get_parent_identifier() {
    let mut g = QueryGraph::new();
    let data = CreateData { args: vec![Arg { field: 1, value: 100 }], nested: vec![children_of(2, 2)] };
    create_record(&mut g, 1, &data, &vec![]).unwrap();
    let mut store = FakeStore::new();
    let out = execute(&g, &mut store).unwrap();
    assert_eq!(store.calls.len(), 4);
    assert_eq!(store.calls[0].kind, QueryKind::Create);
    assert_eq!(store.calls[0].model, 1);
    let children: Vec<&Query> = store.calls.iter().filter(|q| q.kind == QueryKind::Create && q.model == 2).collect();
    assert_eq!(children.len(), 2);
    assert_eq!(fk_of(children[0]), Some(1));
    assert_eq!(fk_of(children[1]), Some(1));
    // The follow-up read locates the parent and is the one result.
    assert_eq!(out, vec![NodeResult::Done(Reply::Id(1))]);
}

#[test]
fn nested_create_fans_out_one_node_per_child() {
    let mut g = QueryGraph::new();
    let data = CreateData { args: vec![], nested: vec![children_of(2, 2), children_of(3, 3)] };
    let root = create_record_node(&mut g, 1, &data).unwrap();
    assert_eq!(root.id, 0);
    assert_eq!(g.node_count(), 2 + 3 + 1);
    assert!(g.nodes.iter().all(|q| q.kind == QueryKind::Create));
    let mut store = FakeStore::new();
    let rep = execute_graph(&g, &mut store);
    assert!(rep.failure.is_none());
    assert_eq!(store.calls.len(), 6);
    assert_eq!(rep.dispatched.len(), 6);
    assert!(store.calls[1..].iter().all(|q| fk_of(q) == Some(1)));
}

#[test]
fn inlined_relation_creates_child_first() {
    let mut g = QueryGraph::new();
    let owner = NestedCreate { model: 5, fk_field: FK, inlined_on_parent: true, items: vec![vec![]] };
    let data = CreateData { args: vec![], nested: vec![owner] };
    create_record_node(&mut g, 1, &data).unwrap();
    let mut store = FakeStore::new();
    let rep = execute_graph(&g, &mut store);
    assert!(rep.failure.is_none());
    assert_eq!(store.calls[0].model, 5);
    assert_eq!(store.calls[1].model, 1);
    assert_eq!(fk_of(&store.calls[1]), Some(1));
}

#[test]
fn inlined_relation_with_many_records_is_rejected() {
    let mut g = QueryGraph::new();
    let plain = children_of(2, 1);
    let owner = NestedCreate { model: 5, fk_field: FK, inlined_on_parent: true, items: vec![vec![], vec![]] };
    let data = CreateData { args: vec![], nested: vec![plain, owner] };
    assert_eq!(create_record_node(&mut g, 1, &data), Err(QueryValidationError::ToOneCardinality { relation: 1 }));
    assert_eq!(g.node_count(), 0);
    assert_eq!(g.edge_count(), 0);
    let empty = NestedCreate { model: 5, fk_field: FK, inlined_on_parent: true, items: vec![] };
    let data = CreateData { args: vec![], nested: vec![empty] };
    assert_eq!(create_record(&mut g, 1, &data, &vec![]), Err(QueryValidationError::ToOneCardinality { relation: 0 }));
}

#[test]
fn store_failure_halts_and_rolls_back() {
    let mut g = QueryGraph::new();
    for m in 0..3 {
        g.create_node(Query::new(QueryKind::Create, m));
    }
    let mut store = FakeStore::new();
    store.fail_on_call = Some(1);
    let r = execute(&g, &mut store);
    assert_eq!(
        r,
        Err(ExecError { node: 1, kind: QueryKind::Create, model: 1, cause: FailureCause::Store(StoreError { code: 7 }) })
    );
    assert_eq!(store.calls.len(), 2);
    store.rollback();
    assert!(store.committed.is_empty());
    assert!(store.pending.is_empty());
}

#[test]
fn successful_pass_commits_effects() {
    let mut g = QueryGraph::new();
    for m in 0..3 {
        g.create_node(Query::new(QueryKind::Create, m));
    }
    let mut store = FakeStore::new();
    assert!(execute(&g, &mut store).is_ok());
    store.commit();
    assert_eq!(store.committed, vec![1, 2, 3]);
}

#[test]
fn missing_parent_value_fails_resolution() {
    let mut g = QueryGraph::new();
    let mut locate = Vec::new();
    locate.push(Arg { field: ID_FIELD, value: 42 });
    let find = g.create_node(Query::with_args(QueryKind::ReadOne, 1, &locate));
    let connect = g.create_node(Query::new(QueryKind::Connect, 2));
    g.create_edge(find, connect, Dependency::ParentId { field: FK }).unwrap();
    let mut store = FakeStore::new();
    let r = execute(&g, &mut store);
    assert_eq!(
        r,
        Err(ExecError { node: 1, kind: QueryKind::Connect, model: 2, cause: FailureCause::MissingParentValue })
    );
    assert_eq!(store.calls.len(), 1);
}

#[test]
fn skip_edge_suppresses_node_and_exclusive_descendants() {
    let mut g = QueryGraph::new();
    let mut locate = Vec::new();
    locate.push(Arg { field: ID_FIELD, value: 3 });
    let check = g.create_node(Query::with_args(QueryKind::ReadOne, 1, &locate));
    let skipped = g.create_node(Query::new(QueryKind::Create, 2));
    let below = g.create_node(Query::new(QueryKind::Create, 3));
    let shared = g.create_node(Query::new(QueryKind::Create, 4));
    g.create_edge(check, skipped, Dependency::SkipIfFound).unwrap();
    g.create_edge(skipped, below, Dependency::ParentId { field: FK }).unwrap();
    g.create_edge(skipped, shared, Dependency::ParentId { field: FK }).unwrap();
    g.create_edge(check, shared, Dependency::Order).unwrap();
    g.add_result_node(skipped);
    g.add_result_node(below);
    g.add_result_node(shared);
    let mut store = FakeStore::new();
    store.existing.push(3);
    let out = execute(&g, &mut store).unwrap();
    assert_eq!(out[0], NodeResult::NotPerformed);
    assert_eq!(out[1], NodeResult::NotPerformed);
    assert!(matches!(out[2], NodeResult::Done(_)));
    assert_eq!(store.calls.len(), 2);
    assert!(store.calls.iter().all(|q| q.model != 2 && q.model != 3));
}

fn upsert_graph() -> (QueryGraph, usize) {
    let mut g = QueryGraph::new();
    let data = CreateData { args: vec![Arg { field: 1, value: 5 }], nested: vec![children_of(2, 1)] };
    let update = vec![Arg { field: 1, value: 6 }];
    let read = upsert_record(&mut g, 1, 3, &data, &update).unwrap();
    (g, read.id)
}

#[test]
fn upsert_not_found_runs_only_create() {
    let (g, read) = upsert_graph();
    assert_eq!(read, 4);
    let mut store = FakeStore::new();
    let rep = execute_graph(&g, &mut store);
    assert!(rep.failure.is_none());
    assert!(store.calls.iter().all(|q| q.kind != QueryKind::Update));
    assert_eq!(store.calls.iter().filter(|q| q.kind == QueryKind::Create).count(), 2);
    assert_eq!(rep.results[3], NodeResult::NotPerformed);
    assert_eq!(rep.results[read], NodeResult::Done(Reply::Id(1)));
    let read_query = store.calls.last().unwrap();
    assert_eq!(read_query.args.iter().filter(|a| a.field == ID_FIELD).count(), 1);
}

#[test]
fn upsert_found_runs_only_update() {
    let (g, read) = upsert_graph();
    let mut store = FakeStore::new();
    store.existing.push(3);
    let rep = execute_graph(&g, &mut store);
    assert!(rep.failure.is_none());
    assert!(store.calls.iter().all(|q| q.kind != QueryKind::Create));
    assert_eq!(store.calls.iter().filter(|q| q.kind == QueryKind::Update).count(), 1);
    assert_eq!(rep.results[0], NodeResult::NotPerformed);
    assert_eq!(rep.results[1], NodeResult::NotPerformed);
    assert_eq!(rep.results[read], NodeResult::Done(Reply::Id(3)));
    let out = execute(&g, &mut FakeStore { existing: vec![3], ..FakeStore::new() }).unwrap();
    assert_eq!(out, vec![NodeResult::Done(Reply::Id(3))]);
}

#[test]
fn read_one_builder_locates_by_identifier() {
    let q = ReadOneRecordBuilder { model: 4, id: Some(8) }.build().unwrap();
    assert_eq!(q.kind, QueryKind::ReadOne);
    assert_eq!(q.model, 4);
    assert_eq!(q.args, vec![Arg { field: ID_FIELD, value: 8 }]);
    let q = ReadOneRecordBuilder { model: 4, id: None }.build().unwrap();
    assert!(q.args.is_empty());
}

#[test]
fn connect_links_located_record_to_new_parent() {
    let mut g = QueryGraph::new();
    let parent = g.create_node(Query::new(QueryKind::Create, 1));
    let link = connect_records(&mut g, parent, 2, 40, FK).unwrap();
    assert_eq!(link.id, 2);
    assert_eq!(g.nodes[1].kind, QueryKind::ReadOne);
    assert_eq!(g.nodes[2].kind, QueryKind::Connect);
    let mut store = FakeStore::new();
    store.existing.push(40);
    let rep = execute_graph(&g, &mut store);
    assert!(rep.failure.is_none());
    let connect = store.calls.iter().find(|q| q.kind == QueryKind::Connect).unwrap();
    assert_eq!(connect.args, vec![Arg { field: ID_FIELD, value: 40 }, Arg { field: FK, value: 1 }]);
}

#[test]
fn connect_to_missing_record_fails() {
    let mut g = QueryGraph::new();
    let parent = g.create_node(Query::new(QueryKind::Create, 1));
    disconnect_records(&mut g, parent, 2, 40, FK).unwrap();
    let mut store = FakeStore::new();
    let r = execute(&g, &mut store);
    assert_eq!(
        r,
        Err(ExecError { node: 2, kind: QueryKind::Disconnect, model: 2, cause: FailureCause::MissingParentValue })
    );
    assert!(store.calls.iter().all(|q| q.kind != QueryKind::Disconnect));
}

#[test]
fn update_and_delete_are_scoped_by_locator() {
    let mut g = QueryGraph::new();
    let u = update_record(&mut g, 3, 11, &vec![Arg { field: 2, value: 5 }]);
    let d = delete_record(&mut g, 3, 12);
    assert_eq!(g.nodes[u.id].args, vec![Arg { field: ID_FIELD, value: 11 }, Arg { field: 2, value: 5 }]);
    assert_eq!(g.nodes[d.id].kind, QueryKind::Delete);
    assert_eq!(g.nodes[d.id].args, vec![Arg { field: ID_FIELD, value: 12 }]);
    let mut locate = Vec::new();
    locate.push(Arg { field: ID_FIELD, value: 12 });
    let find = g.create_node(Query::with_args(QueryKind::ReadOne, 3, &locate));
    let w = write_located_by(&mut g, find, QueryKind::Update, 3, &vec![]);
    let mut store = FakeStore::new();
    store.existing.push(12);
    let rep = execute_graph(&g, &mut store);
    assert!(rep.failure.is_none());
    assert_eq!(rep.results[w.id], NodeResult::Done(Reply::Id(12)));
}

#[test]
fn parent_side_relations_sharing_a_foreign_key_are_rejected() {
    let mut g = QueryGraph::new();
    let a = NestedCreate { model: 5, fk_field: FK, inlined_on_parent: true, items: vec![vec![]] };
    let b = NestedCreate { model: 6, fk_field: FK, inlined_on_parent: true, items: vec![vec![]] };
    let data = CreateData { args: vec![], nested: vec![a, b] };
    assert_eq!(create_record(&mut g, 1, &data, &vec![]), Err(QueryValidationError::DuplicateForeignKey { relation: 1 }));
    assert_eq!(g.node_count(), 0);
    let a = NestedCreate { model: 5, fk_field: FK, inlined_on_parent: true, items: vec![vec![]] };
    let b = NestedCreate { model: 6, fk_field: FK + 1, inlined_on_parent: true, items: vec![vec![]] };
    let data = CreateData { args: vec![], nested: vec![a, b] };
    assert!(create_record(&mut g, 1, &data, &vec![]).is_ok());
}

#[test]
fn link_on_identifier_field_is_rejected() {
    let mut g = QueryGraph::new();
    let parent = g.create_node(Query::new(QueryKind::Create, 1));
    assert_eq!(connect_records(&mut g, parent, 2, 40, ID_FIELD), Err(QueryValidationError::ConflictingWrite));
    assert_eq!(disconnect_records(&mut g, parent, 2, 40, ID_FIELD), Err(QueryValidationError::ConflictingWrite));
    assert_eq!(g.node_count(), 1);
    assert_eq!(g.edge_count(), 0);
}

#[test]
fn read_builder_query_matches_build() {
    let b = ReadOneRecordBuilder { model: 2, id: Some(3) };
    assert_eq!(b.query().args, vec![Arg { field: ID_FIELD, value: 3 }]);
    assert_eq!(b.build().unwrap().kind, QueryKind::ReadOne);
}

#[test]
fn nested_connect_links_existing_record() {
    let mut g = QueryGraph::new();
    let data = CreateData { args: vec![], nested: vec![] };
    let cs = vec![NestedConnect { model: 2, locator: 50, fk_field: FK }];
    create_record(&mut g, 1, &data, &cs).unwrap();
    let mut store = FakeStore::new();
    store.existing.push(50);
    let out = execute(&g, &mut store).unwrap();
    assert_eq!(out, vec![NodeResult::Done(Reply::Id(1))]);
    let connect = store.calls.iter().find(|q| q.kind == QueryKind::Connect).unwrap();
    assert_eq!(connect.args, vec![Arg { field: ID_FIELD, value: 50 }, Arg { field: FK, value: 1 }]);
}

#[test]
fn nested_connect_to_missing_record_fails_and_rolls_back() {
    let mut g = QueryGraph::new();
    let data = CreateData { args: vec![], nested: vec![children_of(3, 1)] };
    let cs = vec![NestedConnect { model: 2, locator: 50, fk_field: FK }];
    create_record(&mut g, 1, &data, &cs).unwrap();
    let mut store = FakeStore::new();
    let r = execute(&g, &mut store);
    assert!(matches!(r, Err(ExecError { kind: QueryKind::Connect, cause: FailureCause::MissingParentValue, .. })));
    assert!(store.calls.iter().all(|q| q.kind != QueryKind::Connect));
    store.rollback();
    assert!(store.committed.is_empty());
}

#[test]
fn nested_connect_on_identifier_field_is_rejected() {
    let mut g = QueryGraph::new();
    let data = CreateData { args: vec![], nested: vec![] };
    let cs = vec![NestedConnect { model: 2, locator: 50, fk_field: ID_FIELD }];
    assert_eq!(create_record(&mut g, 1, &data, &cs), Err(QueryValidationError::ConflictingWrite));
    assert_eq!(g.node_count(), 0);
}

#[test]
fn connect_or_create_connects_found_record() {
    let mut g = QueryGraph::new();
    let parent = g.create_node(Query::new(QueryKind::Create, 1));
    let check = connect_or_create(&mut g, parent, 2, 70, &vec![Arg { field: 3, value: 4 }], FK).unwrap();
    assert_eq!(check.id, 1);
    let mut store = FakeStore::new();
    store.existing.push(70);
    let rep = execute_graph(&g, &mut store);
    assert!(rep.failure.is_none());
    assert_eq!(rep.results[2], NodeResult::NotPerformed);
    assert!(store.calls.iter().all(|q| !(q.kind == QueryKind::Create && q.model == 2)));
    let connect = store.calls.iter().find(|q| q.kind == QueryKind::Connect).unwrap();
    assert_eq!(connect.args, vec![Arg { field: ID_FIELD, value: 70 }, Arg { field: FK, value: 1 }]);
}

#[test]
fn connect_or_create_creates_missing_record() {
    let mut g = QueryGraph::new();
    let parent = g.create_node(Query::new(QueryKind::Create, 1));
    connect_or_create(&mut g, parent, 2, 70, &vec![Arg { field: 3, value: 4 }], FK).unwrap();
    let mut store = FakeStore::new();
    let rep = execute_graph(&g, &mut store);
    assert!(rep.failure.is_none());
    assert_eq!(rep.results[3], NodeResult::NotPerformed);
    assert!(store.calls.iter().all(|q| q.kind != QueryKind::Connect));
    let create = store.calls.iter().find(|q| q.kind == QueryKind::Create && q.model == 2).unwrap();
    assert_eq!(create.args, vec![Arg { field: 3, value: 4 }, Arg { field: FK, value: 1 }]);
    assert_eq!(connect_or_create(&mut g, parent, 2, 70, &vec![], ID_FIELD), Err(QueryValidationError::ConflictingWrite));
}

#[test]
fn set_disconnects_then_connects_each_record() {
    let mut g = QueryGraph::new();
    let parent = g.create_node(Query::new(QueryKind::Create, 1));
    let d = set_relation(&mut g, parent, 2, FK, &vec![60, 61]).unwrap();
    assert_eq!(d.id, 1);
    assert_eq!(g.node_count(), 6);
    let mut store = FakeStore::new();
    store.existing.push(60);
    store.existing.push(61);
    let rep = execute_graph(&g, &mut store);
    assert!(rep.failure.is_none());
    let disconnect = store.calls.iter().position(|q| q.kind == QueryKind::Disconnect).unwrap();
    assert_eq!(store.calls[disconnect].args, vec![Arg { field: FK, value: 1 }]);
    let connects: Vec<(usize, &Query)> = store.calls.iter().enumerate().filter(|(_, q)| q.kind == QueryKind::Connect).collect();
    assert_eq!(connects.len(), 2);
    assert!(connects.iter().all(|(i, _)| *i > disconnect));
    assert_eq!(connects[0].1.args, vec![Arg { field: ID_FIELD, value: 60 }, Arg { field: FK, value: 1 }]);
    assert_eq!(connects[1].1.args, vec![Arg { field: ID_FIELD, value: 61 }, Arg { field: FK, value: 1 }]);
    assert_eq!(set_relation(&mut g, parent, 2, ID_FIELD, &vec![]), Err(QueryValidationError::ConflictingWrite));
}
