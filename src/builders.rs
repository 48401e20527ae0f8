use vstd::prelude::*;
use crate::graph::{
    Dependency, Edge, GraphError, NodeRef, QueryGraph, lemma_no_incoming, lemma_no_outgoing, reachable, single_writer,
    single_writer_except, written_field, lemma_single_writer_push,
};
use crate::query::{Arg, ID_FIELD, Query, QueryKind};

verus! {

/// A rejected request shape, found before anything reaches the store.
#[derive(Clone, Copy, Debug, PartialEq, Eq, Structural)]
pub enum QueryValidationError {
    /// A relation whose foreign key sits on the parent is to-one: it takes
    /// exactly one nested record.
    ToOneCardinality { relation: usize },
    /// Two relations whose foreign keys sit on the parent name the same
    /// foreign-key field, so two edges would write one argument.
    DuplicateForeignKey { relation: usize },
    /// The foreign-key field of a link is the identifier field, which the
    /// located record's identifier already writes.
    ConflictingWrite,
    /// Graph construction failed.
    Graph(GraphError),
}

pub type QueryBuilderResult<T> = Result<T, QueryValidationError>;

/// Something that turns into a query once all its parts are known.
pub trait Builder<T> {
    fn build(self) -> QueryBuilderResult<T>;
}

/// Builds the read of one record of `model`, located by its identifier
/// where one is given.
pub struct ReadOneRecordBuilder {
    pub model: u64,
    pub id: Option<u64>,
}

/// The locator arguments of a read: the identifier, where one is given.
pub open spec fn locator_args(id: Option<u64>) -> Seq<Arg> {
    match id {
        Some(x) => seq![Arg { field: ID_FIELD, value: x }],
        None => Seq::empty(),
    }
}

impl ReadOneRecordBuilder {
    /// The read query: one record of `model`, located by `id` where given
    /// (else by an identifier that an edge supplies).
    pub fn query(&self) -> (q: Query)
        ensures
            is_read(q, self.model, locator_args(self.id)),
    {
        let mut q = Query::new(QueryKind::ReadOne, self.model);
        if let Some(id) = self.id {
            q.args.push(Arg { field: ID_FIELD, value: id });
            assert(q.args@ =~= seq![Arg { field: ID_FIELD, value: id }]);
        }
        q
    }
}

impl Builder<Query> for ReadOneRecordBuilder {
    fn build(self) -> QueryBuilderResult<Query> {
        Ok(self.query())
    }
}

/// Records to create on the other side of one relation of a created record.
pub struct NestedCreate {
    /// The related model.
    pub model: u64,
    /// The foreign-key field that links the two records.
    pub fk_field: u64,
    /// Whether the foreign key sits on the parent (then the child is created
    /// first) rather than on the child.
    pub inlined_on_parent: bool,
    /// The arguments of each record to create.
    pub items: Vec<Vec<Arg>>,
}

/// The data of a record to create, with its nested creates.
pub struct CreateData {
    pub args: Vec<Arg>,
    pub nested: Vec<NestedCreate>,
}

/// One nested record: (model, foreign-key field, inlined on parent, arguments).
pub type ChildShape = (u64, u64, bool, Seq<Arg>);

pub open spec fn relation_children(r: NestedCreate) -> Seq<ChildShape> {
    r.items@.map_values(|a: Vec<Arg>| (r.model, r.fk_field, r.inlined_on_parent, a@))
}

/// The nested records of all relations, relation by relation.
pub open spec fn children(nested: Seq<NestedCreate>) -> Seq<ChildShape>
    decreases nested.len(),
{
    if nested.len() == 0 {
        Seq::empty()
    } else {
        children(nested.drop_last()) + relation_children(nested.last())
    }
}

/// Every relation whose foreign key sits on the parent gets exactly one
/// record, and no two such relations share a foreign-key field.
pub open spec fn relations_valid(nested: Seq<NestedCreate>) -> bool {
    &&& forall|r: int| 0 <= r < nested.len() && (#[trigger] nested[r]).inlined_on_parent ==> nested[r].items.len() == 1
    &&& forall|r: int, q: int|
        0 <= q < r < nested.len() && (#[trigger] nested[r]).inlined_on_parent && (#[trigger] nested[q]).inlined_on_parent
            ==> nested[r].fk_field != nested[q].fk_field
}

/// A rejected shape of nested data, as opposed to a graph error.
pub open spec fn is_shape_error(e: QueryValidationError) -> bool {
    e is ToOneCardinality || e is DuplicateForeignKey
}

/// The edge linking the parent at `base` with its nested record at `child`.
pub open spec fn child_edge(base: usize, child: usize, c: ChildShape) -> Edge {
    if c.2 {
        Edge { from: child, to: base, dep: Dependency::ParentId { field: c.1 } }
    } else {
        Edge { from: base, to: child, dep: Dependency::ParentId { field: c.1 } }
    }
}

/// `q` creates a record of `model` with arguments `args`.
pub open spec fn is_create(q: Query, model: u64, args: Seq<Arg>) -> bool {
    q.kind == QueryKind::Create && q.model == model && q.args@ == args
}

/// `new` is `old` plus the subgraph of a nested create: the parent's create
/// node at index `old.nodes.len()`, one create node per nested record after
/// it, and one identifier-carrying edge per nested record.
pub open spec fn create_shape(old: QueryGraph, new: QueryGraph, model: u64, data: CreateData) -> bool {
    let base = old.nodes.len();
    let ch = children(data.nested@);
    &&& new.nodes.len() == base + 1 + ch.len()
    &&& new.nodes@.subrange(0, base as int) == old.nodes@
    &&& is_create(new.nodes@[base as int], model, data.args@)
    &&& forall|j: int| 0 <= j < ch.len() ==> is_create(#[trigger] new.nodes@[base + 1 + j], ch[j].0, ch[j].3)
    &&& new.edges.len() == old.edges.len() + ch.len()
    &&& new.edges@.subrange(0, old.edges.len() as int) == old.edges@
    &&& forall|j: int|
        0 <= j < ch.len() ==> #[trigger] new.edges@[old.edges.len() + j] == child_edge(base, (base + 1 + j) as usize, ch[j])
    &&& new.result_nodes@ == old.result_nodes@
}

/// Adds the create node of one nested record, linked to `parent`.
fn create_child(graph: &mut QueryGraph, parent: usize, model: u64, fk_field: u64, inlined: bool, args: &Vec<Arg>)
    requires
        old(graph).wf(),
        parent < old(graph).nodes.len(),
    ensures
        final(graph).wf(),
        final(graph).nodes@.len() == old(graph).nodes@.len() + 1,
        final(graph).nodes@.subrange(0, old(graph).nodes.len() as int) == old(graph).nodes@,
        is_create(final(graph).nodes@[old(graph).nodes.len() as int], model, args@),
        final(graph).edges@ == old(graph).edges@.push(
            child_edge(parent, old(graph).nodes.len(), (model, fk_field, inlined, args@)),
        ),
        final(graph).result_nodes@ == old(graph).result_nodes@,
{
    let q = Query::with_args(QueryKind::Create, model, args);
    let ghost g0 = *graph;
    let child = graph.create_node(q);
    assert(graph.nodes@.subrange(0, g0.nodes.len() as int) =~= g0.nodes@);
    let parent_ref = NodeRef { id: parent };
    let dep = Dependency::ParentId { field: fk_field };
    let r = if inlined {
        proof {
            if reachable(graph.edges@, parent, child.id) {
                lemma_no_incoming(graph.edges@, parent, child.id);
            }
        }
        graph.create_edge(child, parent_ref, dep)
    } else {
        proof {
            if reachable(graph.edges@, child.id, parent) {
                lemma_no_outgoing(graph.edges@, child.id, parent);
            }
        }
        graph.create_edge(parent_ref, child, dep)
    };
}


/// Checks that every relation whose foreign key sits on the parent gets
/// exactly one record and a foreign-key field of its own; returns the first
/// offending relation otherwise.
pub fn validate_relations(nested: &Vec<NestedCreate>) -> (r: Result<(), QueryValidationError>)
    ensures
        r is Ok <==> relations_valid(nested@),
        r matches Err(QueryValidationError::ToOneCardinality { relation }) ==> relation < nested.len()
            && nested@[relation as int].inlined_on_parent && nested@[relation as int].items.len() != 1,
        r matches Err(QueryValidationError::DuplicateForeignKey { relation }) ==> relation < nested.len()
            && nested@[relation as int].inlined_on_parent && exists|q: int|
            0 <= q < relation && (#[trigger] nested@[q]).inlined_on_parent && nested@[q].fk_field
                == nested@[relation as int].fk_field,
        r matches Err(e) ==> is_shape_error(e),
{
    let mut i: usize = 0;
    while i < nested.len()
        invariant
            i <= nested.len(),
            forall|r: int| 0 <= r < i && (#[trigger] nested@[r]).inlined_on_parent ==> nested@[r].items.len() == 1,
            forall|r: int, q: int|
                0 <= q < r < i && (#[trigger] nested@[r]).inlined_on_parent && (#[trigger] nested@[q]).inlined_on_parent
                    ==> nested@[r].fk_field != nested@[q].fk_field,
        decreases nested.len() - i,
    {
        if nested[i].inlined_on_parent {
            if nested[i].items.len() != 1 {
                return Err(QueryValidationError::ToOneCardinality { relation: i });
            }
            let mut q: usize = 0;
            while q < i
                invariant
                    q <= i < nested.len(),
                    nested@[i as int].inlined_on_parent,
                    forall|p: int| 0 <= p < q && (#[trigger] nested@[p]).inlined_on_parent ==> nested@[p].fk_field != nested@[i as int].fk_field,
                decreases i - q,
            {
                if nested[q].inlined_on_parent && nested[q].fk_field == nested[i].fk_field {
                    return Err(QueryValidationError::DuplicateForeignKey { relation: i });
                }
                q = q + 1;
            }
        }
        i = i + 1;
    }
    Ok(())
}

/// Under valid relations, the nested records whose foreign key sits on the
/// parent have pairwise distinct foreign-key fields, each that of such a relation.
pub proof fn lemma_children_fk_distinct(nested: Seq<NestedCreate>)
    requires
        relations_valid(nested),
    ensures
        forall|j: int|
            0 <= j < children(nested).len() && (#[trigger] children(nested)[j]).2 ==> exists|r: int|
                0 <= r < nested.len() && (#[trigger] nested[r]).inlined_on_parent && nested[r].fk_field
                    == children(nested)[j].1,
        forall|j1: int, j2: int|
            0 <= j1 < children(nested).len() && 0 <= j2 < children(nested).len() && j1 != j2
                && (#[trigger] children(nested)[j1]).2 && (#[trigger] children(nested)[j2]).2 ==> children(nested)[j1].1
                != children(nested)[j2].1,
    decreases nested.len(),
{
    if nested.len() > 0 {
        let d = nested.drop_last();
        let last = nested.last();
        assert forall|r: int| 0 <= r < d.len() && (#[trigger] d[r]).inlined_on_parent implies d[r].items.len() == 1 by {
            assert(d[r] == nested[r]);
        }
        assert forall|r: int, q: int|
            0 <= q < r < d.len() && (#[trigger] d[r]).inlined_on_parent && (#[trigger] d[q]).inlined_on_parent
                implies d[r].fk_field != d[q].fk_field by {
            assert(d[r] == nested[r] && d[q] == nested[q]);
        }
        lemma_children_fk_distinct(d);
        let cd = children(d);
        let rc = relation_children(last);
        let ch = children(nested);
        assert(ch == cd + rc);
        assert(last == nested[nested.len() - 1]);
        assert forall|j: int| 0 <= j < ch.len() && (#[trigger] ch[j]).2 implies exists|r: int|
            0 <= r < nested.len() && (#[trigger] nested[r]).inlined_on_parent && nested[r].fk_field == ch[j].1 by {
            if j < cd.len() {
                assert(ch[j] == cd[j]);
                let r = choose|r: int| 0 <= r < d.len() && (#[trigger] d[r]).inlined_on_parent && d[r].fk_field == cd[j].1;
                assert(nested[r] == d[r]);
            } else {
                assert(ch[j] == rc[j - cd.len()]);
                assert(nested[nested.len() - 1].inlined_on_parent);
            }
        }
        assert forall|j1: int, j2: int|
            0 <= j1 < ch.len() && 0 <= j2 < ch.len() && j1 != j2 && (#[trigger] ch[j1]).2 && (#[trigger] ch[j2]).2
                implies ch[j1].1 != ch[j2].1 by {
            if j1 < cd.len() && j2 < cd.len() {
                assert(ch[j1] == cd[j1] && ch[j2] == cd[j2]);
            } else if j1 >= cd.len() && j2 >= cd.len() {
                assert(ch[j1] == rc[j1 - cd.len()]);
                assert(last.inlined_on_parent);
                assert(rc.len() == 1);
            } else {
                let (a, b) = if j1 < cd.len() { (j1, j2) } else { (j2, j1) };
                assert(ch[a] == cd[a]);
                assert(ch[b] == rc[b - cd.len()]);
                let r = choose|r: int| 0 <= r < d.len() && (#[trigger] d[r]).inlined_on_parent && d[r].fk_field == cd[a].1;
                assert(nested[r] == d[r]);
                assert(nested[nested.len() - 1].inlined_on_parent);
                assert(nested[nested.len() - 1].fk_field != nested[r].fk_field);
            }
        }
    }
}

/// A nested create with valid relations gives no field of any node two writers.
pub proof fn lemma_create_shape_single_writer(old: QueryGraph, new: QueryGraph, model: u64, data: CreateData)
    requires
        old.wf(),
        create_shape(old, new, model, data),
        relations_valid(data.nested@),
        single_writer(old.edges@),
    ensures
        single_writer(new.edges@),
{
    let ch = children(data.nested@);
    let base = old.nodes.len();
    let oe = old.edges.len() as int;
    let edges = new.edges@;
    lemma_children_fk_distinct(data.nested@);
    assert forall|k: int| 0 <= k < edges.len() implies (k < oe ==> (#[trigger] edges[k]).to < base && edges[k] == old.edges@[k])
        && (k >= oe ==> edges[k] == child_edge(base, (base + 1 + (k - oe)) as usize, ch[k - oe])) by {
        if k < oe {
            assert(edges[k] == new.edges@.subrange(0, oe)[k]);
        } else {
            assert(edges[oe + (k - oe)] == child_edge(base, (base + 1 + (k - oe)) as usize, ch[k - oe]));
        }
    }
    assert forall|k1: int, k2: int|
        0 <= k1 < edges.len() && 0 <= k2 < edges.len() && k1 != k2 && (#[trigger] edges[k1]).to == (#[trigger] edges[k2]).to
            && written_field(edges[k1].dep) is Some implies written_field(edges[k1].dep) != written_field(edges[k2].dep) by {
        if k1 < oe && k2 < oe {
            assert(old.edges@[k1] == edges[k1] && old.edges@[k2] == edges[k2]);
        } else if k1 >= oe && k2 >= oe {
            let j1 = k1 - oe;
            let j2 = k2 - oe;
            assert(ch[j1].2 && ch[j2].2);
        }
    }
}

/// Adds the create node of a record of `model`, and for every nested record
/// a create node linked to it by an edge that carries the identifier of the
/// record holding the foreign key into the other's foreign-key argument. A
/// to-many relation fans out into one node per record.
pub fn create_record_node(graph: &mut QueryGraph, model: u64, data: &CreateData) -> (r: QueryBuilderResult<NodeRef>)
    requires
        old(graph).wf(),
    ensures
        final(graph).wf(),
        r is Ok <==> relations_valid(data.nested@),
        r is Err ==> *final(graph) == *old(graph) && is_shape_error(r->Err_0),
        r is Ok ==> r->Ok_0.id == old(graph).nodes.len() && create_shape(*old(graph), *final(graph), model, *data),
        r is Ok && single_writer(old(graph).edges@) ==> single_writer(final(graph).edges@),
{
    match validate_relations(&data.nested) {
        Err(e) => {
            return Err(e);
        },
        Ok(()) => {},
    }
    let ghost g0 = *graph;
    let q = Query::with_args(QueryKind::Create, model, &data.args);
    let node = graph.create_node(q);
    let base = node.id;
    let ghost nested = data.nested@;
    let mut r: usize = 0;
    assert(nested.subrange(0, 0) =~= Seq::<NestedCreate>::empty());
    assert(graph.nodes@.subrange(0, base as int) =~= g0.nodes@);
    assert(graph.edges@.subrange(0, g0.edges.len() as int) =~= g0.edges@);
    while r < data.nested.len()
        invariant
            graph.wf(),
            nested == data.nested@,
            base == g0.nodes.len(),
            r <= nested.len(),
            graph.nodes.len() == base + 1 + children(nested.subrange(0, r as int)).len(),
            graph.nodes@.subrange(0, base as int) == g0.nodes@,
            is_create(graph.nodes@[base as int], model, data.args@),
            forall|j: int| 0 <= j < children(nested.subrange(0, r as int)).len() ==>
                is_create(#[trigger] graph.nodes@[base + 1 + j], children(nested.subrange(0, r as int))[j].0, children(nested.subrange(0, r as int))[j].3),
            graph.edges.len() == g0.edges.len() + children(nested.subrange(0, r as int)).len(),
            graph.edges@.subrange(0, g0.edges.len() as int) == g0.edges@,
            forall|j: int| 0 <= j < children(nested.subrange(0, r as int)).len() ==>
                #[trigger] graph.edges@[g0.edges.len() + j] == child_edge(base, (base + 1 + j) as usize, children(nested.subrange(0, r as int))[j]),
            graph.result_nodes@ == g0.result_nodes@,
        decreases nested.len() - r,
    {
        let rel = &data.nested[r];
        let ghost prev = children(nested.subrange(0, r as int));
        let ghost rc = relation_children(*rel);
        assert(nested.subrange(0, r + 1).drop_last() =~= nested.subrange(0, r as int));
        assert(children(nested.subrange(0, r + 1)) == prev + rc);
        let mut i: usize = 0;
        assert(prev + rc.subrange(0, 0) =~= prev);
        while i < rel.items.len()
            invariant
                graph.wf(),
                base == g0.nodes.len(),
                rc == relation_children(*rel),
                i <= rel.items.len(),
                graph.nodes.len() == base + 1 + (prev + rc.subrange(0, i as int)).len(),
                graph.nodes@.subrange(0, base as int) == g0.nodes@,
                is_create(graph.nodes@[base as int], model, data.args@),
                forall|j: int| 0 <= j < (prev + rc.subrange(0, i as int)).len() ==>
                    is_create(#[trigger] graph.nodes@[base + 1 + j], (prev + rc.subrange(0, i as int))[j].0, (prev + rc.subrange(0, i as int))[j].3),
                graph.edges.len() == g0.edges.len() + (prev + rc.subrange(0, i as int)).len(),
                graph.edges@.subrange(0, g0.edges.len() as int) == g0.edges@,
                forall|j: int| 0 <= j < (prev + rc.subrange(0, i as int)).len() ==>
                    #[trigger] graph.edges@[g0.edges.len() + j] == child_edge(base, (base + 1 + j) as usize, (prev + rc.subrange(0, i as int))[j]),
                graph.result_nodes@ == g0.result_nodes@,
            decreases rel.items.len() - i,
        {
            let ghost before = *graph;
            let ghost cur = prev + rc.subrange(0, i as int);
            let ghost next = prev + rc.subrange(0, i + 1);
            assert(next =~= cur.push(rc[i as int]));
            create_child(graph, base, rel.model, rel.fk_field, rel.inlined_on_parent, &rel.items[i]);
            proof {
                assert(graph.nodes@.subrange(0, base as int) =~= before.nodes@.subrange(0, base as int));
                assert(graph.edges@.subrange(0, g0.edges.len() as int) =~= before.edges@.subrange(0, g0.edges.len() as int));
                assert forall|j: int| 0 <= j < next.len() implies is_create(#[trigger] graph.nodes@[base + 1 + j], next[j].0, next[j].3) by {
                    if j < cur.len() {
                        assert(graph.nodes@[base + 1 + j] == before.nodes@[base + 1 + j]);
                    }
                }
                assert forall|j: int| 0 <= j < next.len() implies #[trigger] graph.edges@[g0.edges.len() + j] == child_edge(base, (base + 1 + j) as usize, next[j]) by {
                    if j < cur.len() {
                        assert(graph.edges@[g0.edges.len() + j] == before.edges@[g0.edges.len() + j]);
                    }
                }
                assert(graph.nodes@[base as int] == before.nodes@[base as int]);
            }
            i = i + 1;
        }
        assert(rc.subrange(0, rel.items.len() as int) =~= rc);
        r = r + 1;
    }
    assert(nested.subrange(0, nested.len() as int) =~= nested);
    proof {
        if single_writer(g0.edges@) {
            lemma_create_shape_single_writer(g0, *graph, model, *data);
        }
    }
    Ok(node)
}


/// `q` reads one record of `model`, located by `args`.
pub open spec fn is_read(q: Query, model: u64, args: Seq<Arg>) -> bool {
    q.kind == QueryKind::ReadOne && q.model == model && q.args@ == args
}

/// A record of `model`, with identifier `locator`, to connect to a created
/// record; the connected record holds the foreign key `fk_field`.
#[derive(Clone, Copy, Debug, PartialEq, Eq, Structural)]
pub struct NestedConnect {
    pub model: u64,
    pub locator: u64,
    pub fk_field: u64,
}

/// No connect writes the parent's identifier into the identifier field,
/// which the located record's identifier already writes.
pub open spec fn connects_valid(cs: Seq<NestedConnect>) -> bool {
    forall|i: int| 0 <= i < cs.len() ==> (#[trigger] cs[i]).fk_field != ID_FIELD
}

/// The edge carrying the identifier found by the `i`-th lookup, placed
/// from `l` on, into its connect node.
pub open spec fn lookup_edge(l: usize, i: int) -> Edge {
    Edge { from: (l + 2 * i) as usize, to: (l + 2 * i + 1) as usize, dep: Dependency::ParentId { field: ID_FIELD } }
}

/// The edge carrying the identifier of `parent` into the `i`-th connect node.
pub open spec fn connect_edge(parent: usize, l: usize, i: int, fk_field: u64) -> Edge {
    Edge { from: parent, to: (l + 2 * i + 1) as usize, dep: Dependency::ParentId { field: fk_field } }
}

/// The `i`-th lookup and connect node, placed from `l` on, serve connect `c`.
pub open spec fn connect_nodes(nodes: Seq<Query>, l: usize, i: int, c: NestedConnect) -> bool {
    &&& is_query(nodes[l + 2 * i], QueryKind::ReadOne, c.model, seq![Arg { field: ID_FIELD, value: c.locator }])
    &&& is_query(nodes[l + 2 * i + 1], QueryKind::Connect, c.model, Seq::empty())
}

/// `new` is `old` plus, for each connect `cs[i]`, a lookup at
/// `old.nodes.len() + 2 * i` and a connect node right after it, linked to `parent`.
pub open spec fn connects_shape(old: QueryGraph, new: QueryGraph, parent: usize, cs: Seq<NestedConnect>) -> bool {
    let l = old.nodes.len();
    let oe = old.edges.len();
    &&& new.nodes.len() == l + 2 * cs.len()
    &&& new.nodes@.subrange(0, l as int) == old.nodes@
    &&& forall|i: int| 0 <= i < cs.len() ==> #[trigger] connect_nodes(new.nodes@, l, i, cs[i])
    &&& new.edges.len() == oe + 2 * cs.len()
    &&& new.edges@.subrange(0, oe as int) == old.edges@
    &&& forall|i: int|
        0 <= i < cs.len() ==> #[trigger] new.edges@[oe + 2 * i] == lookup_edge(l, i) && new.edges@[oe + 2 * i + 1] == connect_edge(parent, l, i, cs[i].fk_field)
    &&& new.result_nodes@ == old.result_nodes@
}

/// `new` is `old` plus a nested create of `data`, the connects `cs` linked
/// to the created record, and a follow-up read of the created record,
/// designated as a result node.
pub open spec fn create_record_shape(old: QueryGraph, new: QueryGraph, model: u64, data: CreateData, cs: Seq<NestedConnect>) -> bool {
    exists|mid: QueryGraph, linked: QueryGraph|
        {
            let read = linked.nodes.len();
            &&& #[trigger] create_shape(old, mid, model, data)
            &&& #[trigger] connects_shape(mid, linked, old.nodes.len(), cs)
            &&& new.nodes.len() == read + 1
            &&& new.nodes@.subrange(0, read as int) == linked.nodes@
            &&& is_read(new.nodes@[read as int], model, Seq::empty())
            &&& new.edges@ == linked.edges@.push(
                Edge { from: old.nodes.len(), to: read, dep: Dependency::ParentId { field: ID_FIELD } },
            )
            &&& new.result_nodes@ == old.result_nodes@.push(read)
        }
}

/// Checks that no connect names the identifier field as its foreign key.
pub fn validate_connects(cs: &Vec<NestedConnect>) -> (r: Result<(), QueryValidationError>)
    ensures
        r is Ok <==> connects_valid(cs@),
        r is Err ==> r == Err::<(), QueryValidationError>(QueryValidationError::ConflictingWrite),
{
    let mut i: usize = 0;
    while i < cs.len()
        invariant
            i <= cs.len(),
            forall|j: int| 0 <= j < i ==> (#[trigger] cs@[j]).fk_field != ID_FIELD,
        decreases cs.len() - i,
    {
        if cs[i].fk_field == ID_FIELD {
            return Err(QueryValidationError::ConflictingWrite);
        }
        i = i + 1;
    }
    Ok(())
}

/// Adds a nested create of `data` on `model`, the nested connects `cs`
/// (each a lookup of the record to connect and a connect node that receives
/// its identifier and the created record's), and a follow-up read of the
/// created record, located by its new identifier; the read is a result node.
pub fn create_record(graph: &mut QueryGraph, model: u64, data: &CreateData, cs: &Vec<NestedConnect>) -> (r: QueryBuilderResult<()>)
    requires
        old(graph).wf(),
    ensures
        final(graph).wf(),
        r is Ok <==> relations_valid(data.nested@) && connects_valid(cs@),
        r is Err ==> *final(graph) == *old(graph) && (is_shape_error(r->Err_0) || r->Err_0 is ConflictingWrite),
        r is Ok ==> create_record_shape(*old(graph), *final(graph), model, *data, cs@),
        r is Ok && single_writer(old(graph).edges@) ==> single_writer(final(graph).edges@),
{
    validate_relations(&data.nested)?;
    validate_connects(cs)?;
    let create_node = create_record_node(graph, model, data)?;
    let ghost mid = *graph;
    let l = graph.nodes.len();
    let mut i: usize = 0;
    assert(graph.nodes@.subrange(0, l as int) =~= mid.nodes@);
    assert(graph.edges@.subrange(0, mid.edges.len() as int) =~= mid.edges@);
    while i < cs.len()
        invariant
            graph.wf(),
            create_node.id < l,
            l == mid.nodes.len(),
            i <= cs.len(),
            connects_valid(cs@),
            graph.nodes.len() == l + 2 * i,
            graph.nodes@.subrange(0, l as int) == mid.nodes@,
            forall|j: int| 0 <= j < i ==> #[trigger] connect_nodes(graph.nodes@, l, j, cs@[j]),
            graph.edges.len() == mid.edges.len() + 2 * i,
            graph.edges@.subrange(0, mid.edges.len() as int) == mid.edges@,
            forall|j: int|
                0 <= j < i ==> #[trigger] graph.edges@[mid.edges.len() + 2 * j] == lookup_edge(l, j) && graph.edges@[mid.edges.len() + 2 * j + 1] == connect_edge(create_node.id, l, j, cs@[j].fk_field),
            graph.result_nodes@ == mid.result_nodes@,
            single_writer(mid.edges@) ==> single_writer(graph.edges@),
        decreases cs.len() - i,
    {
        let ghost before = *graph;
        let c = cs[i];
        assert(cs@[i as int].fk_field != ID_FIELD);
        match link_records(graph, create_node, QueryKind::Connect, c.model, c.locator, c.fk_field) {
            Err(e) => {
                return Err(e);
            },
            Ok(_) => {},
        }
        proof {
            assert(graph.nodes@.subrange(0, l as int) =~= before.nodes@.subrange(0, l as int));
            assert(graph.edges@.subrange(0, mid.edges.len() as int) =~= before.edges@.subrange(0, mid.edges.len() as int));
            assert forall|j: int| 0 <= j < i + 1 implies #[trigger] connect_nodes(graph.nodes@, l, j, cs@[j]) by {
                if j < i {
                    let bl = before.nodes.len() as int;
                    assert(connect_nodes(before.nodes@, l, j, cs@[j]));
                    assert(graph.nodes@.subrange(0, bl) == before.nodes@);
                    assert(graph.nodes@.subrange(0, bl)[l + 2 * j] == graph.nodes@[l + 2 * j]);
                    assert(graph.nodes@.subrange(0, bl)[l + 2 * j + 1] == graph.nodes@[l + 2 * j + 1]);
                } else {
                    assert(l + 2 * j == before.nodes.len());
                    assert(c == cs@[j]);
                }
            }
            assert forall|j: int| 0 <= j < i + 1 implies #[trigger] graph.edges@[mid.edges.len() + 2 * j] == lookup_edge(l, j) && graph.edges@[mid.edges.len() + 2 * j + 1] == connect_edge(create_node.id, l, j, cs@[j].fk_field) by {
                if j < i {
                    assert(graph.edges@[mid.edges.len() + 2 * j] == before.edges@[mid.edges.len() + 2 * j]);
                    assert(graph.edges@[mid.edges.len() + 2 * j + 1] == before.edges@[mid.edges.len() + 2 * j + 1]);
                }
            }
        }
        i = i + 1;
    }
    let ghost linked = *graph;
    let read_query = ReadOneRecordBuilder { model, id: None }.query();
    let read_node = graph.create_node(read_query);
    proof {
        if reachable(graph.edges@, read_node.id, create_node.id) {
            lemma_no_outgoing(graph.edges@, read_node.id, create_node.id);
        }
    }
    match graph.create_edge(create_node, read_node, Dependency::ParentId { field: ID_FIELD }) {
        Err(e) => {
            return Err(QueryValidationError::Graph(e));
        },
        Ok(_) => {},
    }
    proof {
        if single_writer(linked.edges@) {
            lemma_single_writer_push(linked.edges@, Edge { from: create_node.id, to: read_node.id, dep: Dependency::ParentId { field: ID_FIELD } });
        }
    }
    graph.add_result_node(read_node);
    assert(graph.nodes@.subrange(0, linked.nodes.len() as int) =~= linked.nodes@);
    assert(create_shape(*old(graph), mid, model, *data));
    assert(connects_shape(mid, linked, old(graph).nodes.len(), cs@));
    Ok(())
}

/// The edge by which an existence check at `check` skips node `to` when it
/// finds a record.
pub open spec fn gate_edge(check: usize, to: usize) -> Edge {
    Edge { from: check, to, dep: Dependency::SkipIfFound }
}

/// `new` is `old` plus an upsert on `model` at identifier `locator`: the
/// create subgraph of `data` (nodes `old.nodes.len()` up to the check), an
/// existence check that skips every node of it when a record is found, an
/// update that runs only on the found record, and a trailing read, a result
/// node, fed by whichever branch ran.
pub open spec fn upsert_shape(
    old: QueryGraph,
    new: QueryGraph,
    model: u64,
    locator: u64,
    data: CreateData,
    update_args: Seq<Arg>,
) -> bool {
    exists|mid: QueryGraph|
        {
            let base = old.nodes.len();
            let check = mid.nodes.len();
            let e0 = mid.edges.len();
            let m = (check - base) as int;
            &&& #[trigger] create_shape(old, mid, model, data)
            &&& new.nodes.len() == check + 3
            &&& new.nodes@.subrange(0, check as int) == mid.nodes@
            &&& is_read(new.nodes@[check as int], model, seq![Arg { field: ID_FIELD, value: locator }])
            &&& new.nodes@[check + 1].kind == QueryKind::Update
            &&& new.nodes@[check + 1].model == model
            &&& new.nodes@[check + 1].args@ == update_args
            &&& is_read(new.nodes@[check + 2], model, Seq::empty())
            &&& new.edges.len() == e0 + m + 3
            &&& new.edges@.subrange(0, e0 as int) == mid.edges@
            &&& forall|j: int|
                0 <= j < m ==> #[trigger] new.edges@[e0 + j] == gate_edge(check, (base + j) as usize)
            &&& new.edges@[e0 + m] == Edge {
                from: check,
                to: (check + 1) as usize,
                dep: Dependency::IdOrSkip { field: ID_FIELD },
            }
            &&& new.edges@[e0 + m + 1] == Edge {
                from: base,
                to: (check + 2) as usize,
                dep: Dependency::ParentId { field: ID_FIELD },
            }
            &&& new.edges@[e0 + m + 2] == Edge {
                from: (check + 1) as usize,
                to: (check + 2) as usize,
                dep: Dependency::ParentId { field: ID_FIELD },
            }
            &&& new.result_nodes@ == old.result_nodes@.push((check + 2) as usize)
        }
}

/// Adds an upsert of the record of `model` with identifier `locator`:
/// creates it from `data` when it does not exist, else updates it with
/// `update_args`; returns the trailing read node.
pub fn upsert_record(
    graph: &mut QueryGraph,
    model: u64,
    locator: u64,
    data: &CreateData,
    update_args: &Vec<Arg>,
) -> (r: QueryBuilderResult<NodeRef>)
    requires
        old(graph).wf(),
    ensures
        final(graph).wf(),
        r is Ok <==> relations_valid(data.nested@),
        r is Err ==> *final(graph) == *old(graph) && is_shape_error(r->Err_0),
        r is Ok ==> upsert_shape(*old(graph), *final(graph), model, locator, *data, update_args@)
            && r->Ok_0.id + 1 == final(graph).nodes.len(),
        r is Ok && single_writer(old(graph).edges@) ==> single_writer_except(final(graph).edges@, r->Ok_0.id),
{
    let create_node = create_record_node(graph, model, data)?;
    let ghost mid = *graph;
    let base = create_node.id;
    let mut locator_args: Vec<Arg> = Vec::new();
    locator_args.push(Arg { field: ID_FIELD, value: locator });
    let check = graph.create_node(Query::with_args(QueryKind::ReadOne, model, &locator_args));
    let mut j: usize = base;
    while j < check.id
        invariant
            graph.wf(),
            base == old(graph).nodes.len(),
            check.id == mid.nodes.len(),
            base <= j <= check.id,
            graph.nodes@ == mid.nodes@.push(graph.nodes@[check.id as int]),
            is_read(graph.nodes@[check.id as int], model, seq![Arg { field: ID_FIELD, value: locator }]),
            graph.edges.len() == mid.edges.len() + (j - base),
            graph.edges@.subrange(0, mid.edges.len() as int) == mid.edges@,
            forall|i: int| 0 <= i < j - base ==> #[trigger] graph.edges@[mid.edges.len() + i] == gate_edge(check.id, (base + i) as usize),
            forall|k: int| 0 <= k < graph.edges.len() ==> (#[trigger] graph.edges@[k]).to != check.id,
            graph.result_nodes@ == mid.result_nodes@,
        decreases check.id - j,
    {
        let ghost before = *graph;
        proof {
            if reachable(graph.edges@, j, check.id) {
                lemma_no_incoming(graph.edges@, j, check.id);
            }
        }
        match graph.create_edge(check, NodeRef { id: j }, Dependency::SkipIfFound) {
            Err(e) => {
                return Err(QueryValidationError::Graph(e));
            },
            Ok(_) => {},
        }
        proof {
            assert(graph.edges@.subrange(0, mid.edges.len() as int) =~= before.edges@.subrange(0, mid.edges.len() as int));
            assert forall|i: int| 0 <= i < j + 1 - base implies #[trigger] graph.edges@[mid.edges.len() + i] == gate_edge(check.id, (base + i) as usize) by {
                if i < j - base {
                    assert(graph.edges@[mid.edges.len() + i] == before.edges@[mid.edges.len() + i]);
                }
            }
        }
        j = j + 1;
    }
    let ghost g1 = *graph;
    let update = graph.create_node(Query::with_args(QueryKind::Update, model, update_args));
    proof {
        if reachable(graph.edges@, update.id, check.id) {
            lemma_no_outgoing(graph.edges@, update.id, check.id);
        }
    }
    match graph.create_edge(check, update, Dependency::IdOrSkip { field: ID_FIELD }) {
        Err(e) => {
            return Err(QueryValidationError::Graph(e));
        },
        Ok(_) => {},
    }
    let read = graph.create_node(Query::new(QueryKind::ReadOne, model));
    proof {
        if reachable(graph.edges@, read.id, create_node.id) {
            lemma_no_outgoing(graph.edges@, read.id, create_node.id);
        }
    }
    match graph.create_edge(create_node, read, Dependency::ParentId { field: ID_FIELD }) {
        Err(e) => {
            return Err(QueryValidationError::Graph(e));
        },
        Ok(_) => {},
    }
    proof {
        if reachable(graph.edges@, read.id, update.id) {
            lemma_no_outgoing(graph.edges@, read.id, update.id);
        }
    }
    match graph.create_edge(update, read, Dependency::ParentId { field: ID_FIELD }) {
        Err(e) => {
            return Err(QueryValidationError::Graph(e));
        },
        Ok(_) => {},
    }
    graph.add_result_node(read);
    proof {
        let e0 = mid.edges.len();
        let m = (check.id - base) as int;
        assert(graph.nodes@.subrange(0, check.id as int) =~= mid.nodes@);
        assert(graph.edges@.subrange(0, e0 as int) =~= g1.edges@.subrange(0, e0 as int));
        assert forall|i: int| 0 <= i < m implies #[trigger] graph.edges@[e0 + i] == gate_edge(check.id, (base + i) as usize) by {
            assert(graph.edges@[e0 + i] == g1.edges@[e0 + i]);
        }
        assert(graph.nodes@[check.id as int] == g1.nodes@[check.id as int]);
        assert(create_shape(*old(graph), mid, model, *data));
        // Only the trailing read has two writers of one field: the create and
        // update branches, which exclude each other.
        if single_writer(old(graph).edges@) {
            lemma_create_shape_single_writer(*old(graph), mid, model, *data);
            let edges = graph.edges@;
            let ch = children(data.nested@);
            let oe = old(graph).edges.len() as int;
            assert forall|k: int| 0 <= k < e0 implies (#[trigger] edges[k]).to < check.id && edges[k] == mid.edges@[k] by {
                assert(edges[k] == mid.edges@[k]);
                if k < oe {
                    assert(mid.edges@[k] == mid.edges@.subrange(0, oe)[k]);
                } else {
                    assert(mid.edges@[oe + (k - oe)] == child_edge(base, (base + 1 + (k - oe)) as usize, ch[k - oe]));
                }
            }
            assert forall|k1: int, k2: int|
                0 <= k1 < edges.len() && 0 <= k2 < edges.len() && k1 != k2 && (#[trigger] edges[k1]).to == (#[trigger] edges[k2]).to
                    && edges[k1].to != read.id && written_field(edges[k1].dep) is Some implies written_field(edges[k1].dep)
                    != written_field(edges[k2].dep) by {
                if k1 >= e0 && k1 < e0 + m {
                    assert(edges[e0 + (k1 - e0)] == gate_edge(check.id, (base + (k1 - e0)) as usize));
                }
                if k2 >= e0 && k2 < e0 + m {
                    assert(edges[e0 + (k2 - e0)] == gate_edge(check.id, (base + (k2 - e0)) as usize));
                }
            }
        }
    }
    Ok(read)
}


/// `q` is a query of `kind` on `model` with arguments `args`.
pub open spec fn is_query(q: Query, kind: QueryKind, model: u64, args: Seq<Arg>) -> bool {
    q.kind == kind && q.model == model && q.args@ == args
}

/// Adds a write of `kind` on the record of `model` with identifier
/// `locator`; `args` follow the locator.
fn located_write(graph: &mut QueryGraph, kind: QueryKind, model: u64, locator: u64, args: &Vec<Arg>) -> (r: NodeRef)
    requires
        old(graph).wf(),
    ensures
        final(graph).wf(),
        r.id == old(graph).nodes.len(),
        final(graph).nodes.len() == old(graph).nodes.len() + 1,
        final(graph).nodes@.subrange(0, r.id as int) == old(graph).nodes@,
        is_query(final(graph).nodes@[r.id as int], kind, model, seq![Arg { field: ID_FIELD, value: locator }] + args@),
        final(graph).edges@ == old(graph).edges@,
        final(graph).result_nodes@ == old(graph).result_nodes@,
{
    let mut q = Query::new(kind, model);
    q.args.push(Arg { field: ID_FIELD, value: locator });
    let mut i: usize = 0;
    while i < args.len()
        invariant
            i <= args.len(),
            q.kind == kind,
            q.model == model,
            q.args@ == seq![Arg { field: ID_FIELD, value: locator }] + args@.subrange(0, i as int),
        decreases args.len() - i,
    {
        q.args.push(args[i]);
        i = i + 1;
        assert(q.args@ =~= seq![Arg { field: ID_FIELD, value: locator }] + args@.subrange(0, i as int));
    }
    assert(args@.subrange(0, args.len() as int) =~= args@);
    let ghost g0 = *graph;
    let r = graph.create_node(q);
    assert(graph.nodes@.subrange(0, r.id as int) =~= g0.nodes@);
    r
}

/// Adds an update of the record of `model` with identifier `locator`.
pub fn update_record(graph: &mut QueryGraph, model: u64, locator: u64, args: &Vec<Arg>) -> (r: NodeRef)
    requires
        old(graph).wf(),
    ensures
        final(graph).wf(),
        r.id == old(graph).nodes.len(),
        final(graph).nodes.len() == old(graph).nodes.len() + 1,
        final(graph).nodes@.subrange(0, r.id as int) == old(graph).nodes@,
        is_query(final(graph).nodes@[r.id as int], QueryKind::Update, model, seq![Arg { field: ID_FIELD, value: locator }] + args@),
        final(graph).edges@ == old(graph).edges@,
        final(graph).result_nodes@ == old(graph).result_nodes@,
{
    located_write(graph, QueryKind::Update, model, locator, args)
}

/// Adds a delete of the record of `model` with identifier `locator`.
pub fn delete_record(graph: &mut QueryGraph, model: u64, locator: u64) -> (r: NodeRef)
    requires
        old(graph).wf(),
    ensures
        final(graph).wf(),
        r.id == old(graph).nodes.len(),
        final(graph).nodes.len() == old(graph).nodes.len() + 1,
        final(graph).nodes@.subrange(0, r.id as int) == old(graph).nodes@,
        is_query(final(graph).nodes@[r.id as int], QueryKind::Delete, model, seq![Arg { field: ID_FIELD, value: locator }]),
        final(graph).edges@ == old(graph).edges@,
        final(graph).result_nodes@ == old(graph).result_nodes@,
{
    let none: Vec<Arg> = Vec::new();
    let r = located_write(graph, QueryKind::Delete, model, locator, &none);
    assert(seq![Arg { field: ID_FIELD, value: locator }] + none@ =~= seq![Arg { field: ID_FIELD, value: locator }]);
    r
}

/// Adds a write of `kind` on `model` scoped by the record that `lookup`
/// locates: the write receives the located identifier, and a lookup that
/// finds nothing fails the pass.
pub fn write_located_by(graph: &mut QueryGraph, lookup: NodeRef, kind: QueryKind, model: u64, args: &Vec<Arg>) -> (r: NodeRef)
    requires
        old(graph).wf(),
        lookup.id < old(graph).nodes.len(),
    ensures
        final(graph).wf(),
        r.id == old(graph).nodes.len(),
        final(graph).nodes.len() == old(graph).nodes.len() + 1,
        final(graph).nodes@.subrange(0, r.id as int) == old(graph).nodes@,
        is_query(final(graph).nodes@[r.id as int], kind, model, args@),
        final(graph).edges@ == old(graph).edges@.push(
            Edge { from: lookup.id, to: r.id, dep: Dependency::ParentId { field: ID_FIELD } },
        ),
        final(graph).result_nodes@ == old(graph).result_nodes@,
        single_writer(old(graph).edges@) ==> single_writer(final(graph).edges@),
{
    let ghost g0 = *graph;
    let r = graph.create_node(Query::with_args(kind, model, args));
    assert(graph.nodes@.subrange(0, r.id as int) =~= g0.nodes@);
    proof {
        if reachable(graph.edges@, r.id, lookup.id) {
            lemma_no_outgoing(graph.edges@, r.id, lookup.id);
        }
    }
    // The new node has no outgoing edge, so this edge closes no cycle.
    let _ = graph.create_edge(lookup, r, Dependency::ParentId { field: ID_FIELD });
    proof {
        if single_writer(g0.edges@) {
            lemma_single_writer_push(g0.edges@, Edge { from: lookup.id, to: r.id, dep: Dependency::ParentId { field: ID_FIELD } });
        }
    }
    r
}

/// The nodes and edges that a link adds: a lookup of the record of `model`
/// with identifier `locator`, then a write of `kind` that receives the
/// located identifier and, in `fk_field`, the identifier of `parent`.
pub open spec fn link_shape(
    old: QueryGraph,
    new: QueryGraph,
    parent: NodeRef,
    kind: QueryKind,
    model: u64,
    locator: u64,
    fk_field: u64,
) -> bool {
    let l = old.nodes.len();
    &&& new.nodes.len() == l + 2
    &&& new.nodes@.subrange(0, l as int) == old.nodes@
    &&& is_query(new.nodes@[l as int], QueryKind::ReadOne, model, seq![Arg { field: ID_FIELD, value: locator }])
    &&& is_query(new.nodes@[l + 1], kind, model, Seq::empty())
    &&& new.edges@ == old.edges@.push(Edge { from: l, to: (l + 1) as usize, dep: Dependency::ParentId { field: ID_FIELD } }).push(
        Edge { from: parent.id, to: (l + 1) as usize, dep: Dependency::ParentId { field: fk_field } },
    )
    &&& new.result_nodes@ == old.result_nodes@
}

/// Adds a lookup and a linking write of `kind` (connect or disconnect), as
/// `link_shape` says, and returns the linking node. A foreign-key field
/// equal to the identifier field would give that field two writers: it is
/// rejected, and the graph is left as it was.
fn link_records(graph: &mut QueryGraph, parent: NodeRef, kind: QueryKind, model: u64, locator: u64, fk_field: u64) -> (r: QueryBuilderResult<NodeRef>)
    requires
        old(graph).wf(),
        parent.id < old(graph).nodes.len(),
    ensures
        final(graph).wf(),
        r is Err <==> fk_field == ID_FIELD,
        r is Err ==> r == Err::<NodeRef, QueryValidationError>(QueryValidationError::ConflictingWrite) && *final(graph) == *old(graph),
        r is Ok ==> r->Ok_0.id == old(graph).nodes.len() + 1 && link_shape(*old(graph), *final(graph), parent, kind, model, locator, fk_field),
        r is Ok && single_writer(old(graph).edges@) ==> single_writer(final(graph).edges@),
{
    if fk_field == ID_FIELD {
        return Err(QueryValidationError::ConflictingWrite);
    }
    let ghost g0 = *graph;
    let none: Vec<Arg> = Vec::new();
    let lookup = located_write(graph, QueryKind::ReadOne, model, locator, &none);
    assert(seq![Arg { field: ID_FIELD, value: locator }] + none@ =~= seq![Arg { field: ID_FIELD, value: locator }]);
    let ghost g1 = *graph;
    let r = write_located_by(graph, lookup, kind, model, &none);
    let ghost g2 = *graph;
    proof {
        if reachable(graph.edges@, r.id, parent.id) {
            lemma_no_outgoing(graph.edges@, r.id, parent.id);
        }
    }
    // The linking node has no outgoing edge, so this edge closes no cycle.
    let _ = graph.create_edge(parent, r, Dependency::ParentId { field: fk_field });
    proof {
        assert(graph.nodes@.subrange(0, g0.nodes.len() as int) =~= g1.nodes@.subrange(0, g0.nodes.len() as int));
        assert(graph.nodes@[g0.nodes.len() as int] == g1.nodes@[g0.nodes.len() as int]);
        if single_writer(g0.edges@) {
            lemma_single_writer_push(g2.edges@, Edge { from: parent.id, to: r.id, dep: Dependency::ParentId { field: fk_field } });
        }
    }
    Ok(r)
}

/// Connects the record of `model` with identifier `locator` to the record
/// that `parent` writes; `link_shape` gives the nodes and edges added.
pub fn connect_records(graph: &mut QueryGraph, parent: NodeRef, model: u64, locator: u64, fk_field: u64) -> (r: QueryBuilderResult<NodeRef>)
    requires
        old(graph).wf(),
        parent.id < old(graph).nodes.len(),
    ensures
        final(graph).wf(),
        r is Err <==> fk_field == ID_FIELD,
        r is Err ==> r == Err::<NodeRef, QueryValidationError>(QueryValidationError::ConflictingWrite) && *final(graph) == *old(graph),
        r is Ok ==> r->Ok_0.id == old(graph).nodes.len() + 1 && link_shape(*old(graph), *final(graph), parent, QueryKind::Connect, model, locator, fk_field),
        r is Ok && single_writer(old(graph).edges@) ==> single_writer(final(graph).edges@),
{
    link_records(graph, parent, QueryKind::Connect, model, locator, fk_field)
}

/// Disconnects the record of `model` with identifier `locator` from the
/// record that `parent` writes; the nodes and edges mirror `connect_records`.
pub fn disconnect_records(graph: &mut QueryGraph, parent: NodeRef, model: u64, locator: u64, fk_field: u64) -> (r: QueryBuilderResult<NodeRef>)
    requires
        old(graph).wf(),
        parent.id < old(graph).nodes.len(),
    ensures
        final(graph).wf(),
        r is Err <==> fk_field == ID_FIELD,
        r is Err ==> r == Err::<NodeRef, QueryValidationError>(QueryValidationError::ConflictingWrite) && *final(graph) == *old(graph),
        r is Ok ==> r->Ok_0.id == old(graph).nodes.len() + 1 && link_shape(*old(graph), *final(graph), parent, QueryKind::Disconnect, model, locator, fk_field),
        r is Ok && single_writer(old(graph).edges@) ==> single_writer(final(graph).edges@),
{
    link_records(graph, parent, QueryKind::Disconnect, model, locator, fk_field)
}


/// `new` is `old` plus a connect-or-create under `parent`: an existence
/// check for the record of `model` with identifier `locator`, a create of
/// it from `args` that the check skips when it finds the record, and a
/// connect that the check skips when it does not; both receive the
/// parent's identifier in `fk_field`.
pub open spec fn connect_or_create_shape(
    old: QueryGraph,
    new: QueryGraph,
    parent: usize,
    model: u64,
    locator: u64,
    args: Seq<Arg>,
    fk_field: u64,
) -> bool {
    let c = old.nodes.len();
    &&& new.nodes.len() == c + 3
    &&& new.nodes@.subrange(0, c as int) == old.nodes@
    &&& is_read(new.nodes@[c as int], model, seq![Arg { field: ID_FIELD, value: locator }])
    &&& is_create(new.nodes@[c + 1], model, args)
    &&& is_query(new.nodes@[c + 2], QueryKind::Connect, model, Seq::empty())
    &&& new.edges@ == old.edges@.push(gate_edge(c, (c + 1) as usize)).push(
        Edge { from: c, to: (c + 2) as usize, dep: Dependency::IdOrSkip { field: ID_FIELD } },
    ).push(Edge { from: parent, to: (c + 1) as usize, dep: Dependency::ParentId { field: fk_field } }).push(
        Edge { from: parent, to: (c + 2) as usize, dep: Dependency::ParentId { field: fk_field } },
    )
    &&& new.result_nodes@ == old.result_nodes@
}

/// Adds a connect-or-create of the record of `model` with identifier
/// `locator` under `parent`, as `connect_or_create_shape` says; returns the
/// existence check. A foreign-key field equal to the identifier field would
/// give the connect two writers of one field: it is rejected, and the graph
/// is left as it was.
pub fn connect_or_create(
    graph: &mut QueryGraph,
    parent: NodeRef,
    model: u64,
    locator: u64,
    args: &Vec<Arg>,
    fk_field: u64,
) -> (r: QueryBuilderResult<NodeRef>)
    requires
        old(graph).wf(),
        parent.id < old(graph).nodes.len(),
    ensures
        final(graph).wf(),
        r is Err <==> fk_field == ID_FIELD,
        r is Err ==> r == Err::<NodeRef, QueryValidationError>(QueryValidationError::ConflictingWrite) && *final(graph) == *old(graph),
        r is Ok ==> r->Ok_0.id == old(graph).nodes.len() && connect_or_create_shape(
            *old(graph),
            *final(graph),
            parent.id,
            model,
            locator,
            args@,
            fk_field,
        ),
        r is Ok && single_writer(old(graph).edges@) ==> single_writer(final(graph).edges@),
{
    if fk_field == ID_FIELD {
        return Err(QueryValidationError::ConflictingWrite);
    }
    let ghost g0 = *graph;
    let check = graph.create_node(ReadOneRecordBuilder { model, id: Some(locator) }.query());
    let create = graph.create_node(Query::with_args(QueryKind::Create, model, args));
    let connect = graph.create_node(Query::new(QueryKind::Connect, model));
    let ghost g1 = *graph;
    // Each edge below enters a node without outgoing edges, so none closes a cycle.
    proof {
        if reachable(graph.edges@, create.id, check.id) {
            lemma_no_outgoing(graph.edges@, create.id, check.id);
        }
    }
    let _ = graph.create_edge(check, create, Dependency::SkipIfFound);
    proof {
        if reachable(graph.edges@, connect.id, check.id) {
            lemma_no_outgoing(graph.edges@, connect.id, check.id);
        }
    }
    let _ = graph.create_edge(check, connect, Dependency::IdOrSkip { field: ID_FIELD });
    proof {
        if reachable(graph.edges@, create.id, parent.id) {
            lemma_no_outgoing(graph.edges@, create.id, parent.id);
        }
    }
    let _ = graph.create_edge(parent, create, Dependency::ParentId { field: fk_field });
    proof {
        if reachable(graph.edges@, connect.id, parent.id) {
            lemma_no_outgoing(graph.edges@, connect.id, parent.id);
        }
    }
    let _ = graph.create_edge(parent, connect, Dependency::ParentId { field: fk_field });
    proof {
        assert(graph.nodes@.subrange(0, g0.nodes.len() as int) =~= g0.nodes@);
        assert(locator_args(Some(locator)) == seq![Arg { field: ID_FIELD, value: locator }]);
        if single_writer(g0.edges@) {
            let e1 = gate_edge(check.id, create.id);
            let e2 = Edge { from: check.id, to: connect.id, dep: Dependency::IdOrSkip { field: ID_FIELD } };
            let e3 = Edge { from: parent.id, to: create.id, dep: Dependency::ParentId { field: fk_field } };
            let e4 = Edge { from: parent.id, to: connect.id, dep: Dependency::ParentId { field: fk_field } };
            lemma_single_writer_push(g0.edges@, e1);
            lemma_single_writer_push(g0.edges@.push(e1), e2);
            lemma_single_writer_push(g0.edges@.push(e1).push(e2), e3);
            lemma_single_writer_push(g0.edges@.push(e1).push(e2).push(e3), e4);
        }
    }
    Ok(check)
}


/// The `i`-th lookup and connect node of a set, placed from `l` on, serve
/// the record with identifier `locator`.
pub open spec fn set_nodes(nodes: Seq<Query>, l: usize, i: int, model: u64, locator: u64) -> bool {
    &&& is_query(nodes[l + 2 * i], QueryKind::ReadOne, model, seq![Arg { field: ID_FIELD, value: locator }])
    &&& is_query(nodes[l + 2 * i + 1], QueryKind::Connect, model, Seq::empty())
}

/// The three edges of the `i`-th record of a set: the located identifier
/// and the parent's identifier into its connect node, and the ordering
/// after the disconnect at `d`.
pub open spec fn set_edges(edges: Seq<Edge>, e: int, parent: usize, d: usize, l: usize, i: int, fk_field: u64) -> bool {
    &&& edges[e + 3 * i] == lookup_edge(l, i)
    &&& edges[e + 3 * i + 1] == connect_edge(parent, l, i, fk_field)
    &&& edges[e + 3 * i + 2] == (Edge { from: d, to: (l + 2 * i + 1) as usize, dep: Dependency::Order })
}

/// `new` is `old` plus a set of the `model` records linked to `parent`
/// through `fk_field`: a disconnect of every record linked to the parent
/// (at `old.nodes.len()`), then for each identifier of `locators` a lookup
/// and a connect, ordered after the disconnect.
pub open spec fn set_shape(old: QueryGraph, new: QueryGraph, parent: usize, model: u64, fk_field: u64, locators: Seq<u64>) -> bool {
    let d = old.nodes.len();
    let l = (d + 1) as usize;
    let e = old.edges.len() + 1;
    &&& new.nodes.len() == d + 1 + 2 * locators.len()
    &&& new.nodes@.subrange(0, d as int) == old.nodes@
    &&& is_query(new.nodes@[d as int], QueryKind::Disconnect, model, Seq::empty())
    &&& forall|i: int| 0 <= i < locators.len() ==> #[trigger] set_nodes(new.nodes@, l, i, model, locators[i])
    &&& new.edges.len() == e + 3 * locators.len()
    &&& new.edges@.subrange(0, old.edges.len() as int) == old.edges@
    &&& new.edges@[old.edges.len() as int] == (Edge { from: parent, to: d, dep: Dependency::ParentId { field: fk_field } })
    &&& forall|i: int| 0 <= i < locators.len() ==> #[trigger] set_edges(new.edges@, e, parent, d, l, i, fk_field)
    &&& new.result_nodes@ == old.result_nodes@
}

/// Replaces the `model` records linked to `parent` through `fk_field` by
/// those with the identifiers `locators`, as `set_shape` says; returns the
/// disconnect node. A foreign-key field equal to the identifier field is
/// rejected, and the graph is left as it was.
pub fn set_relation(graph: &mut QueryGraph, parent: NodeRef, model: u64, fk_field: u64, locators: &Vec<u64>) -> (r: QueryBuilderResult<NodeRef>)
    requires
        old(graph).wf(),
        parent.id < old(graph).nodes.len(),
    ensures
        final(graph).wf(),
        r is Err <==> fk_field == ID_FIELD,
        r is Err ==> r == Err::<NodeRef, QueryValidationError>(QueryValidationError::ConflictingWrite) && *final(graph) == *old(graph),
        r is Ok ==> r->Ok_0.id == old(graph).nodes.len() && set_shape(*old(graph), *final(graph), parent.id, model, fk_field, locators@),
        r is Ok && single_writer(old(graph).edges@) ==> single_writer(final(graph).edges@),
{
    if fk_field == ID_FIELD {
        return Err(QueryValidationError::ConflictingWrite);
    }
    let ghost g0 = *graph;
    let d = graph.create_node(Query::new(QueryKind::Disconnect, model));
    proof {
        if reachable(graph.edges@, d.id, parent.id) {
            lemma_no_outgoing(graph.edges@, d.id, parent.id);
        }
    }
    let _ = graph.create_edge(parent, d, Dependency::ParentId { field: fk_field });
    proof {
        if single_writer(g0.edges@) {
            lemma_single_writer_push(g0.edges@, Edge { from: parent.id, to: d.id, dep: Dependency::ParentId { field: fk_field } });
        }
    }
    let ghost mid = *graph;
    let l = graph.nodes.len();
    let ghost e = mid.edges.len() as int;
    assert(graph.nodes@.subrange(0, l as int) =~= mid.nodes@);
    assert(graph.edges@.subrange(0, e) =~= mid.edges@);
    let mut i: usize = 0;
    while i < locators.len()
        invariant
            graph.wf(),
            parent.id < d.id,
            d.id + 1 == l,
            l == mid.nodes.len(),
            e == mid.edges.len(),
            fk_field != ID_FIELD,
            i <= locators.len(),
            graph.nodes.len() == l + 2 * i,
            graph.nodes@.subrange(0, l as int) == mid.nodes@,
            forall|j: int| 0 <= j < i ==> #[trigger] set_nodes(graph.nodes@, l, j, model, locators@[j]),
            graph.edges.len() == e + 3 * i,
            graph.edges@.subrange(0, e) == mid.edges@,
            forall|j: int| 0 <= j < i ==> #[trigger] set_edges(graph.edges@, e, parent.id, d.id, l, j, fk_field),
            graph.result_nodes@ == mid.result_nodes@,
            single_writer(mid.edges@) ==> single_writer(graph.edges@),
        decreases locators.len() - i,
    {
        let ghost before = *graph;
        let link = match link_records(graph, parent, QueryKind::Connect, model, locators[i], fk_field) {
            Err(err) => {
                return Err(err);
            },
            Ok(n) => n,
        };
        let ghost linked = *graph;
        proof {
            if reachable(graph.edges@, link.id, d.id) {
                lemma_no_outgoing(graph.edges@, link.id, d.id);
            }
        }
        let _ = graph.create_edge(d, link, Dependency::Order);
        proof {
            if single_writer(linked.edges@) {
                lemma_single_writer_push(linked.edges@, Edge { from: d.id, to: link.id, dep: Dependency::Order });
            }
            let bl = before.nodes.len() as int;
            let be = before.edges.len() as int;
            assert(graph.nodes@.subrange(0, l as int) =~= before.nodes@.subrange(0, l as int));
            assert(graph.edges@.subrange(0, e) =~= before.edges@.subrange(0, e));
            assert forall|j: int| 0 <= j < i + 1 implies #[trigger] set_nodes(graph.nodes@, l, j, model, locators@[j]) by {
                if j < i {
                    assert(set_nodes(before.nodes@, l, j, model, locators@[j]));
                    assert(graph.nodes@.subrange(0, bl) == before.nodes@);
                    assert(graph.nodes@.subrange(0, bl)[l + 2 * j] == graph.nodes@[l + 2 * j]);
                    assert(graph.nodes@.subrange(0, bl)[l + 2 * j + 1] == graph.nodes@[l + 2 * j + 1]);
                } else {
                    assert(l + 2 * j == bl);
                }
            }
            assert forall|j: int| 0 <= j < i + 1 implies #[trigger] set_edges(graph.edges@, e, parent.id, d.id, l, j, fk_field) by {
                if j < i {
                    assert(set_edges(before.edges@, e, parent.id, d.id, l, j, fk_field));
                    assert(graph.edges@[e + 3 * j] == before.edges@[e + 3 * j]);
                    assert(graph.edges@[e + 3 * j + 1] == before.edges@[e + 3 * j + 1]);
                    assert(graph.edges@[e + 3 * j + 2] == before.edges@[e + 3 * j + 2]);
                } else {
                    assert(e + 3 * j == be);
                }
            }
        }
        i = i + 1;
    }
    proof {
        assert(graph.nodes@.subrange(0, g0.nodes.len() as int) =~= mid.nodes@.subrange(0, g0.nodes.len() as int));
        assert(graph.edges@.subrange(0, g0.edges.len() as int) =~= mid.edges@.subrange(0, g0.edges.len() as int));
        assert(graph.nodes@[d.id as int] == mid.nodes@[d.id as int]);
        assert(graph.edges@[g0.edges.len() as int] == mid.edges@[g0.edges.len() as int]);
        assert(mid.nodes@.subrange(0, g0.nodes.len() as int) =~= g0.nodes@);
        assert(mid.edges@.subrange(0, g0.edges.len() as int) =~= g0.edges@);
        assert(graph.nodes@[d.id as int] == graph.nodes@.subrange(0, l as int)[d.id as int]);
        assert(graph.edges@[g0.edges.len() as int] == graph.edges@.subrange(0, e)[g0.edges.len() as int]);
        assert(((g0.nodes.len() + 1) as usize) == l);
        assert(g0.edges.len() + 1 == e);
    }
    Ok(d)
}

} // verus!
