use vstd::prelude::*;

verus! {

/// The field number that addresses a record's identifier.
pub const ID_FIELD: u64 = 0;

/// The primitive operation kinds a query node can perform.
#[derive(Clone, Copy, Debug, PartialEq, Eq, Structural)]
pub enum QueryKind {
    Create,
    Update,
    Delete,
    Connect,
    Disconnect,
    ReadOne,
    ReadMany,
}

/// One argument of a query: a value for a numbered field of the target model.
#[derive(Clone, Copy, Debug, PartialEq, Eq, Structural)]
pub struct Arg {
    pub field: u64,
    pub value: u64,
}

/// A pending primitive operation on one model.
#[derive(Clone, Debug)]
pub struct Query {
    pub kind: QueryKind,
    pub model: u64,
    pub args: Vec<Arg>,
}

/// What the store answers for one primitive operation.
#[derive(Clone, Copy, Debug, PartialEq, Eq, Structural)]
pub enum Reply {
    /// The identifier of the record written or found.
    Id(u64),
    /// The number of affected records.
    Count(u64),
    /// A lookup that located no record.
    NotFound,
}

/// The outcome of one node of a graph after execution.
#[derive(Clone, Copy, Debug, PartialEq, Eq, Structural)]
pub enum NodeResult {
    Done(Reply),
    /// The node was skipped and issued no storage call.
    NotPerformed,
}

/// The identifier carried by a reply, if any.
pub open spec fn reply_id(r: Reply) -> Option<u64> {
    match r {
        Reply::Id(x) => Some(x),
        _ => None,
    }
}

pub fn id_of(r: &Reply) -> (o: Option<u64>)
    ensures
        o == reply_id(*r),
{
    match r {
        Reply::Id(x) => Some(*x),
        _ => None,
    }
}

impl Query {
    pub open spec fn view_args(&self) -> Seq<Arg> {
        self.args@
    }

    /// A query of the given kind on `model` with no arguments yet.
    pub fn new(kind: QueryKind, model: u64) -> (q: Query)
        ensures
            q.kind == kind,
            q.model == model,
            q.args@ == Seq::<Arg>::empty(),
    {
        Query { kind, model, args: Vec::new() }
    }

    /// A query of the given kind on `model` with a copy of `args`.
    pub fn with_args(kind: QueryKind, model: u64, args: &Vec<Arg>) -> (q: Query)
        ensures
            q.kind == kind,
            q.model == model,
            q.args@ == args@,
    {
        let mut copy: Vec<Arg> = Vec::new();
        let mut i: usize = 0;
        while i < args.len()
            invariant
                i <= args.len(),
                copy@ == args@.subrange(0, i as int),
            decreases args.len() - i,
        {
            copy.push(args[i]);
            i = i + 1;
            assert(copy@ =~= args@.subrange(0, i as int));
        }
        assert(copy@ =~= args@);
        Query { kind, model, args: copy }
    }

    /// A copy of this query; the copy has the same kind, model and arguments.
    pub fn duplicate(&self) -> (q: Query)
        ensures
            q.kind == self.kind,
            q.model == self.model,
            q.args@ == self.args@,
    {
        Query::with_args(self.kind, self.model, &self.args)
    }
}

} // verus!
