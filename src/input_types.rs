use vstd::prelude::*;
use vstd::string::{StrSliceExecFns, StringExecFns};

verus! {

/// Which extras an order-by input object offers.
#[derive(Clone, Copy, Debug, PartialEq, Eq, Structural)]
pub struct OrderByOptions {
    pub include_relations: bool,
    pub include_scalar_aggregations: bool,
    pub include_full_text_search: bool,
}

impl Default for OrderByOptions {
    fn default() -> (o: Self)
        ensures
            !o.include_relations,
            !o.include_scalar_aggregations,
            !o.include_full_text_search,
    {
        OrderByOptions { include_relations: false, include_scalar_aggregations: false, include_full_text_search: false }
    }
}

/// The suffix of the order-by type name for a combination of options.
pub open spec fn suffix_of(o: OrderByOptions) -> Seq<char> {
    if o.include_relations && !o.include_scalar_aggregations && !o.include_full_text_search {
        "WithRelation"@
    } else if !o.include_relations && o.include_scalar_aggregations && !o.include_full_text_search {
        "WithAggregation"@
    } else if o.include_relations && !o.include_scalar_aggregations && o.include_full_text_search {
        "WithRelationAndSearchRelevance"@
    } else {
        ""@
    }
}

impl OrderByOptions {
    /// No extras.
    pub fn new() -> (o: Self)
        ensures
            !o.include_relations,
            !o.include_scalar_aggregations,
            !o.include_full_text_search,
    {
        OrderByOptions { include_relations: false, include_scalar_aggregations: false, include_full_text_search: false }
    }

    /// The same options, with scalar aggregations included.
    pub fn with_aggregates(self) -> (o: Self)
        ensures
            o.include_relations == self.include_relations,
            o.include_scalar_aggregations,
            o.include_full_text_search == self.include_full_text_search,
    {
        let mut o = self;
        o.include_scalar_aggregations = true;
        o
    }

    /// The suffix that tells the order-by type names of these options apart.
    pub fn type_suffix(&self) -> (s: &'static str)
        ensures
            s@ == suffix_of(*self),
    {
        proof {
            reveal_strlit("WithRelation");
            reveal_strlit("WithAggregation");
            reveal_strlit("WithRelationAndSearchRelevance");
            reveal_strlit("");
        }
        if self.include_relations && !self.include_scalar_aggregations && !self.include_full_text_search {
            "WithRelation"
        } else if !self.include_relations && self.include_scalar_aggregations && !self.include_full_text_search {
            "WithAggregation"
        } else if self.include_relations && !self.include_scalar_aggregations && self.include_full_text_search {
            "WithRelationAndSearchRelevance"
        } else {
            ""
        }
    }
}

/// The kind of value a scalar field holds, as far as ordering cares.
#[derive(Clone, Copy, Debug, PartialEq, Eq, Structural)]
pub enum ScalarType {
    Numeric,
    Json,
    Text,
    Other,
}

/// A field of a model or composite type, as the order-by builder sees it.
#[derive(Clone, Copy, Debug, PartialEq, Eq, Structural)]
pub enum ModelField {
    Relation { id: u64, is_list: bool },
    Scalar { id: u64, is_required: bool, is_list: bool, typ: ScalarType },
    Composite { id: u64, is_list: bool },
}

/// The input type that orders by one field.
#[derive(Clone, Copy, Debug, PartialEq, Eq, Structural)]
pub enum OrderByInput {
    /// Order by the number of related records or list elements
    /// (`composite` tells a composite list from a to-many relation).
    ToManyAggregate { field: u64, composite: bool },
    /// Order by the fields of the related record or composite value.
    Nested { field: u64, options: OrderByOptions },
    /// Order by the value itself; `nulls` adds the choice of where nulls go.
    Sort { field: u64, nulls: bool },
}

/// The order-by input for `field` under `options`, where `nulls_supported`
/// says that both the preview feature and the connector allow ordering nulls.
pub open spec fn order_by_input(field: ModelField, options: OrderByOptions, nulls_supported: bool) -> Option<OrderByInput> {
    match field {
        ModelField::Relation { id, is_list } => if !options.include_relations {
            None
        } else if is_list {
            Some(OrderByInput::ToManyAggregate { field: id, composite: false })
        } else {
            Some(OrderByInput::Nested { field: id, options })
        },
        ModelField::Scalar { id, is_required, is_list, .. } => Some(
            OrderByInput::Sort { field: id, nulls: nulls_supported && !is_required && !is_list },
        ),
        ModelField::Composite { id, is_list } => if is_list {
            Some(OrderByInput::ToManyAggregate { field: id, composite: true })
        } else {
            Some(
                OrderByInput::Nested {
                    field: id,
                    options: OrderByOptions {
                        include_relations: false,
                        include_scalar_aggregations: false,
                        include_full_text_search: false,
                    },
                },
            )
        },
    }
}

/// Maps one field to the input that orders by it, if it can be ordered by.
pub fn orderby_field_mapper(field: &ModelField, options: &OrderByOptions, nulls_supported: bool) -> (r: Option<
    OrderByInput,
>)
    ensures
        r == order_by_input(*field, *options, nulls_supported),
{
    match *field {
        ModelField::Relation { id, is_list } => {
            if !options.include_relations {
                None
            } else if is_list {
                Some(OrderByInput::ToManyAggregate { field: id, composite: false })
            } else {
                Some(OrderByInput::Nested { field: id, options: *options })
            }
        },
        ModelField::Scalar { id, is_required, is_list, .. } => Some(
            OrderByInput::Sort { field: id, nulls: nulls_supported && !is_required && !is_list },
        ),
        ModelField::Composite { id, is_list } => {
            if is_list {
                Some(OrderByInput::ToManyAggregate { field: id, composite: true })
            } else {
                Some(OrderByInput::Nested { field: id, options: OrderByOptions::new() })
            }
        },
    }
}

/// What `char::to_uppercase` yields for a character.
pub uninterp spec fn upper_of(c: char) -> Seq<char>;

/// Relies on `char::to_uppercase`: the upper-case mapping of one character,
/// which depends on the character alone.
#[verifier::external_body]
fn uppercase_char(c: char) -> (r: String)
    ensures
        r@ == upper_of(c),
{
    c.to_uppercase().collect::<String>()
}

/// `s` with its first character in upper case.
pub open spec fn capitalized(s: Seq<char>) -> Seq<char> {
    if s.len() == 0 {
        s
    } else {
        upper_of(s[0]) + s.subrange(1, s.len() as int)
    }
}

/// Puts the first character of `s` in upper case.
pub fn capitalize(s: &str) -> (r: String)
    ensures
        r@ == capitalized(s@),
{
    let n = s.unicode_len();
    if n == 0 {
        proof {
            reveal_strlit("");
        }
        let r = <String as StringExecFns>::from_str("");
        assert(r@ =~= s@);
        return r;
    }
    let mut r = uppercase_char(s.get_char(0));
    r.append(s.substring_char(1, n));
    r
}

/// A field of a nested upsert input object.
#[derive(Clone, Copy, Debug, PartialEq, Eq, Structural)]
pub enum UpsertField {
    Where,
    Update,
    Create,
}

/// The shape of a nested upsert input object type.
pub struct UpsertInput {
    pub name: String,
    /// Whether the object picks its record with a unique filter (to-many
    /// relations) rather than holding the one related record.
    pub with_where_unique: bool,
    pub fields: Vec<UpsertField>,
}

/// The fields of the nested upsert input of a relation, or `None` where no
/// such input exists: the related records cannot be created, or a to-many
/// relation has no unique filter.
pub open spec fn upsert_fields(
    is_list: bool,
    where_unique_empty: bool,
    create_types_empty: bool,
    extended_where_unique: bool,
) -> Option<Seq<UpsertField>> {
    if is_list {
        if where_unique_empty || create_types_empty {
            None
        } else {
            Some(seq![UpsertField::Where, UpsertField::Update, UpsertField::Create])
        }
    } else if create_types_empty {
        None
    } else if extended_where_unique {
        Some(seq![UpsertField::Update, UpsertField::Create, UpsertField::Where])
    } else {
        Some(seq![UpsertField::Update, UpsertField::Create])
    }
}

/// `<Related>UpsertWithWhereUniqueWithout<Field>Input` for a to-many
/// relation, `<Related>UpsertWithout<Field>Input` otherwise, where `Field`
/// is the back-relation field's name, capitalized.
pub open spec fn upsert_type_name(is_list: bool, related_model: Seq<char>, related_field: Seq<char>) -> Seq<char> {
    related_model + (if is_list {
        "UpsertWithWhereUniqueWithout"@
    } else {
        "UpsertWithout"@
    }) + capitalized(related_field) + "Input"@
}

/// Builds the nested upsert input object of a relation field whose related
/// model is `related_model` and whose back-relation field is `related_field`.
pub fn nested_upsert_input_object(
    is_list: bool,
    where_unique_empty: bool,
    create_types_empty: bool,
    extended_where_unique: bool,
    related_model: &str,
    related_field: &str,
) -> (r: Option<UpsertInput>)
    ensures
        r is None <==> upsert_fields(is_list, where_unique_empty, create_types_empty, extended_where_unique) is None,
        r matches Some(u) ==> u.with_where_unique == is_list && Some(u.fields@) == upsert_fields(
            is_list,
            where_unique_empty,
            create_types_empty,
            extended_where_unique,
        ) && u.name@ == upsert_type_name(is_list, related_model@, related_field@),
{
    if is_list {
        if where_unique_empty || create_types_empty {
            return None;
        }
    } else if create_types_empty {
        return None;
    }
    let mut name = <String as StringExecFns>::from_str(related_model);
    if is_list {
        name.append("UpsertWithWhereUniqueWithout");
    } else {
        name.append("UpsertWithout");
    }
    let field = capitalize(related_field);
    name.append(field.as_str());
    name.append("Input");
    if is_list {
        let fields = vec![UpsertField::Where, UpsertField::Update, UpsertField::Create];
        Some(UpsertInput { name, with_where_unique: true, fields })
    } else {
        let mut fields = vec![UpsertField::Update, UpsertField::Create];
        if extended_where_unique {
            fields.push(UpsertField::Where);
        }
        Some(UpsertInput { name, with_where_unique: false, fields })
    }
}

/// A model or composite type whose records can be ordered.
pub struct Container {
    pub name: String,
    pub composite: bool,
    pub fields: Vec<ModelField>,
}

/// An aggregation that records can be ordered by.
#[derive(Clone, Copy, Debug, PartialEq, Eq, Structural)]
pub enum AggregateOp {
    Count,
    Avg,
    Max,
    Min,
    Sum,
}

/// Which scalar fields an aggregation applies to.
pub open spec fn aggregates_field(op: AggregateOp, f: ModelField) -> bool {
    match f {
        ModelField::Scalar { is_list, typ, .. } => match op {
            AggregateOp::Count => true,
            AggregateOp::Avg | AggregateOp::Sum => typ == ScalarType::Numeric,
            AggregateOp::Max | AggregateOp::Min => !is_list && typ != ScalarType::Json,
        },
        _ => false,
    }
}

/// The identifiers of the fields of `fs` that `op` applies to, in order.
pub open spec fn aggregated_fields(fs: Seq<ModelField>, op: AggregateOp) -> Seq<u64>
    decreases fs.len(),
{
    if fs.len() == 0 {
        Seq::empty()
    } else {
        let prev = aggregated_fields(fs.drop_last(), op);
        if aggregates_field(op, fs.last()) {
            prev.push(field_id(fs.last()))
        } else {
            prev
        }
    }
}

pub open spec fn field_id(f: ModelField) -> u64 {
    match f {
        ModelField::Relation { id, .. } => id,
        ModelField::Scalar { id, .. } => id,
        ModelField::Composite { id, .. } => id,
    }
}

/// The text scalar fields of `fs`, which relevance ordering ranks by.
pub open spec fn text_fields(fs: Seq<ModelField>) -> Seq<u64>
    decreases fs.len(),
{
    if fs.len() == 0 {
        Seq::empty()
    } else {
        let prev = text_fields(fs.drop_last());
        if fs.last() matches ModelField::Scalar { typ: ScalarType::Text, .. } {
            prev.push(field_id(fs.last()))
        } else {
            prev
        }
    }
}

/// Ordering by one aggregation over the listed fields.
pub struct AggregateInput {
    pub op: AggregateOp,
    pub fields: Vec<u64>,
}

pub open spec fn aggregate_view(a: AggregateInput) -> (AggregateOp, Seq<u64>) {
    (a.op, a.fields@)
}

pub open spec fn aggregate_entry(fs: Seq<ModelField>, op: AggregateOp) -> Seq<(AggregateOp, Seq<u64>)> {
    if aggregated_fields(fs, op).len() == 0 {
        Seq::empty()
    } else {
        seq![(op, aggregated_fields(fs, op))]
    }
}

/// The aggregation orderings of a container: count, average, maximum,
/// minimum and sum, each only where some field admits it.
pub open spec fn aggregation_inputs(fs: Seq<ModelField>) -> Seq<(AggregateOp, Seq<u64>)> {
    aggregate_entry(fs, AggregateOp::Count) + aggregate_entry(fs, AggregateOp::Avg) + aggregate_entry(fs, AggregateOp::Max)
        + aggregate_entry(fs, AggregateOp::Min) + aggregate_entry(fs, AggregateOp::Sum)
}

pub fn aggregates(op: AggregateOp, f: &ModelField) -> (r: bool)
    ensures
        r == aggregates_field(op, *f),
{
    match *f {
        ModelField::Scalar { is_list, typ, .. } => match op {
            AggregateOp::Count => true,
            AggregateOp::Avg | AggregateOp::Sum => typ == ScalarType::Numeric,
            AggregateOp::Max | AggregateOp::Min => !is_list && typ != ScalarType::Json,
        },
        _ => false,
    }
}

pub fn id_of_field(f: &ModelField) -> (id: u64)
    ensures
        id == field_id(*f),
{
    match *f {
        ModelField::Relation { id, .. } => id,
        ModelField::Scalar { id, .. } => id,
        ModelField::Composite { id, .. } => id,
    }
}

/// The fields of `fields` that `op` applies to.
pub fn collect_aggregated(fields: &Vec<ModelField>, op: AggregateOp) -> (r: Vec<u64>)
    ensures
        r@ == aggregated_fields(fields@, op),
{
    let mut r: Vec<u64> = Vec::new();
    let mut i: usize = 0;
    while i < fields.len()
        invariant
            i <= fields.len(),
            r@ == aggregated_fields(fields@.subrange(0, i as int), op),
        decreases fields.len() - i,
    {
        assert(fields@.subrange(0, i + 1).drop_last() =~= fields@.subrange(0, i as int));
        if aggregates(op, &fields[i]) {
            r.push(id_of_field(&fields[i]));
        }
        i = i + 1;
    }
    assert(fields@.subrange(0, fields.len() as int) =~= fields@);
    r
}

/// The text scalar fields of `fields`.
pub fn collect_text_fields(fields: &Vec<ModelField>) -> (r: Vec<u64>)
    ensures
        r@ == text_fields(fields@),
{
    let mut r: Vec<u64> = Vec::new();
    let mut i: usize = 0;
    while i < fields.len()
        invariant
            i <= fields.len(),
            r@ == text_fields(fields@.subrange(0, i as int)),
        decreases fields.len() - i,
    {
        assert(fields@.subrange(0, i + 1).drop_last() =~= fields@.subrange(0, i as int));
        if let ModelField::Scalar { id, typ: ScalarType::Text, .. } = fields[i] {
            r.push(id);
        }
        i = i + 1;
    }
    assert(fields@.subrange(0, fields.len() as int) =~= fields@);
    r
}

/// The ordering by `op` over the fields it applies to, if there is any.
pub fn order_by_field_aggregate(op: AggregateOp, fields: &Vec<ModelField>) -> (r: Option<AggregateInput>)
    ensures
        r is None <==> aggregated_fields(fields@, op).len() == 0,
        r matches Some(a) ==> aggregate_view(a) == (op, aggregated_fields(fields@, op)),
{
    let selected = collect_aggregated(fields, op);
    if selected.len() == 0 {
        None
    } else {
        Some(AggregateInput { op, fields: selected })
    }
}

/// The aggregation orderings that `container` admits.
pub fn compute_scalar_aggregation_fields(container: &Container) -> (r: Vec<AggregateInput>)
    ensures
        r@.map_values(|a: AggregateInput| aggregate_view(a)) == aggregation_inputs(container.fields@),
{
    let ops = [AggregateOp::Count, AggregateOp::Avg, AggregateOp::Max, AggregateOp::Min, AggregateOp::Sum];
    let ghost fs = container.fields@;
    let ghost opss = seq![AggregateOp::Count, AggregateOp::Avg, AggregateOp::Max, AggregateOp::Min, AggregateOp::Sum];
    assert(ops@ == opss);
    let mut r: Vec<AggregateInput> = Vec::new();
    let mut i: usize = 0;
    while i < 5
        invariant
            i <= 5,
            ops@ == opss,
            fs == container.fields@,
            r@.map_values(|a: AggregateInput| aggregate_view(a)) == aggregates_upto(fs, opss, i as int),
        decreases 5 - i,
    {
        let op = ops[i];
        let ghost before = r@;
        match order_by_field_aggregate(op, &container.fields) {
            Some(a) => {
                r.push(a);
                assert(r@.map_values(|a: AggregateInput| aggregate_view(a)) =~= before.map_values(|a: AggregateInput| aggregate_view(a)) + aggregate_entry(fs, op));
            },
            None => {
                assert(aggregate_entry(fs, op) =~= Seq::<(AggregateOp, Seq<u64>)>::empty());
                assert(before.map_values(|a: AggregateInput| aggregate_view(a)) + aggregate_entry(fs, op) =~= before.map_values(|a: AggregateInput| aggregate_view(a)));
            },
        }
        i = i + 1;
    }
    assert(opss[0] == AggregateOp::Count && opss[1] == AggregateOp::Avg && opss[2] == AggregateOp::Max);
    assert(opss[3] == AggregateOp::Min && opss[4] == AggregateOp::Sum);
    assert(aggregates_upto(fs, opss, 0) == Seq::<(AggregateOp, Seq<u64>)>::empty());
    assert(aggregates_upto(fs, opss, 1) =~= aggregate_entry(fs, AggregateOp::Count));
    assert(aggregates_upto(fs, opss, 2) == aggregates_upto(fs, opss, 1) + aggregate_entry(fs, AggregateOp::Avg));
    assert(aggregates_upto(fs, opss, 3) == aggregates_upto(fs, opss, 2) + aggregate_entry(fs, AggregateOp::Max));
    assert(aggregates_upto(fs, opss, 4) == aggregates_upto(fs, opss, 3) + aggregate_entry(fs, AggregateOp::Min));
    assert(aggregates_upto(fs, opss, 5) == aggregates_upto(fs, opss, 4) + aggregate_entry(fs, AggregateOp::Sum));
    r
}

/// The aggregation orderings for the first `n` operations of `ops`.
pub open spec fn aggregates_upto(fs: Seq<ModelField>, ops: Seq<AggregateOp>, n: int) -> Seq<(AggregateOp, Seq<u64>)>
    decreases n,
{
    if n <= 0 {
        Seq::empty()
    } else {
        aggregates_upto(fs, ops, n - 1) + aggregate_entry(fs, ops[n - 1])
    }
}


/// The order-by inputs of the plain fields of a container: composite fields
/// are left out where aggregations are on, and the rest map as
/// `order_by_input` says.
pub open spec fn basic_inputs(fs: Seq<ModelField>, options: OrderByOptions, nulls_supported: bool) -> Seq<OrderByInput>
    decreases fs.len(),
{
    if fs.len() == 0 {
        Seq::empty()
    } else {
        let prev = basic_inputs(fs.drop_last(), options, nulls_supported);
        let f = fs.last();
        if f is Composite && options.include_scalar_aggregations {
            prev
        } else {
            match order_by_input(f, options, nulls_supported) {
                Some(i) => prev.push(i),
                None => prev,
            }
        }
    }
}

/// An order-by input object type.
pub struct OrderByObject {
    pub name: String,
    /// Ordering by single fields.
    pub fields: Vec<OrderByInput>,
    /// Ordering by aggregations.
    pub aggregates: Vec<AggregateInput>,
    /// Ordering by search relevance over these text fields.
    pub relevance: Option<Vec<u64>>,
}

/// `<Container>OrderBy<Suffix>Input`.
pub fn order_by_type_name(container: &str, options: &OrderByOptions) -> (r: String)
    ensures
        r@ == container@ + "OrderBy"@ + suffix_of(*options) + "Input"@,
{
    let mut r = <String as StringExecFns>::from_str(container);
    r.append("OrderBy");
    r.append(options.type_suffix());
    r.append("Input");
    r
}

/// `<Container>OrderByRelationAggregateInput` or
/// `<Container>OrderByCompositeAggregateInput`.
pub fn to_many_aggregate_type_name(container: &str, composite: bool) -> (r: String)
    ensures
        r@ == container@ + "OrderBy"@ + (if composite {
            "Composite"@
        } else {
            "Relation"@
        }) + "AggregateInput"@,
{
    let mut r = <String as StringExecFns>::from_str(container);
    r.append("OrderBy");
    if composite {
        r.append("Composite");
    } else {
        r.append("Relation");
    }
    r.append("AggregateInput");
    r
}

pub open spec fn op_name(op: AggregateOp) -> Seq<char> {
    match op {
        AggregateOp::Count => "Count"@,
        AggregateOp::Avg => "Avg"@,
        AggregateOp::Max => "Max"@,
        AggregateOp::Min => "Min"@,
        AggregateOp::Sum => "Sum"@,
    }
}

/// `<Container><Op>OrderByAggregateInput`.
pub fn aggregate_type_name(container: &str, op: AggregateOp) -> (r: String)
    ensures
        r@ == container@ + op_name(op) + "OrderByAggregateInput"@,
{
    let mut r = <String as StringExecFns>::from_str(container);
    let suffix = match op {
        AggregateOp::Count => "Count",
        AggregateOp::Avg => "Avg",
        AggregateOp::Max => "Max",
        AggregateOp::Min => "Min",
        AggregateOp::Sum => "Sum",
    };
    proof {
        reveal_strlit("Count");
        reveal_strlit("Avg");
        reveal_strlit("Max");
        reveal_strlit("Min");
        reveal_strlit("Sum");
    }
    r.append(suffix);
    r.append("OrderByAggregateInput");
    r
}

/// `<Container>OrderByRelevanceInput`.
pub fn relevance_type_name(container: &str) -> (r: String)
    ensures
        r@ == container@ + "OrderByRelevanceInput"@,
{
    let mut r = <String as StringExecFns>::from_str(container);
    r.append("OrderByRelevanceInput");
    r
}

/// Relevance ordering over the text fields of `container`, if it has any.
pub fn order_by_field_text_search(container: &Container) -> (r: Option<Vec<u64>>)
    ensures
        r is None <==> text_fields(container.fields@).len() == 0,
        r matches Some(v) ==> v@ == text_fields(container.fields@),
{
    let fields = collect_text_fields(&container.fields);
    if fields.len() == 0 {
        None
    } else {
        Some(fields)
    }
}

/// Builds the `<Container>OrderBy<Suffix>Input` object type: one input per
/// orderable field, the aggregation orderings where `options` asks for
/// them, and relevance ordering where it asks for full-text search.
pub fn order_by_object_type(container: &Container, options: &OrderByOptions, nulls_supported: bool) -> (r: OrderByObject)
    ensures
        r.name@ == container.name@ + "OrderBy"@ + suffix_of(*options) + "Input"@,
        r.fields@ == basic_inputs(container.fields@, *options, nulls_supported),
        r.aggregates@.map_values(|a: AggregateInput| aggregate_view(a)) == if options.include_scalar_aggregations {
            aggregation_inputs(container.fields@)
        } else {
            Seq::empty()
        },
        r.relevance is Some <==> options.include_full_text_search && text_fields(container.fields@).len() > 0,
        r.relevance matches Some(v) ==> v@ == text_fields(container.fields@),
{
    let name = order_by_type_name(container.name.as_str(), options);
    let mut fields: Vec<OrderByInput> = Vec::new();
    let mut i: usize = 0;
    let ghost fs = container.fields@;
    while i < container.fields.len()
        invariant
            fs == container.fields@,
            i <= fs.len(),
            fields@ == basic_inputs(fs.subrange(0, i as int), *options, nulls_supported),
        decreases fs.len() - i,
    {
        assert(fs.subrange(0, i + 1).drop_last() =~= fs.subrange(0, i as int));
        let f = &container.fields[i];
        let excluded = match f {
            ModelField::Composite { .. } => options.include_scalar_aggregations,
            _ => false,
        };
        if !excluded {
            match orderby_field_mapper(f, options, nulls_supported) {
                Some(input) => fields.push(input),
                None => {},
            }
        }
        i = i + 1;
    }
    assert(fs.subrange(0, fs.len() as int) =~= fs);
    let aggregates = if options.include_scalar_aggregations {
        compute_scalar_aggregation_fields(container)
    } else {
        let v: Vec<AggregateInput> = Vec::new();
        assert(v@.map_values(|a: AggregateInput| aggregate_view(a)) =~= Seq::<(AggregateOp, Seq<u64>)>::empty());
        v
    };
    let relevance = if options.include_full_text_search {
        order_by_field_text_search(container)
    } else {
        None
    };
    OrderByObject { name, fields, aggregates, relevance }
}

} // verus!
