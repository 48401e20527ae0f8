use query_core::input_types::{
    aggregate_type_name, capitalize, compute_scalar_aggregation_fields, nested_upsert_input_object, order_by_field_aggregate,
    order_by_field_text_search, order_by_object_type, order_by_type_name, orderby_field_mapper, relevance_type_name,
    to_many_aggregate_type_name, AggregateOp, Container, ModelField, OrderByInput, OrderByOptions, ScalarType, UpsertField,
};

#[test]
fn type_suffix_per_options() {
    let none = OrderByOptions::new();
    assert_eq!(none.type_suffix(), "");
    assert_eq!(none.with_aggregates().type_suffix(), "WithAggregation");
    let rel = OrderByOptions { include_relations: true, ..OrderByOptions::new() };
    assert_eq!(rel.type_suffix(), "WithRelation");
    let search = OrderByOptions { include_full_text_search: true, ..rel };
    assert_eq!(search.type_suffix(), "WithRelationAndSearchRelevance");
    assert_eq!(rel.with_aggregates().type_suffix(), "");
    assert_eq!(OrderByOptions::default(), none);
}

#[test]
fn with_aggregates_sets_only_aggregations() {
    let o = OrderByOptions { include_relations: true, include_scalar_aggregations: false, include_full_text_search: true };
    let a = o.with_aggregates();
    assert!(a.include_scalar_aggregations);
    assert!(a.include_relations);
    assert!(a.include_full_text_search);
}

#[test]
fn field_mapper_cases() {
    let rel = OrderByOptions { include_relations: true, ..OrderByOptions::new() };
    let plain = OrderByOptions::new();
    let to_many = ModelField::Relation { id: 1, is_list: true };
    let to_one = ModelField::Relation { id: 2, is_list: false };
    assert_eq!(orderby_field_mapper(&to_many, &rel, false), Some(OrderByInput::ToManyAggregate { field: 1, composite: false }));
    assert_eq!(orderby_field_mapper(&to_one, &rel, false), Some(OrderByInput::Nested { field: 2, options: rel }));
    assert_eq!(orderby_field_mapper(&to_many, &plain, false), None);
    assert_eq!(orderby_field_mapper(&to_one, &plain, true), None);
    let optional = ModelField::Scalar { id: 3, is_required: false, is_list: false, typ: ScalarType::Other };
    let required = ModelField::Scalar { id: 4, is_required: true, is_list: false, typ: ScalarType::Other };
    assert_eq!(orderby_field_mapper(&optional, &plain, true), Some(OrderByInput::Sort { field: 3, nulls: true }));
    assert_eq!(orderby_field_mapper(&optional, &plain, false), Some(OrderByInput::Sort { field: 3, nulls: false }));
    assert_eq!(orderby_field_mapper(&required, &plain, true), Some(OrderByInput::Sort { field: 4, nulls: false }));
    let comp_list = ModelField::Composite { id: 5, is_list: true };
    let comp = ModelField::Composite { id: 6, is_list: false };
    assert_eq!(orderby_field_mapper(&comp_list, &rel, false), Some(OrderByInput::ToManyAggregate { field: 5, composite: true }));
    assert_eq!(orderby_field_mapper(&comp, &rel, false), Some(OrderByInput::Nested { field: 6, options: OrderByOptions::new() }));
}

#[test]
fn nested_upsert_input_shapes() {
    let list = nested_upsert_input_object(true, false, false, false, "Post", "author").unwrap();
    assert!(list.with_where_unique);
    assert_eq!(list.name, "PostUpsertWithWhereUniqueWithoutAuthorInput");
    assert_eq!(list.fields, vec![UpsertField::Where, UpsertField::Update, UpsertField::Create]);
    assert!(nested_upsert_input_object(true, true, false, false, "Post", "author").is_none());
    assert!(nested_upsert_input_object(true, false, true, false, "Post", "author").is_none());
    let single = nested_upsert_input_object(false, true, false, false, "Post", "author").unwrap();
    assert!(!single.with_where_unique);
    assert_eq!(single.name, "PostUpsertWithoutAuthorInput");
    assert_eq!(single.fields, vec![UpsertField::Update, UpsertField::Create]);
    let extended = nested_upsert_input_object(false, true, false, true, "Post", "author").unwrap();
    assert_eq!(extended.fields, vec![UpsertField::Update, UpsertField::Create, UpsertField::Where]);
    assert!(nested_upsert_input_object(false, false, true, true, "Post", "author").is_none());
}

fn sample_container() -> Container {
    Container {
        name: "User".to_string(),
        composite: false,
        fields: vec![
            ModelField::Scalar { id: 1, is_required: true, is_list: false, typ: ScalarType::Numeric },
            ModelField::Scalar { id: 2, is_required: false, is_list: false, typ: ScalarType::Text },
            ModelField::Scalar { id: 3, is_required: false, is_list: false, typ: ScalarType::Json },
            ModelField::Scalar { id: 4, is_required: true, is_list: true, typ: ScalarType::Numeric },
            ModelField::Relation { id: 5, is_list: true },
            ModelField::Composite { id: 6, is_list: false },
        ],
    }
}

#[test]
fn type_names() {
    let rel = OrderByOptions { include_relations: true, ..OrderByOptions::new() };
    assert_eq!(order_by_type_name("User", &rel), "UserOrderByWithRelationInput");
    assert_eq!(order_by_type_name("Post", &OrderByOptions::new()), "PostOrderByInput");
    assert_eq!(to_many_aggregate_type_name("Post", false), "PostOrderByRelationAggregateInput");
    assert_eq!(to_many_aggregate_type_name("Address", true), "AddressOrderByCompositeAggregateInput");
    assert_eq!(aggregate_type_name("User", AggregateOp::Avg), "UserAvgOrderByAggregateInput");
    assert_eq!(aggregate_type_name("User", AggregateOp::Count), "UserCountOrderByAggregateInput");
    assert_eq!(relevance_type_name("User"), "UserOrderByRelevanceInput");
}

#[test]
fn aggregation_fields_per_operation() {
    let c = sample_container();
    let aggs = compute_scalar_aggregation_fields(&c);
    let got: Vec<(AggregateOp, Vec<u64>)> = aggs.iter().map(|a| (a.op, a.fields.clone())).collect();
    assert_eq!(
        got,
        vec![
            (AggregateOp::Count, vec![1, 2, 3, 4]),
            (AggregateOp::Avg, vec![1, 4]),
            (AggregateOp::Max, vec![1, 2]),
            (AggregateOp::Min, vec![1, 2]),
            (AggregateOp::Sum, vec![1, 4]),
        ]
    );
    let no_scalars = Container { name: "E".to_string(), composite: true, fields: vec![ModelField::Relation { id: 1, is_list: false }] };
    assert!(compute_scalar_aggregation_fields(&no_scalars).is_empty());
    assert!(order_by_field_aggregate(AggregateOp::Sum, &no_scalars.fields).is_none());
}

#[test]
fn order_by_object_with_all_extras() {
    let c = sample_container();
    let aggs = OrderByOptions::new().with_aggregates();
    let o = order_by_object_type(&c, &aggs, false);
    assert_eq!(o.name, "UserOrderByWithAggregationInput");
    // The composite field is left out under aggregations; the relation without relations on.
    assert_eq!(o.fields.len(), 4);
    assert_eq!(o.aggregates.len(), 5);
    assert!(o.relevance.is_none());
    let search = OrderByOptions { include_relations: true, include_scalar_aggregations: false, include_full_text_search: true };
    let o = order_by_object_type(&c, &search, true);
    assert_eq!(o.name, "UserOrderByWithRelationAndSearchRelevanceInput");
    assert_eq!(o.fields.len(), 6);
    assert_eq!(o.fields[1], OrderByInput::Sort { field: 2, nulls: true });
    assert_eq!(o.fields[4], OrderByInput::ToManyAggregate { field: 5, composite: false });
    assert_eq!(o.fields[5], OrderByInput::Nested { field: 6, options: OrderByOptions::new() });
    assert!(o.aggregates.is_empty());
    assert_eq!(o.relevance, Some(vec![2]));
    assert_eq!(order_by_field_text_search(&c), Some(vec![2]));
}

#[test]
fn capitalize_first_character() {
    assert_eq!(capitalize("author"), "Author");
    assert_eq!(capitalize("éclair"), "Éclair");
    assert_eq!(capitalize("Post"), "Post");
    assert_eq!(capitalize(""), "");
    assert_eq!(capitalize("ß"), "SS");
}
