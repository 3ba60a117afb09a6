use trellis::defs::ast::{Expr, Field, KeySpace, Predicate, RelationshipDef, TransformDef, ValueType};
use trellis::defs::catalog::{
    after_build, build_path, check_definition, check_relationship, coverage_step, coverage_tables,
    insert_error, is_target_suffix_index_violation, reject_if_table_cycle, BuildOutcome, BuildPath,
    CoverageStep, DbError, DefinitionFacts, InstallStep, RelationshipFacts,
};
use trellis::defs::error::{CatalogError, ParseError, RelationshipTypeMismatch, ValidationError};
use trellis::defs::lineage::{column_dependents, TargetDefinition};
use trellis::defs::model::{RelationshipCardinality, RelationshipWarning, TransformStatus};
use trellis::defs::rows::{encode_type_map, group_definitions, DefinitionRow};
use trellis::defs::types::{
    is_text_stable_join_key_type, resolve_column_types, type_family, value_type_from_pg,
};
use trellis::error_code::ErrorCode;
use trellis::graph::{adjacency_of, find_table_path};
use trellis::intake::replica_identity::IntakeError;
use trellis::map::TextMap;

fn s(text: &str) -> String {
    text.to_string()
}

fn edges(pairs: &[(&str, &str)]) -> Vec<(String, String)> {
    pairs.iter().map(|(a, b)| (s(a), s(b))).collect()
}

#[test]
fn source_table_not_found_is_not_found() {
    assert_eq!(
        CatalogError::SourceTableNotFound("widgets".to_string()).code(),
        ErrorCode::NotFound
    );
}

#[test]
fn unknown_value_type_is_internal() {
    assert_eq!(
        CatalogError::UnknownValueType {
            column: "price".to_string(),
            text: "money".to_string(),
        }
        .code(),
        ErrorCode::Internal
    );
}

#[test]
fn parse_delegates_to_the_wrapped_parse_error() {
    let inner = ParseError::UnterminatedString;
    let expected = inner.code();
    let wrapped = CatalogError::Parse(inner);

    assert_eq!(wrapped.code(), expected);
    assert_eq!(wrapped.code(), ErrorCode::Parse);
}

#[test]
fn validate_delegates_to_the_wrapped_validation_error() {
    let inner = ValidationError::DuplicateRelationshipName {
        from_table: "orders".to_string(),
        name: "customer".to_string(),
    };
    let expected = inner.code();
    let wrapped = CatalogError::Validate(inner);

    assert_eq!(wrapped.code(), expected);
    assert_eq!(wrapped.code(), ErrorCode::Conflict);
}

#[test]
fn other_errors_keep_the_category_they_wrap() {
    assert_eq!(CatalogError::Db(ErrorCode::Conflict).code(), ErrorCode::Conflict);
    assert_eq!(CatalogError::Pool(ErrorCode::Internal).code(), ErrorCode::Internal);
    assert_eq!(CatalogError::Backfill(ErrorCode::NotFound).code(), ErrorCode::NotFound);
    assert_eq!(CatalogError::Ddl(ErrorCode::Validation).code(), ErrorCode::Validation);
    assert_eq!(CatalogError::DirectBackfill(ErrorCode::Internal).code(), ErrorCode::Internal);
    assert_eq!(
        CatalogError::Validate(ValidationError::TableCycle { cycle: vec![] }).code(),
        ErrorCode::Validation
    );
}

#[test]
fn messages_name_what_went_wrong() {
    assert_eq!(
        CatalogError::SourceTableNotFound(s("widgets")).message(""),
        "source table \"widgets\" not found on the search path"
    );
    assert_eq!(
        CatalogError::UnknownValueType { column: s("price"), text: s("money") }.message(""),
        "column 'price' has an unrecognized persisted value type 'money'"
    );
    assert_eq!(
        CatalogError::Db(ErrorCode::Internal).message("boom"),
        "transform catalog database error: boom"
    );
    assert_eq!(
        CatalogError::TargetTableSuffixCollision {
            target: s("foo"),
            requested: s("custom.foo"),
            existing: Some(s("public.foo")),
        }
        .message(""),
        "target table \"foo\" is ambiguous: this definition would persist \"custom.foo\", but \
         \"public.foo\" already exists under the same bare table name — two definitions cannot \
         share a bare target-table name under different schemas"
    );
    assert_eq!(
        CatalogError::TargetTableSuffixCollision {
            target: s("foo"),
            requested: s("custom.foo"),
            existing: None,
        }
        .message(""),
        "target table \"foo\" is ambiguous: this definition would persist \"custom.foo\", but \
         another definition was concurrently created under the same bare table name — two \
         definitions cannot share a bare target-table name under different schemas"
    );
}

#[test]
fn the_first_path_in_edge_order_is_found() {
    let graph = adjacency_of(&edges(&[("a", "b"), ("a", "c"), ("b", "a"), ("b", "d"), ("c", "e"), ("d", "e")]));
    assert_eq!(
        find_table_path(&graph, "a", "e"),
        Some(vec![s("a"), s("b"), s("d"), s("e")])
    );
    assert_eq!(find_table_path(&graph, "e", "a"), None);
    assert_eq!(find_table_path(&graph, "x", "x"), Some(vec![s("x")]));
}

#[test]
fn a_dependency_that_closes_a_circle_is_rejected_with_the_circle() {
    let known = edges(&[("a", "b"), ("b", "c")]);
    assert_eq!(
        reject_if_table_cycle(&known, "c", "a"),
        Err(CatalogError::Validate(ValidationError::TableCycle {
            cycle: vec![s("a"), s("b"), s("c"), s("a")]
        }))
    );
    assert_eq!(
        reject_if_table_cycle(&known, "a", "a"),
        Err(CatalogError::Validate(ValidationError::TableCycle { cycle: vec![s("a"), s("a")] }))
    );
    assert_eq!(reject_if_table_cycle(&known, "a", "c"), Ok(()));
}

fn facts() -> DefinitionFacts {
    DefinitionFacts {
        source: s("orders"),
        target: s("totals"),
        qualified_target: s("public.totals"),
        aggregate: false,
        replica_identity_full: false,
        replica_identity_code: ErrorCode::Validation,
        edges: edges(&[]),
        source_schema: Some(s("public")),
        suffix_owner: None,
    }
}

#[test]
fn a_definition_is_checked_in_order() {
    assert_eq!(check_definition(&facts()), Ok(s("public")));

    let mut bad = facts();
    bad.suffix_owner = Some(s("custom.totals"));
    assert_eq!(
        check_definition(&bad),
        Err(CatalogError::TargetTableSuffixCollision {
            target: s("totals"),
            requested: s("public.totals"),
            existing: Some(s("custom.totals")),
        })
    );
    bad.source_schema = None;
    assert_eq!(check_definition(&bad), Err(CatalogError::SourceTableNotFound(s("orders"))));
    bad.edges = edges(&[("totals", "orders")]);
    assert_eq!(
        check_definition(&bad),
        Err(CatalogError::Validate(ValidationError::TableCycle {
            cycle: vec![s("totals"), s("orders"), s("totals")]
        }))
    );
    bad.aggregate = true;
    assert_eq!(
        check_definition(&bad),
        Err(CatalogError::ReplicaIdentityRequired {
            error: IntakeError::ReplicaIdentityRequired {
                table: s("orders"),
                statement: s("ALTER TABLE orders REPLICA IDENTITY FULL;"),
            },
            code: ErrorCode::Validation,
        })
    );
    bad.replica_identity_full = true;
    assert!(matches!(check_definition(&bad), Err(CatalogError::Validate(_))));
}

#[test]
fn only_the_suffix_index_means_a_taken_name() {
    let taken = DbError {
        code: s("23505"),
        constraint: Some(s("transform_definitions_target_suffix_idx")),
    };
    let other_index = DbError {
        code: s("23505"),
        constraint: Some(s("transform_definitions_target_table_key")),
    };
    let other_code = DbError { code: s("23514"), constraint: taken.constraint.clone() };
    assert!(is_target_suffix_index_violation(&taken));
    assert!(!is_target_suffix_index_violation(&other_index));
    assert!(!is_target_suffix_index_violation(&other_code));
    assert_eq!(
        insert_error(&facts(), &taken, ErrorCode::Conflict),
        CatalogError::TargetTableSuffixCollision {
            target: s("totals"),
            requested: s("public.totals"),
            existing: None,
        }
    );
    assert_eq!(
        insert_error(&facts(), &other_index, ErrorCode::Conflict),
        CatalogError::Db(ErrorCode::Conflict)
    );
}

fn relationship() -> RelationshipFacts {
    RelationshipFacts {
        def: RelationshipDef {
            name: s("customer"),
            from_table: s("orders"),
            from_col: s("customer_id"),
            to_table: s("customers"),
            to_col: s("id"),
        },
        from_type: Some(s("integer")),
        to_type: Some(s("bigint")),
        already_declared: false,
        edges: edges(&[]),
        to_col_unique: true,
        to_col_in_old_rows: false,
        from_col_indexed: true,
    }
}

#[test]
fn a_relationship_is_checked_in_order() {
    assert_eq!(
        check_relationship(&relationship()),
        Ok((RelationshipCardinality::ToOne, vec![]))
    );

    let mut bad = relationship();
    bad.to_col_unique = false;
    assert_eq!(
        check_relationship(&bad),
        Err(CatalogError::Validate(
            ValidationError::RelationshipToManyRequiresReplicaIdentity {
                name: s("customer"),
                to_table: s("customers"),
                to_col: s("id"),
            }
        ))
    );
    bad.edges = edges(&[("orders", "customers")]);
    assert_eq!(
        check_relationship(&bad),
        Err(CatalogError::Validate(ValidationError::TableCycle {
            cycle: vec![s("orders"), s("customers"), s("orders")]
        }))
    );
    bad.already_declared = true;
    assert_eq!(
        check_relationship(&bad),
        Err(CatalogError::Validate(ValidationError::DuplicateRelationshipName {
            from_table: s("orders"),
            name: s("customer"),
        }))
    );
    bad.from_type = Some(s("text"));
    bad.to_type = Some(s("character(4)"));
    assert_eq!(
        check_relationship(&bad),
        Err(CatalogError::Validate(
            ValidationError::RelationshipUnsupportedJoinKeyType {
                name: s("customer"),
                table: s("customers"),
                column: s("id"),
                pg_type: s("character(4)"),
            }
        ))
    );
    bad.from_type = Some(s("uuid"));
    assert_eq!(
        check_relationship(&bad),
        Err(CatalogError::Validate(ValidationError::RelationshipTypeMismatch(Box::new(
            RelationshipTypeMismatch {
                name: s("customer"),
                from_table: s("orders"),
                from_col: s("customer_id"),
                from_type: s("uuid"),
                to_table: s("customers"),
                to_col: s("id"),
                to_type: s("character(4)"),
            }
        ))))
    );
    bad.to_type = None;
    assert_eq!(
        check_relationship(&bad),
        Err(CatalogError::Validate(ValidationError::UnknownRelationshipColumn {
            table: s("customers"),
            column: s("id"),
        }))
    );
    bad.from_type = None;
    assert_eq!(
        check_relationship(&bad),
        Err(CatalogError::Validate(ValidationError::UnknownRelationshipColumn {
            table: s("orders"),
            column: s("customer_id"),
        }))
    );
}

#[test]
fn a_missing_index_is_only_a_warning() {
    let mut facts = relationship();
    facts.to_col_unique = false;
    facts.to_col_in_old_rows = true;
    facts.from_col_indexed = false;
    assert_eq!(
        check_relationship(&facts),
        Ok((
            RelationshipCardinality::ToMany,
            vec![RelationshipWarning::MissingFkIndex {
                from_table: s("orders"),
                from_col: s("customer_id"),
            }]
        ))
    );
}

#[test]
fn types_are_compared_without_their_modifiers() {
    assert_eq!(type_family("character varying(255)"), "text");
    assert_eq!(type_family("numeric(10,2)"), "numeric");
    assert_eq!(type_family("smallint"), "integer");
    assert_eq!(type_family("money"), "money");
    assert_eq!(value_type_from_pg("double precision"), ValueType::Numeric);
    assert_eq!(value_type_from_pg("timestamp (3) without time zone"), ValueType::Text);
    assert_eq!(value_type_from_pg("uuid"), ValueType::Uuid);
    assert_eq!(value_type_from_pg("boolean"), ValueType::Boolean);
    assert!(is_text_stable_join_key_type("character varying(10)"));
    assert!(!is_text_stable_join_key_type("character(10)"));
    assert!(!is_text_stable_join_key_type("numeric"));
}

fn row(id: i64, column: Option<&str>, value_type: Option<&str>) -> DefinitionRow {
    DefinitionRow {
        id,
        source_version: id * 10,
        text: format!("text {id}"),
        status: TransformStatus::Live,
        column: column.map(s),
        value_type: value_type.map(s),
    }
}

#[test]
fn rows_of_a_definition_are_put_together() {
    let rows = vec![
        row(2, Some("a"), Some("text")),
        row(1, None, None),
        row(2, Some("b"), Some("uuid")),
    ];
    let found = group_definitions(&rows).unwrap();
    assert_eq!(found.len(), 2);
    assert_eq!((found[0].id, found[0].source_version), (2, 20));
    assert_eq!(found[0].text, "text 2");
    assert_eq!(found[0].source_columns.get("a"), Some(&ValueType::Text));
    assert_eq!(found[0].source_columns.get("b"), Some(&ValueType::Uuid));
    assert_eq!(found[1].id, 1);
    assert_eq!(found[1].source_columns.len(), 0);
}

#[test]
fn an_unknown_stored_type_is_reported_with_its_column() {
    let rows = vec![row(1, Some("a"), Some("text")), row(1, Some("price"), Some("money"))];
    assert_eq!(
        group_definitions(&rows).unwrap_err(),
        CatalogError::UnknownValueType { column: s("price"), text: s("money") }
    );
}

#[test]
fn encoded_column_types_are_read_back() {
    let columns = TextMap::new()
        .insert(s("a"), ValueType::Numeric)
        .insert(s("b"), ValueType::Boolean);
    let (keys, values) = encode_type_map(&columns);
    assert_eq!(keys, vec![s("a"), s("b")]);
    assert_eq!(values, vec![s("numeric"), s("boolean")]);
    let rows: Vec<DefinitionRow> = keys
        .iter()
        .zip(&values)
        .map(|(k, v)| row(1, Some(k.as_str()), Some(v.as_str())))
        .collect();
    let found = group_definitions(&rows).unwrap();
    assert_eq!(found[0].source_columns.get("a"), Some(&ValueType::Numeric));
    assert_eq!(found[0].source_columns.get("b"), Some(&ValueType::Boolean));
}

fn definition(target: &str, source: &str, key_space: KeySpace, fields: Vec<Field>) -> TargetDefinition {
    TargetDefinition {
        target: s(target),
        def: TransformDef {
            target: s(target),
            source: s(source),
            key_space,
            fields,
            predicate: Predicate::True,
            explicit_source_schema: None,
            explicit_target_schema: None,
        },
    }
}

#[test]
fn only_fields_that_read_a_column_depend_on_it() {
    let definitions = vec![
        definition(
            "direct",
            "orders",
            KeySpace::OneToOne,
            vec![
                Field {
                    name: s("sum"),
                    expr: Expr::BinaryOp {
                        op: s("+"),
                        lhs: Box::new(Expr::NumberLiteral(s("1"))),
                        rhs: Box::new(Expr::Column(s("price"))),
                    },
                },
                Field { name: s("other"), expr: Expr::Column(s("name")) },
            ],
        ),
        definition(
            "related",
            "items",
            KeySpace::OneToOne,
            vec![Field {
                name: s("price"),
                expr: Expr::FunctionCall {
                    name: s("SUM"),
                    args: vec![
                        Expr::StringLiteral(s("price")),
                        Expr::RelationshipPath { rel: s("order"), column: s("price") },
                    ],
                },
            }],
        ),
        definition(
            "grouped",
            "orders",
            KeySpace::Aggregate { group_by: vec![] },
            vec![Field { name: s("sum"), expr: Expr::Column(s("price")) }],
        ),
    ];
    let relationships = vec![(s("items"), s("order"), s("orders"))];
    assert_eq!(
        column_dependents(&definitions, &relationships, "orders", "price"),
        vec![(s("direct"), s("sum")), (s("related"), s("price"))]
    );
    assert_eq!(column_dependents(&definitions, &[].to_vec(), "orders", "price"), vec![(s("direct"), s("sum"))]);
}

#[test]
fn builds_end_in_one_of_four_ways() {
    let plain = definition("t", "s", KeySpace::OneToOne, vec![]).def;
    let grouped = definition("t", "s", KeySpace::Aggregate { group_by: vec![] }, vec![]).def;
    assert_eq!(build_path(&plain, false), BuildPath::Chunked);
    assert_eq!(build_path(&plain, true), BuildPath::Direct);
    assert_eq!(build_path(&grouped, false), BuildPath::Direct);
    assert_eq!(after_build(BuildOutcome::Built), InstallStep::CoverAndGoLive);
    assert_eq!(
        after_build(BuildOutcome::Queued(TransformStatus::Backfilling)),
        InstallStep::Keep(TransformStatus::Backfilling)
    );
    assert_eq!(after_build(BuildOutcome::Unsupported), InstallStep::DeleteAndEnumerate);
    assert_eq!(
        after_build(BuildOutcome::Failed(ErrorCode::Internal)),
        InstallStep::DeleteAndFail(CatalogError::DirectBackfill(ErrorCode::Internal))
    );
}

#[test]
fn a_build_vouches_for_each_table_it_alone_reads() {
    assert_eq!(
        coverage_tables("orders", &vec![s("customers"), s("orders"), s("customers")]),
        vec![s("orders"), s("customers")]
    );
    assert_eq!(coverage_step(true), CoverageStep::Clear);
    assert_eq!(coverage_step(false), CoverageStep::Record);
}

#[test]
fn statuses_are_spelled_as_they_are_stored() {
    for status in [
        TransformStatus::Live,
        TransformStatus::Backfilling,
        TransformStatus::WaitingToBackfill,
        TransformStatus::Quarantined,
    ] {
        assert_eq!(TransformStatus::from_persisted(status.as_str()), Some(status));
    }
    assert_eq!(TransformStatus::from_persisted("Live"), None);
}

#[test]
fn a_related_column_that_is_not_there_is_an_error() {
    let columns = vec![s("a"), s("b"), s("c")];
    let types = resolve_column_types("t", &columns, &vec![Some(s("uuid")), Some(s("text")), Some(s("real"))]).unwrap();
    assert_eq!(types.get("a"), Some(&ValueType::Uuid));
    assert_eq!(types.get("c"), Some(&ValueType::Numeric));
    assert_eq!(
        resolve_column_types("t", &columns, &vec![Some(s("uuid")), None, None]).unwrap_err(),
        CatalogError::Validate(ValidationError::UnknownRelationshipColumn { table: s("t"), column: s("b") })
    );
}
