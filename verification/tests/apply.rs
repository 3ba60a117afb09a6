use std::time::{Duration, SystemTime};
use trellis::defs::ast::ValueType;
use trellis::defs::catalog::DbError;
use trellis::defs::error::CatalogError;
use trellis::defs::model::RelationshipCardinality;
use trellis::error_code::ErrorCode;
use trellis::map::TextMap;
use trellis::staging::apply::{
    check_fence, note_applied, note_cleared, note_groups, primary_key_error, propagate, ApplyError,
    PrimaryKeyFailure,
};
use trellis::staging::batch::{catalog_source_key, is_qualified, poison_candidates, sort_batch};
use trellis::staging::change::{FoldedChange, SourceTime, StagedChange};
use trellis::staging::clears::{ClearPlan, LoadedTruncate, TruncatedReader, TruncatedRelationship};
use trellis::staging::completion::{
    batch_drained, claimed_mask, full_mask, next_claimable_segment, next_claimable_segments,
    single_outcome, ApplyOutcome, ManyApplyOutcome,
};
use trellis::staging::compute::{
    compute, ComputeError, LoadedDefinition, LoadedJoin, LoadedRelationship, LoadedSource,
    RelJoin,
};
use trellis::staging::drain::{owned_segments, Drain, DrainAction, DrainEvent, FailureClass};
use trellis::staging::plan::{PrimaryKeyColumn, TargetDelete, TargetPlan, TargetWrite};
use trellis::metrics::registry::Metrics;
use trellis::staging::readers::{
    duration_from_nanos, end_to_end_latencies, latency_nanos, record_transform_apply_metrics, Latency,
};
use trellis::staging::related::{
    build_relationship_context, columns_by_relationship, distinct_join_keys, related_rows,
    LoadedRelated, RelatedCell,
};
use trellis::staging::retire::{retire_step, retired_segments, RetireAction, RetireEvent};
use trellis::staging::reverse::{join_key_touches, join_keys};
use trellis::staging::rows::{fill_rows, refetch_keys, row_source, rows_of_cells, Row, RowSource};
use trellis::staging::run::{apply_steps, check_version, completion_masks, ApplyRun, ApplyStep};
use trellis::staging::sql::{
    clear_all_sql, clear_sql, delete_keys, delete_sql, join_matches_sql, joined_keys_sql,
    live_rows_sql, lock_keys, lock_sql, related_rows_sql, write_statements, TargetIdents,
};
use trellis::staging::touch::{earliest_src_changed, merge_touches, Touch};

fn s(text: &str) -> String {
    text.to_string()
}

fn time(at: SystemTime) -> SourceTime {
    let nanos = at.duration_since(SystemTime::UNIX_EPOCH).unwrap().as_nanos();
    SourceTime { nanos: nanos as i128 }
}

fn at(nanos: i128) -> Option<SourceTime> {
    Some(SourceTime { nanos })
}

#[test]
fn earliest_src_changed_picks_the_lesser_of_two_known_origins() {
    let earlier = time(SystemTime::UNIX_EPOCH + Duration::from_secs(10));
    let later = time(SystemTime::UNIX_EPOCH + Duration::from_secs(20));
    assert_eq!(
        earliest_src_changed(Some(later), Some(earlier)),
        Some(earlier),
        "the earlier of two known origins must win, regardless of argument order"
    );
    assert_eq!(
        earliest_src_changed(Some(earlier), Some(later)),
        Some(earlier)
    );
}

#[test]
fn earliest_src_changed_never_lets_a_none_beat_a_known_origin() {
    let known = time(SystemTime::UNIX_EPOCH + Duration::from_secs(5));
    assert_eq!(
        earliest_src_changed(Some(known), None),
        Some(known),
        "an origin-less fan-in sibling must not blank out a known origin"
    );
    assert_eq!(earliest_src_changed(None, Some(known)), Some(known));
}

#[test]
fn earliest_src_changed_of_two_unknowns_stays_unknown() {
    assert_eq!(earliest_src_changed(None, None), None);
}

fn change(table: &str, key: &str) -> FoldedChange {
    FoldedChange {
        src_table: s(table),
        key: s(key),
        is_truncate: false,
        old_image: None,
        new_image: None,
        hop_gen: 0,
        src_changed: None,
    }
}

fn truncate(table: &str) -> FoldedChange {
    FoldedChange { is_truncate: true, ..change(table, "") }
}

fn touch(table: &str, key: &str, hop_gen: i32, src_changed: Option<SourceTime>) -> Touch {
    Touch { table: s(table), key: s(key), hop_gen, src_changed }
}

fn row(cells: &[(&str, Option<&str>)]) -> Row {
    let mut row = TextMap::new();
    for (column, value) in cells {
        row = row.insert(s(column), value.map(s));
    }
    row
}

fn pk() -> PrimaryKeyColumn {
    PrimaryKeyColumn { name: s("id"), data_type: s("bigint") }
}

#[test]
fn schemas_are_stripped_at_the_last_point() {
    assert_eq!(catalog_source_key("public.orders"), "orders");
    assert_eq!(catalog_source_key("a.b.orders"), "orders");
    assert_eq!(catalog_source_key("orders"), "orders");
    assert!(is_qualified("public.orders"));
    assert!(!is_qualified("orders"));
}

#[test]
fn a_batch_is_sorted_into_truncates_parked_and_applied_changes() {
    let folded = vec![
        change("public.b", "1"),
        truncate("public.c"),
        change("public.a", "1"),
        change("other.b", "2"),
        change("public.a", "9"),
    ];
    assert_eq!(poison_candidates(&folded).len(), 4);
    let sorted = sort_batch(&folded, &vec![(s("public.a"), s("9"))]);
    assert_eq!(sorted.truncated, vec![truncate("public.c")]);
    assert_eq!(sorted.poisoned_park, vec![change("public.a", "9")]);
    assert_eq!(
        sorted.applied_keys,
        vec![(s("public.b"), s("1")), (s("public.a"), s("1")), (s("other.b"), s("2"))]
    );
    let keys: Vec<(String, usize)> = sorted
        .by_source
        .iter()
        .map(|b| (b.source_key.clone(), b.changes.len()))
        .collect();
    assert_eq!(keys, vec![(s("b"), 2), (s("a"), 1)]);
    assert_eq!(
        folded.len(),
        sorted.truncated.len() + sorted.poisoned_park.len() + sorted.applied_keys.len()
    );
}

#[test]
fn rows_come_from_images_or_from_the_source_table_once() {
    let mut imaged = change("t", "1");
    imaged.new_image = Some(s("{}"));
    let mut gone = change("t", "2");
    gone.old_image = Some(s("{}"));
    let changes = vec![imaged, gone, change("t", "3"), change("t", "3"), change("t", "4")];
    assert_eq!(row_source(&changes[0]), RowSource::Image(s("{}")));
    assert_eq!(row_source(&changes[1]), RowSource::Gone);
    assert_eq!(row_source(&changes[2]), RowSource::Refetch);
    assert_eq!(refetch_keys(&changes), vec![s("3"), s("3"), s("4")]);

    let live = rows_of_cells(vec![
        (s("3"), s("a"), Some(s("x"))),
        (s("3"), s("b"), None),
        (s("3"), s("a"), Some(s("y"))),
    ]);
    let decoded = vec![Some(row(&[("a", Some("image"))])), None, None, None, None];
    let rows = fill_rows(&changes, decoded, live);
    assert_eq!(rows[0].as_ref().unwrap().get("a"), Some(&Some(s("image"))));
    assert!(rows[1].is_none());
    assert_eq!(rows[2].as_ref().unwrap().get("a"), Some(&Some(s("y"))));
    assert_eq!(rows[2].as_ref().unwrap().get("b"), Some(&None));
    assert!(rows[3].is_none());
    assert!(rows[4].is_none());
}

#[test]
fn a_moved_row_touches_its_old_and_its_new_key() {
    let mut moved = change("customers", "1");
    moved.hop_gen = 2;
    moved.src_changed = at(50);
    let mut later = change("customers", "2");
    later.hop_gen = 4;
    later.src_changed = at(70);
    let changes = vec![moved, later];
    let rows = vec![Some(row(&[("id", Some("new"))])), Some(row(&[("id", Some("old"))]))];
    let old_rows = vec![Some(row(&[("id", Some("old"))])), Some(row(&[("name", Some("x"))]))];
    let touches = join_key_touches("customers", "id", &changes, &rows, &old_rows);
    assert_eq!(
        touches,
        vec![
            touch("customers", "new", 2, at(50)),
            touch("customers", "old", 2, at(50)),
            touch("customers", "old", 4, at(70)),
        ]
    );
    assert_eq!(join_keys(&touches), vec![s("new"), s("old")]);
    assert_eq!(
        merge_touches(&touches),
        vec![touch("customers", "new", 2, at(50)), touch("customers", "old", 4, at(50))]
    );
}

fn one_to_one(target: &str, evaluated: Vec<Option<Row>>) -> LoadedDefinition {
    LoadedDefinition::OneToOne {
        target: s(target),
        qualified_target: format!("public.{target}"),
        field_names: vec![s("total"), s("frozen"), s("label")],
        known_types: TextMap::new().insert(s("label"), ValueType::Text),
        paused: vec![s("frozen")],
        evaluated,
    }
}

fn source(definitions: Vec<LoadedDefinition>) -> LoadedSource {
    let mut first = change("public.orders", "1");
    first.hop_gen = 3;
    first.src_changed = at(10);
    LoadedSource {
        source_key: s("orders"),
        qualified_source: s("public.orders"),
        version: Some(7),
        pk: pk(),
        changes: vec![first, change("public.orders", "2")],
        rows: vec![Some(row(&[("customer", Some("c1"))])), None],
        old_rows: vec![None, Some(row(&[("customer", Some("c2"))]))],
        relationships: vec![LoadedRelationship {
            from_table: s("items"),
            to_col: s("customer"),
            matched: vec![(s("i1"), s("c1")), (s("i2"), s("c2")), (s("i1"), s("c2"))],
        }],
        definitions,
    }
}

#[test]
fn a_plan_writes_evaluated_rows_and_deletes_the_others() {
    let evaluated = vec![Some(row(&[("total", Some("5")), ("label", None)])), None];
    let (plan, applied) = compute(
        &vec![source(vec![one_to_one("totals", evaluated)])],
        &vec![],
        vec![change("public.orders", "poisoned")],
        vec![(s("public.orders"), s("1"))],
    )
    .unwrap();
    assert_eq!(plan.versions.get("orders"), Some(&Some(7)));
    assert_eq!(plan.targets.len(), 1);
    let target = &plan.targets[0];
    assert_eq!(target.target, "totals");
    assert_eq!(target.qualified_target, "public.totals");
    assert_eq!(target.field_names, vec![s("total"), s("label")]);
    assert_eq!(target.field_types, vec![ValueType::Numeric, ValueType::Text]);
    assert_eq!(target.writes.len(), 1);
    assert_eq!(target.writes[0].pk_text, "1");
    assert_eq!(target.writes[0].values, vec![Some(s("5")), None]);
    assert_eq!((target.writes[0].hop_gen, target.writes[0].src_changed), (3, at(10)));
    assert_eq!(target.deletes, vec![TargetDelete { pk_text: s("2"), hop_gen: 0, src_changed: None }]);
    assert_eq!(
        plan.reverse_recomputes,
        vec![touch("items", "i1", 4, at(10)), touch("items", "i2", 1, None)]
    );
    assert_eq!(plan.poisoned_park.len(), 1);
    assert_eq!(plan.applied_keys, vec![(s("public.orders"), s("1"))]);
    assert_eq!(applied.len(), 2);
    assert_eq!(plan.all_targets(), vec![s("totals")]);
    let plan = plan.with_readers(TextMap::new().insert(s("totals"), false));
    assert_eq!(plan.downstream_readers.get("totals"), Some(&false));
    let latencies = end_to_end_latencies(
        &plan.all_targets(),
        &plan.downstream_readers,
        &applied,
        SourceTime { nanos: 35 },
    );
    assert_eq!(latencies, vec![Latency { target: s("totals"), nanos: 25 }]);
}

#[test]
fn parts_for_one_target_are_gathered_in_order() {
    let (plan, _) = compute(
        &vec![source(vec![
            one_to_one("totals", vec![None, None]),
            one_to_one("totals", vec![Some(row(&[])), None]),
        ])],
        &vec![],
        vec![],
        vec![],
    )
    .unwrap();
    assert_eq!(plan.targets.len(), 1);
    assert_eq!(plan.targets[0].writes.len(), 1);
    let deleted: Vec<&str> = plan.targets[0].deletes.iter().map(|d| d.pk_text.as_str()).collect();
    assert_eq!(deleted, vec!["1", "2", "2"]);
}

fn join(name: &str, cardinality: RelationshipCardinality) -> LoadedJoin {
    LoadedJoin {
        join: RelJoin { name: s(name), to_table: s("t"), to_col: s("id"), from_col: s("t_id") },
        cardinality,
    }
}

fn aggregate(joins: Vec<LoadedJoin>) -> LoadedDefinition {
    LoadedDefinition::Aggregate {
        target: s("by_customer"),
        qualified_target: s("public.by_customer"),
        field_names: vec![s("customer"), s("total"), s("day"), s("n")],
        group_by: vec![s("customer"), s("day")],
        source_columns: TextMap::new().insert(s("customer"), ValueType::Text),
        joins,
    }
}

#[test]
fn aggregates_read_through_to_one_relationships_only() {
    let (plan, applied) = compute(
        &vec![source(vec![aggregate(vec![
            join("z", RelationshipCardinality::ToOne),
            join("a", RelationshipCardinality::ToOne),
        ])])],
        &vec![],
        vec![],
        vec![],
    )
    .unwrap();
    let target = &plan.aggregate_targets[0];
    assert_eq!(target.group_by_types, vec![ValueType::Text, ValueType::Numeric]);
    assert_eq!(target.field_names, vec![s("total"), s("n")]);
    let names: Vec<&str> = target.rel_joins.iter().map(|j| j.name.as_str()).collect();
    assert_eq!(names, vec!["a", "z"]);
    assert_eq!(target.source, "public.orders");
    assert_eq!(applied.len(), 2);

    let err = compute(
        &vec![source(vec![aggregate(vec![join("many", RelationshipCardinality::ToMany)])])],
        &vec![],
        vec![],
        vec![],
    )
    .unwrap_err();
    assert_eq!(err, ComputeError::ToManyAggregate);
    assert_eq!(err.message(), "an aggregate over a to-many relationship");
}

fn loaded_truncate(hop_gen: i32, src_changed: Option<SourceTime>) -> LoadedTruncate {
    LoadedTruncate {
        source_key: s("orders"),
        version: Some(8),
        change: FoldedChange { hop_gen, src_changed, ..truncate("public.orders") },
        pk: pk(),
        readers: vec![
            TruncatedReader {
                target: s("totals"),
                qualified_target: s("public.totals"),
                aggregate: false,
            },
            TruncatedReader {
                target: s("by_customer"),
                qualified_target: s("public.by_customer"),
                aggregate: true,
            },
        ],
        relationships: vec![TruncatedRelationship {
            from_table: s("items"),
            from_keys: vec![s("i1"), s("i9")],
        }],
    }
}

#[test]
fn a_truncate_clears_its_readers_once() {
    let (plan, applied) = compute(
        &vec![source(vec![])],
        &vec![loaded_truncate(1, at(90)), loaded_truncate(5, at(40))],
        vec![],
        vec![],
    )
    .unwrap();
    assert_eq!(plan.versions.get("orders"), Some(&Some(7)));
    assert_eq!(
        plan.clears,
        vec![ClearPlan {
            target: s("totals"),
            qualified_target: s("public.totals"),
            pk: pk(),
            hop_gen: 5,
            src_changed: at(40),
        }]
    );
    assert_eq!(plan.aggregate_clears.len(), 1);
    assert_eq!(plan.aggregate_clears[0].hop_gen, 5);
    assert_eq!(
        plan.reverse_recomputes,
        vec![
            touch("items", "i1", 6, at(10)),
            touch("items", "i2", 1, None),
            touch("items", "i9", 6, at(40)),
        ]
    );
    assert_eq!(applied.len(), 4);
    assert_eq!(plan.all_targets(), vec![s("totals"), s("by_customer")]);
}

#[test]
fn latencies_are_never_negative() {
    let now = SourceTime { nanos: 100 };
    assert_eq!(latency_nanos(SourceTime { nanos: 40 }, now), 60);
    assert_eq!(latency_nanos(SourceTime { nanos: 140 }, now), 0);
    assert_eq!(latency_nanos(SourceTime { nanos: -40 }, now), 140);
    assert_eq!(
        latency_nanos(SourceTime { nanos: i128::MIN }, SourceTime { nanos: i128::MAX }),
        u128::MAX
    );
}

fn idents(fields: &[&str]) -> TargetIdents {
    TargetIdents {
        table: s("\"public\".\"totals\""),
        pk: s("\"id\""),
        pk_cast: s("bigint"),
        fields: fields.iter().map(|f| format!("\"{f}\"")).collect(),
    }
}

fn write(key: &str, values: &[Option<&str>]) -> TargetWrite {
    TargetWrite {
        pk_text: s(key),
        values: values.iter().map(|v| v.map(s)).collect(),
        hop_gen: 1,
        src_changed: at(5),
    }
}

fn delete(key: &str) -> TargetDelete {
    TargetDelete { pk_text: s(key), hop_gen: 2, src_changed: None }
}

#[test]
fn statements_spell_columns_and_number_parameters() {
    let statements = write_statements(
        &idents(&["a", "b"]),
        &vec![ValueType::Numeric, ValueType::Uuid],
        &vec![write("1", &[Some("x"), None]), write("2", &[None, Some("y")])],
    );
    assert_eq!(statements.len(), 1);
    assert_eq!(
        statements[0].sql,
        "insert into \"public\".\"totals\" (\"id\", \"a\", \"b\") \
         select * from (values ($1::text::bigint, $2::text::numeric, $3::text::uuid), \
         ($4::text::bigint, $5::text::numeric, $6::text::uuid)) as v(\"id\", \"a\", \"b\") \
         on conflict (\"id\") do update set \"a\" = excluded.\"a\", \"b\" = excluded.\"b\" \
         where (\"public\".\"totals\".\"a\", \"public\".\"totals\".\"b\") is distinct from \
         (excluded.\"a\", excluded.\"b\") returning \"id\"::text as pk"
    );
    assert_eq!(
        statements[0].params,
        vec![Some(s("1")), Some(s("x")), None, Some(s("2")), None, Some(s("y"))]
    );
}

#[test]
fn a_target_whose_columns_are_all_paused_only_gains_keys() {
    let statements = write_statements(&idents(&[]), &vec![], &vec![write("1", &[])]);
    assert_eq!(
        statements[0].sql,
        "insert into \"public\".\"totals\" (\"id\") select * from (values ($1::text::bigint)) \
         as v(\"id\") on conflict (\"id\") do nothing returning \"id\"::text as pk"
    );
}

#[test]
fn many_rows_are_written_in_several_statements() {
    let writes: Vec<TargetWrite> = (0..60001).map(|i| write(&i.to_string(), &[])).collect();
    let statements = write_statements(&idents(&[]), &vec![], &writes);
    let sizes: Vec<usize> = statements.iter().map(|st| st.params.len()).collect();
    assert_eq!(sizes, vec![60000, 1]);
    assert!(statements[1].sql.contains("(values ($1::text::bigint))"));
}

#[test]
fn keys_are_locked_in_order_and_a_write_beats_a_deletion() {
    let writes = vec![write("b", &[]), write("a", &[])];
    let deletes = vec![delete("c"), delete("a"), delete("B")];
    assert_eq!(lock_keys(&writes, &deletes), vec![s("B"), s("a"), s("b"), s("c")]);
    assert_eq!(delete_keys(&writes, &deletes), vec![s("c"), s("B")]);
    assert_eq!(
        lock_sql(&idents(&[])),
        "select \"id\" from \"public\".\"totals\" where \"id\" = any($1::text[]::bigint[]) \
         order by \"id\" for update"
    );
    assert_eq!(
        delete_sql(&idents(&[])),
        "delete from \"public\".\"totals\" where \"id\" = any($1::text[]::bigint[]) \
         returning \"id\"::text as pk"
    );
    assert_eq!(clear_sql("\"t\"", "\"id\""), "delete from \"t\" returning \"id\"::text as pk");
}

fn target_plan(writes: Vec<TargetWrite>, deletes: Vec<TargetDelete>) -> TargetPlan {
    TargetPlan {
        target: s("totals"),
        qualified_target: s("public.totals"),
        pk: pk(),
        field_names: vec![],
        field_types: vec![],
        writes,
        deletes,
    }
}

#[test]
fn applied_keys_carry_their_origin_forward() {
    let plan = target_plan(vec![write("1", &[]), write("2", &[])], vec![delete("2")]);
    let mut changed = Vec::new();
    note_applied(&mut changed, &plan, &vec![s("1"), s("2"), s("3")]);
    note_groups(&mut changed, "groups", &vec![(s("g"), 7)]);
    note_cleared(
        &mut changed,
        &ClearPlan {
            target: s("totals"),
            qualified_target: s("public.totals"),
            pk: pk(),
            hop_gen: 4,
            src_changed: at(1),
        },
        &vec![s("9")],
    );
    assert_eq!(
        changed,
        vec![
            touch("totals", "1", 1, at(5)),
            touch("totals", "2", 2, None),
            touch("totals", "3", 0, None),
            touch("groups", "g", 7, None),
            touch("totals", "9", 4, at(1)),
        ]
    );
}

fn recompute(table: &str, key: &str, hop_gen: i32, src_changed: Option<SourceTime>) -> StagedChange {
    StagedChange::Recompute { src_table: s(table), key: s(key), hop_gen, group_key: None, src_changed }
}

#[test]
fn only_targets_that_are_read_pass_changes_on() {
    let readers = TextMap::new().insert(s("read"), true).insert(s("sink"), false);
    let changed = vec![
        touch("read", "1", 31, at(3)),
        touch("sink", "2", 0, None),
        touch("unknown", "3", 0, None),
    ];
    let reverse = vec![touch("items", "i", 32, None)];
    assert_eq!(
        propagate(&changed, &readers, &reverse),
        Ok(vec![recompute("read", "1", 32, at(3)), recompute("items", "i", 32, None)])
    );
}

#[test]
fn propagation_stops_at_the_hop_bound() {
    let readers = TextMap::new().insert(s("b"), true).insert(s("a"), true);
    let changed = vec![
        touch("b", "1", 32, None),
        touch("a", "1", 0, None),
        touch("b", "2", 40, None),
    ];
    let reverse = vec![touch("items", "i", 33, None)];
    let err = propagate(&changed, &readers, &reverse).unwrap_err();
    assert_eq!(
        err,
        ApplyError::HopBoundExceeded { hop_gen: 41, tables: vec![s("b"), s("items")] }
    );
    assert_eq!(
        err.message(""),
        "downstream propagation exceeded the hop bound (hop_gen 41 > 32) through: [\"b\", \"items\"]"
    );
    assert_eq!(err.code(), ErrorCode::Internal);
}

#[test]
fn errors_keep_their_category_and_wording() {
    assert_eq!(ApplyError::ClaimLost.code(), ErrorCode::Internal);
    assert_eq!(
        ApplyError::Catalog(CatalogError::SourceTableNotFound(s("t"))).code(),
        ErrorCode::NotFound
    );
    assert_eq!(ApplyError::Db(ErrorCode::Conflict).code(), ErrorCode::Conflict);
    assert_eq!(
        ApplyError::DefinitionNotLive { transform: s("t") }.code(),
        ErrorCode::Conflict
    );
    assert_eq!(
        ApplyError::ColumnNotPaused { transform: s("t"), column: s("c") }.message(""),
        "'t.c' is not currently paused (or is not a column of that definition)"
    );
    assert_eq!(ApplyError::Staging(ErrorCode::Internal).message("x"), "staging ring error: x");
    assert_eq!(
        ApplyError::VersionFenceMiss { src_table: s("orders") }.message(""),
        "source table 'orders' changed definitions mid-drain; retry against the current catalog"
    );
}

#[test]
fn a_plan_is_fenced_by_the_versions_it_was_made_with() {
    assert_eq!(check_fence("orders", Some(3), Some(3)), Ok(()));
    assert_eq!(check_fence("orders", None, None), Ok(()));
    let miss = Err(ApplyError::VersionFenceMiss { src_table: s("orders") });
    assert_eq!(check_fence("orders", Some(3), Some(4)), miss);
    assert_eq!(check_fence("orders", None, Some(1)), miss);
    assert_eq!(check_fence("orders", Some(1), None), miss);
}

#[test]
fn a_missing_table_is_told_from_a_missing_key() {
    assert_eq!(
        primary_key_error("orders", PrimaryKeyFailure::UndefinedTable, ErrorCode::Internal),
        ApplyError::SourceTableDropped { source_table: s("orders") }
    );
    assert_eq!(
        primary_key_error(
            "orders",
            PrimaryKeyFailure::NoPrimaryKey { source_table: s("public.orders"), missing: true },
            ErrorCode::Internal
        ),
        ApplyError::SourceTableDropped { source_table: s("public.orders") }
    );
    assert_eq!(
        primary_key_error(
            "orders",
            PrimaryKeyFailure::NoPrimaryKey { source_table: s("public.orders"), missing: false },
            ErrorCode::Validation
        ),
        ApplyError::Ddl(ErrorCode::Validation)
    );
    assert_eq!(
        primary_key_error("o", PrimaryKeyFailure::Other(ErrorCode::NotFound), ErrorCode::Internal),
        ApplyError::Ddl(ErrorCode::NotFound)
    );
}

#[test]
fn completion_marks_the_claimed_buckets() {
    assert_eq!(claimed_mask(&vec![0, 3, 63]), Ok(1 | 8 | (1 << 63)));
    assert_eq!(claimed_mask(&vec![]), Err(ApplyError::ClaimLost));
    assert_eq!(full_mask(0), 0);
    assert_eq!(full_mask(4), 15);
    assert_eq!(full_mask(63), u64::MAX >> 1);
    assert_eq!(claimed_mask(&vec![0, 1, 2, 3]), Ok(full_mask(4)));
    assert!(batch_drained(&Some(s("drained"))));
    assert!(!batch_drained(&Some(s("draining"))));
    assert!(!batch_drained(&None));
    assert_eq!(
        single_outcome(&ManyApplyOutcome {
            keys_written: 2,
            keys_deleted: 1,
            segments_drained: vec![(5, true)],
        }),
        ApplyOutcome { keys_written: 2, keys_deleted: 1, batch_drained: true }
    );
}

#[test]
fn a_truncate_is_never_taken_with_other_segments() {
    assert_eq!(next_claimable_segments(&vec![(1, false), (2, false), (4, true)]), vec![1, 2]);
    assert_eq!(next_claimable_segments(&vec![(4, true)]), vec![4]);
    assert_eq!(next_claimable_segments(&vec![(4, true), (5, false)]), vec![4]);
    assert_eq!(next_claimable_segments(&vec![]), Vec::<i64>::new());
    assert_eq!(next_claimable_segment(&vec![(4, true), (5, false)]), Some(4));
    assert_eq!(next_claimable_segment(&vec![]), None);
    assert_eq!(owned_segments(&vec![(1, true), (2, false), (3, true)]), vec![1, 3]);
}

#[test]
fn a_drain_retries_until_its_attempts_are_used_up() {
    let mut drain = Drain::start(vec![change("public.t", "1")]);
    for _ in 0..4 {
        let (next, action) = drain.step(DrainEvent::Failed(FailureClass::VersionFenceMiss));
        assert_eq!(action, DrainAction::BackOffThenCompute);
        drain = next;
    }
    assert_eq!(drain.attempt(), 5);
    let (drain, action) = drain.step(DrainEvent::Failed(FailureClass::Transient));
    assert_eq!(action, DrainAction::Fail);
    let (_, action) = drain.step(DrainEvent::Failed(FailureClass::Isolate));
    assert_eq!(action, DrainAction::Fail);
}

#[test]
fn a_drain_follows_plan_isolation_and_success() {
    let drain = Drain::start(vec![
        change("public.t", "1"),
        change("b.t", "2"),
        change("t", "3"),
        change("public.t", "4"),
        change("u", "5"),
    ]);
    let (drain, action) = drain.step(DrainEvent::SourceTableDropped(s("public.t")));
    assert_eq!(action, DrainAction::PurgeThenCompute(s("public.t")));
    assert_eq!(drain.folded(), &vec![change("b.t", "2"), change("t", "3"), change("u", "5")]);
    let (drain, action) = drain.step(DrainEvent::SourceTableDropped(s("t")));
    assert_eq!(action, DrainAction::PurgeThenCompute(s("t")));
    assert_eq!(drain.folded(), &vec![change("b.t", "2"), change("u", "5")]);
    assert_eq!(drain.attempt(), 1);
    let (drain, action) = drain.step(DrainEvent::Computed);
    assert_eq!(action, DrainAction::Apply);
    let (drain, action) = drain.step(DrainEvent::Failed(FailureClass::Isolate));
    assert_eq!(action, DrainAction::Isolate);
    let (drain, action) = drain.step(DrainEvent::Evicted(vec![]));
    assert_eq!(action, DrainAction::Compute);
    assert_eq!((drain.attempt(), drain.folded().len()), (2, 0));
    let (drain, action) = drain.step(DrainEvent::Failed(FailureClass::Halting));
    assert_eq!(action, DrainAction::RecordStopThenFail);
    let (drain, action) = drain.step(DrainEvent::NothingEvicted);
    assert_eq!(action, DrainAction::Fail);
    let (_, action) = drain.step(DrainEvent::Applied);
    assert_eq!(action, DrainAction::Finish);
}

#[test]
fn a_slot_is_truncated_only_after_its_row_is_deleted() {
    assert_eq!(retire_step(&RetireEvent::Locked), RetireAction::Delete);
    assert_eq!(retire_step(&RetireEvent::Deleted(0)), RetireAction::Skip);
    assert_eq!(retire_step(&RetireEvent::Deleted(1)), RetireAction::Truncate);
    assert_eq!(retire_step(&RetireEvent::Truncated), RetireAction::Commit);
    let held = DbError { code: s("55P03"), constraint: None };
    let other = DbError { code: s("42P01"), constraint: None };
    assert_eq!(retire_step(&RetireEvent::LockFailed(held)), RetireAction::Skip);
    assert_eq!(retire_step(&RetireEvent::LockFailed(other)), RetireAction::Fail);
    assert_eq!(retired_segments(&vec![(1, true), (2, false), (3, true)]), vec![1, 3]);
}

fn cell(join_key: &str, row_number: i64, column: &str, value: &str) -> RelatedCell {
    RelatedCell { join_key: s(join_key), row_number, column: s(column), value: Some(s(value)) }
}

#[test]
fn related_rows_are_put_together_and_grouped() {
    let columns = columns_by_relationship(&vec![
        (s("customer"), s("name")),
        (s("customer"), s("name")),
        (s("customer"), s("age")),
        (s("post"), s("words")),
    ]);
    assert_eq!(columns.get("customer"), Some(&vec![s("name"), s("age")]));
    assert_eq!(columns.get("post"), Some(&vec![s("words")]));

    let rows = vec![
        Some(row(&[("c", Some("k"))])),
        None,
        Some(row(&[("c", None)])),
        Some(row(&[("c", Some("j"))])),
        Some(row(&[("c", Some("k"))])),
    ];
    assert_eq!(distinct_join_keys(&rows, "c"), vec![s("k"), s("j")]);

    let cells = vec![cell("k", 2, "a", "1"), cell("j", 1, "a", "2"), cell("k", 2, "b", "3"), cell("k", 3, "a", "4")];
    let related = related_rows(&cells);
    assert_eq!(related.len(), 3);
    assert_eq!((related[0].row_number, related[0].join_key.as_str()), (2, "k"));
    assert_eq!(related[0].row.get("b"), Some(&Some(s("3"))));

    let context = build_relationship_context(vec![
        LoadedRelated {
            name: s("one"),
            cardinality: RelationshipCardinality::ToOne,
            from_col: s("c"),
            to_columns: TextMap::new(),
            rows: related_rows(&vec![cell("k", 1, "a", "1")]),
        },
        LoadedRelated {
            name: s("many"),
            cardinality: RelationshipCardinality::ToMany,
            from_col: s("c"),
            to_columns: TextMap::new(),
            rows: related,
        },
    ]);
    let one = context.to_one.get("one").unwrap();
    assert_eq!(one.to_rows_by_key.get("k").unwrap().get("a"), Some(&Some(s("1"))));
    let many = context.to_many.get("many").unwrap();
    assert_eq!(many.to_rows_by_key.get("k").unwrap().len(), 2);
    assert_eq!(many.to_rows_by_key.get("j").unwrap().len(), 1);
    assert_eq!(many.to_rows_by_key.len(), 2);
    assert!(many.to_rows_by_key.get("z").is_none());
    assert!(context.to_many.get("one").is_none());
}

#[test]
fn a_plan_is_applied_in_order() {
    let (plan, _) = compute(
        &vec![source(vec![
            one_to_one("totals", vec![Some(row(&[])), None]),
            aggregate(vec![]),
        ])],
        &vec![loaded_truncate(1, at(90))],
        vec![],
        vec![],
    )
    .unwrap();
    assert_eq!(
        apply_steps(&plan, 2),
        vec![
            ApplyStep::CheckVersion(0),
            ApplyStep::Park,
            ApplyStep::Clear(0),
            ApplyStep::ClearAggregate(0),
            ApplyStep::Write(0),
            ApplyStep::WriteAggregate(0),
            ApplyStep::Stage,
            ApplyStep::ForgetDeaths,
            ApplyStep::Complete(0),
            ApplyStep::Complete(1),
            ApplyStep::Notify,
        ]
    );
    assert_eq!(check_version(&plan, 0, Some(7)), Ok(()));
    assert_eq!(
        check_version(&plan, 0, Some(8)),
        Err(ApplyError::VersionFenceMiss { src_table: s("orders") })
    );

    let plan = plan.with_readers(TextMap::new().insert(s("totals"), true));
    let mut run = ApplyRun::start();
    run.cleared(&plan, 0, &vec![s("old")]);
    run.aggregate_cleared(3);
    run.wrote(&plan, 0, &vec![s("1")], &vec![s("2")]);
    run.wrote_groups(&plan, 0, &vec![(s("g"), 1)], &vec![]);
    let staged = run.staged(&plan).unwrap();
    assert_eq!(
        staged,
        vec![
            recompute("totals", "old", 2, at(90)),
            recompute("totals", "1", 4, at(10)),
            recompute("totals", "2", 1, None),
            recompute("items", "i1", 4, at(10)),
            recompute("items", "i2", 1, None),
            recompute("items", "i9", 2, at(90)),
        ]
    );
    run.completed(11, &Some(s("drained")));
    run.completed(12, &None);
    assert_eq!(
        run.finish(),
        ManyApplyOutcome {
            keys_written: 2,
            keys_deleted: 5,
            segments_drained: vec![(11, true), (12, false)],
        }
    );
}

#[test]
fn a_segment_is_completed_only_while_its_claim_is_there() {
    assert_eq!(completion_masks(4, &vec![1, 2]), Ok((6, 15)));
    assert_eq!(completion_masks(4, &vec![]), Err(ApplyError::ClaimLost));
}

#[test]
fn lookups_are_spelled_with_quoted_names() {
    assert_eq!(
        live_rows_sql("\"t\"", "\"id\"", "bigint"),
        "select m.k, e.key, e.value from (select \"id\"::text as k, to_jsonb(t.*) as doc from \"t\" t \
         where \"id\" = any($1::text[]::bigint[])) m cross join lateral jsonb_each_text(m.doc) e"
    );
    assert_eq!(
        join_matches_sql("\"t\"", "\"id\"", "\"c\""),
        "select \"id\"::text, \"c\"::text from \"t\" where \"c\"::text = any($1::text[])"
    );
    assert_eq!(
        joined_keys_sql("\"t\"", "\"id\"", "\"c\""),
        "select \"id\"::text from \"t\" where \"c\" is not null"
    );
    assert_eq!(
        related_rows_sql("\"t\"", "\"c\""),
        "select m.jk, m.rn, e.key, e.value from (select \"c\"::text as jk, row_number() over () as rn, \
         to_jsonb(t.*) as doc from \"t\" t where \"c\"::text = any($1::text[])) m \
         cross join lateral jsonb_each_text(m.doc) e"
    );
    assert_eq!(clear_all_sql("\"t\""), "delete from \"t\"");
}

#[test]
fn an_applied_change_is_counted_and_its_latency_observed() {
    assert_eq!(duration_from_nanos(1_500_000_000), Duration::from_millis(1500));
    assert_eq!(duration_from_nanos(7), Duration::from_nanos(7));
    let mut metrics = Metrics::new();
    let now = SourceTime { nanos: 2_000_000_000 };
    record_transform_apply_metrics(&mut metrics, "t", at(500_000_000), now);
    record_transform_apply_metrics(&mut metrics, "t", None, now);
    let rendered = metrics.render_prometheus();
    assert!(rendered.contains("trellis_changes_applied_total{transform=\"t\"} 2"), "{rendered}");
    assert!(rendered.contains("trellis_transform_latency_seconds_sum{transform=\"t\"} 1.5"), "{rendered}");
    assert!(rendered.contains("trellis_transform_latency_seconds_count{transform=\"t\"} 1"), "{rendered}");
}
