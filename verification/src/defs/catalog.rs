//! The rules by which the catalog takes definitions and relationships in.

use super::ast::{KeySpace, RelationshipDef, TransformDef};
use super::error::{CatalogError, ValidationError};
use super::model::{RelationshipCardinality, RelationshipWarning, TransformStatus};
use super::types::{
    are_comparable, assert_comparable_types, assert_join_key_type_supported, base_type, family_of, is_mismatch,
    is_text_stable, is_unsupported_key, law_families,
};
use crate::error_code::ErrorCode;
use crate::graph::{
    acyclic, adjacency_of, edge_graph, find_table_path, follows_edges, has_edge, is_first_path, is_listed,
    law_circles_are_closed_by_what_leads_back, law_edges_are_those_listed,
    law_tables_are_reached_along_listed_edges, reaches,
};
use crate::intake::replica_identity::{replica_identity_statement, require_replica_identity_full, IntakeError};
use crate::map::{among, has_key};
use crate::text::{same, texts};
use vstd::prelude::*;

verus! {

/// What the database reports about a failed statement.
#[derive(Debug, Clone, PartialEq, Eq)]
pub struct DbError {
    /// The SQLSTATE.
    pub code: String,
    /// The constraint or index that was violated, where there is one.
    pub constraint: Option<String>,
}

/// `tokio_postgres::error::SqlState::UNIQUE_VIOLATION`, by its `code`: the
/// SQLSTATE that Postgres reports for a violated unique index is `23505`.
#[verifier::external_body]
fn unique_violation_code() -> (r: String)
    ensures
        r@ == "23505"@,
{
    tokio_postgres::error::SqlState::UNIQUE_VIOLATION.code().to_owned()
}

/// Whether the error is that a target table's name is taken in another schema.
pub fn is_target_suffix_index_violation(err: &DbError) -> (r: bool)
    ensures
        r <==> err.code@ == "23505"@ && err.constraint is Some && err.constraint->0@
            == "transform_definitions_target_suffix_idx"@,
{
    let code = unique_violation_code();
    match &err.constraint {
        Some(constraint) => same(err.code.as_str(), code.as_str()) && same(
            constraint.as_str(),
            "transform_definitions_target_suffix_idx",
        ),
        None => false,
    }
}

/// Whether the error names the circle that an edge would close: the first path
/// from its end to its start, and the end again.
pub open spec fn is_table_cycle(
    error: CatalogError,
    edges: Seq<(String, String)>,
    source: Seq<char>,
    target: Seq<char>,
) -> bool {
    match error {
        CatalogError::Validate(ValidationError::TableCycle { cycle }) => {
            &&& cycle@.len() >= 2
            &&& cycle@.last()@ == target
            &&& is_first_path(edge_graph(edges), texts(cycle@).drop_last(), target, source)
        },
        _ => false,
    }
}

/// Rejects an edge from `source_table` to `target_table` where it would close a
/// circle: where edges lead from the target to the source already.
pub fn reject_if_table_cycle(edges: &Vec<(String, String)>, source_table: &str, target_table: &str) -> (r: Result<
    (),
    CatalogError,
>)
    ensures
        r is Err <==> reaches(edge_graph(edges@), target_table@, source_table@, Set::empty()),
        r matches Err(e) ==> is_table_cycle(e, edges@, source_table@, target_table@),
{
    let adjacency = adjacency_of(edges);
    match find_table_path(&adjacency, target_table, source_table) {
        Some(path) => {
            let ghost found = texts(path@);
            let mut cycle = path;
            cycle.push(target_table.to_owned());
            assert(texts(cycle@).drop_last() =~= found);
            Err(CatalogError::Validate(ValidationError::TableCycle { cycle }))
        },
        None => Ok(()),
    }
}

/// Whether the error asks for the old row images of a table's changes.
pub open spec fn is_replica_identity_required(error: CatalogError, table: Seq<char>, code: ErrorCode) -> bool {
    match error {
        CatalogError::ReplicaIdentityRequired {
            error: IntakeError::ReplicaIdentityRequired { table: t, statement },
            code: c,
        } => t@ == table && statement@ == replica_identity_statement(table) && c == code,
        _ => false,
    }
}

/// Rejects an aggregate whose source table's changes do not carry the whole old
/// row; `code` is the rejection's category.
pub fn assert_replica_identity_supports_aggregate(source: &str, is_full: bool, code: ErrorCode) -> (r: Result<
    (),
    CatalogError,
>)
    ensures
        r is Ok <==> is_full,
        r matches Err(e) ==> is_replica_identity_required(e, source@, code),
{
    match require_replica_identity_full(source, !is_full) {
        Ok(()) => Ok(()),
        Err(error) => Err(CatalogError::ReplicaIdentityRequired { error, code }),
    }
}

/// Whether the error says that a target's name is taken in another schema.
pub open spec fn is_suffix_collision(
    error: CatalogError,
    target: Seq<char>,
    requested: Seq<char>,
    existing: Option<String>,
) -> bool {
    match error {
        CatalogError::TargetTableSuffixCollision { target: t, requested: q, existing: e } => t@ == target && q@
            == requested && e == existing,
        _ => false,
    }
}

/// What is known of a definition that is about to be stored.
#[derive(Debug)]
pub struct DefinitionFacts {
    /// Its source table, without its schema.
    pub source: String,
    /// Its target table, without its schema.
    pub target: String,
    /// Its target table with its schema.
    pub qualified_target: String,
    /// Whether it is an aggregate.
    pub aggregate: bool,
    /// Whether the source table's changes carry the whole old row.
    pub replica_identity_full: bool,
    /// The category of a rejection because they do not.
    pub replica_identity_code: ErrorCode,
    /// The dependencies between tables.
    pub edges: Vec<(String, String)>,
    /// The schema in which the source table was found, if it was.
    pub source_schema: Option<String>,
    /// Another definition's target of the same name in another schema.
    pub suffix_owner: Option<String>,
}

impl DefinitionFacts {
    /// Whether the source table's changes lack what the definition needs.
    pub open spec fn lacks_old_rows(self) -> bool {
        self.aggregate && !self.replica_identity_full
    }

    /// Whether the definition would close a circle.
    pub open spec fn closes_circle(self) -> bool {
        reaches(edge_graph(self.edges@), self.target@, self.source@, Set::empty())
    }

    /// Whether the error says of the definition what stands against it.
    pub open spec fn is_refusal(self, error: CatalogError) -> bool {
        match error {
            CatalogError::ReplicaIdentityRequired { .. } => self.lacks_old_rows() && is_replica_identity_required(
                error,
                self.source@,
                self.replica_identity_code,
            ),
            CatalogError::Validate(_) => !self.lacks_old_rows() && self.closes_circle() && is_table_cycle(
                error,
                self.edges@,
                self.source@,
                self.target@,
            ),
            CatalogError::SourceTableNotFound(table) => !self.lacks_old_rows() && !self.closes_circle()
                && self.source_schema is None && table == self.source,
            CatalogError::TargetTableSuffixCollision { .. } => !self.lacks_old_rows() && !self.closes_circle()
                && self.source_schema is Some && self.suffix_owner is Some && is_suffix_collision(
                error,
                self.target@,
                self.qualified_target@,
                self.suffix_owner,
            ),
            _ => false,
        }
    }
}

/// Checks a definition before it is stored, and gives its source table's
/// schema. A missing old row image is reported first, then a circle, then a
/// source table that is nowhere, then a target name that is taken.
pub fn check_definition(facts: &DefinitionFacts) -> (r: Result<String, CatalogError>)
    ensures
        r is Ok <==> !facts.lacks_old_rows() && !facts.closes_circle() && facts.source_schema is Some
            && facts.suffix_owner is None,
        r matches Ok(schema) ==> facts.source_schema == Some(schema),
        r matches Err(e) ==> if facts.lacks_old_rows() {
            is_replica_identity_required(e, facts.source@, facts.replica_identity_code)
        } else if facts.closes_circle() {
            is_table_cycle(e, facts.edges@, facts.source@, facts.target@)
        } else if facts.source_schema is None {
            e matches CatalogError::SourceTableNotFound(table) && table == facts.source
        } else {
            is_suffix_collision(e, facts.target@, facts.qualified_target@, facts.suffix_owner)
        },
        r matches Err(e) ==> facts.is_refusal(e),
{
    if facts.aggregate {
        match assert_replica_identity_supports_aggregate(
            facts.source.as_str(),
            facts.replica_identity_full,
            facts.replica_identity_code,
        ) {
            Ok(()) => {},
            Err(e) => {
                return Err(e);
            },
        }
    }
    match reject_if_table_cycle(&facts.edges, facts.source.as_str(), facts.target.as_str()) {
        Ok(()) => {},
        Err(e) => {
            return Err(e);
        },
    }
    match &facts.source_schema {
        None => Err(CatalogError::SourceTableNotFound(facts.source.clone())),
        Some(schema) => match &facts.suffix_owner {
            Some(existing) => Err(
                CatalogError::TargetTableSuffixCollision {
                    target: facts.target.clone(),
                    requested: facts.qualified_target.clone(),
                    existing: Some(existing.clone()),
                },
            ),
            None => Ok(schema.clone()),
        },
    }
}

/// What a failed insert of a definition means: that another definition took its
/// target's name at the same time, or a database error of the given category.
pub fn insert_error(facts: &DefinitionFacts, err: &DbError, code: ErrorCode) -> (r: CatalogError)
    ensures
        if err.code@ == "23505"@ && err.constraint is Some && err.constraint->0@
            == "transform_definitions_target_suffix_idx"@ {
            is_suffix_collision(r, facts.target@, facts.qualified_target@, None)
        } else {
            r == CatalogError::Db(code)
        },
{
    if is_target_suffix_index_violation(err) {
        CatalogError::TargetTableSuffixCollision {
            target: facts.target.clone(),
            requested: facts.qualified_target.clone(),
            existing: None,
        }
    } else {
        CatalogError::Db(code)
    }
}

/// What is known of a relationship that is about to be stored.
#[derive(Debug)]
pub struct RelationshipFacts {
    /// What it says.
    pub def: RelationshipDef,
    /// The type of the declaring table's join column, where it is there.
    pub from_type: Option<String>,
    /// The type of the related table's join column, where it is there.
    pub to_type: Option<String>,
    /// Whether the declaring table has a relationship of that name.
    pub already_declared: bool,
    /// The dependencies between tables.
    pub edges: Vec<(String, String)>,
    /// Whether the related table's join column is unique.
    pub to_col_unique: bool,
    /// Whether the related table's changes carry the join column's old value.
    pub to_col_in_old_rows: bool,
    /// Whether an index finds the declaring table's rows by its join column.
    pub from_col_indexed: bool,
}

impl RelationshipFacts {
    /// Whether related rows are unique.
    pub open spec fn cardinality(self) -> RelationshipCardinality {
        if self.to_col_unique {
            RelationshipCardinality::ToOne
        } else {
            RelationshipCardinality::ToMany
        }
    }

    /// Whether the relationship would close a circle: the declaring table
    /// depends on the related one.
    pub open spec fn closes_circle(self) -> bool {
        reaches(edge_graph(self.edges@), self.def.from_table@, self.def.to_table@, Set::empty())
    }

    /// Whether nothing stands against the relationship.
    pub open spec fn acceptable(self) -> bool {
        &&& self.from_type is Some
        &&& self.to_type is Some
        &&& family_of(self.from_type->0@) == family_of(self.to_type->0@)
        &&& is_text_stable(self.from_type->0@)
        &&& is_text_stable(self.to_type->0@)
        &&& !self.already_declared
        &&& !self.closes_circle()
        &&& self.to_col_unique || self.to_col_in_old_rows
    }

    /// Whether the error is the one to report: the first thing that stands
    /// against the relationship, in this order.
    pub open spec fn is_reason(self, error: CatalogError) -> bool {
        if self.from_type is None {
            is_unknown_column(error, self.def.from_table@, self.def.from_col@)
        } else if self.to_type is None {
            is_unknown_column(error, self.def.to_table@, self.def.to_col@)
        } else if family_of(self.from_type->0@) != family_of(self.to_type->0@) {
            is_mismatch(error, self.def, self.from_type->0@, self.to_type->0@)
        } else if !is_text_stable(self.from_type->0@) {
            is_unsupported_key(
                error,
                self.def.name@,
                self.def.from_table@,
                self.def.from_col@,
                self.from_type->0@,
            )
        } else if !is_text_stable(self.to_type->0@) {
            is_unsupported_key(error, self.def.name@, self.def.to_table@, self.def.to_col@, self.to_type->0@)
        } else if self.already_declared {
            match error {
                CatalogError::Validate(ValidationError::DuplicateRelationshipName { from_table, name }) => from_table
                    == self.def.from_table && name == self.def.name,
                _ => false,
            }
        } else if self.closes_circle() {
            is_table_cycle(error, self.edges@, self.def.to_table@, self.def.from_table@)
        } else {
            match error {
                CatalogError::Validate(
                    ValidationError::RelationshipToManyRequiresReplicaIdentity { name, to_table, to_col },
                ) => name == self.def.name && to_table == self.def.to_table && to_col == self.def.to_col,
                _ => false,
            }
        }
    }
}

/// Whether the error says that there is no such column.
pub open spec fn is_unknown_column(error: CatalogError, table: Seq<char>, column: Seq<char>) -> bool {
    match error {
        CatalogError::Validate(ValidationError::UnknownRelationshipColumn { table: t, column: c }) => t@ == table && c@
            == column,
        _ => false,
    }
}

/// Whether the warnings are what is noticed of the relationship.
pub open spec fn are_warnings_of(warnings: Seq<RelationshipWarning>, facts: RelationshipFacts) -> bool {
    if facts.from_col_indexed {
        warnings.len() == 0
    } else {
        warnings.len() == 1 && warnings[0] == (RelationshipWarning::MissingFkIndex {
            from_table: facts.def.from_table,
            from_col: facts.def.from_col,
        })
    }
}

fn unknown_column(table: &String, column: &String) -> (r: CatalogError)
    ensures
        is_unknown_column(r, table@, column@),
{
    CatalogError::Validate(
        ValidationError::UnknownRelationshipColumn { table: table.clone(), column: column.clone() },
    )
}

/// Checks a relationship before it is stored, and gives its cardinality and
/// what is noticed of it.
pub fn check_relationship(facts: &RelationshipFacts) -> (r: Result<
    (RelationshipCardinality, Vec<RelationshipWarning>),
    CatalogError,
>)
    ensures
        r is Ok <==> facts.acceptable(),
        r matches Ok((cardinality, warnings)) ==> cardinality == facts.cardinality() && are_warnings_of(
            warnings@,
            *facts,
        ),
        r matches Err(e) ==> facts.is_reason(e),
{
    let def = &facts.def;
    let from_type = match &facts.from_type {
        Some(t) => t,
        None => {
            return Err(unknown_column(&def.from_table, &def.from_col));
        },
    };
    let to_type = match &facts.to_type {
        Some(t) => t,
        None => {
            return Err(unknown_column(&def.to_table, &def.to_col));
        },
    };
    match assert_comparable_types(def, from_type.as_str(), to_type.as_str()) {
        Ok(()) => {},
        Err(e) => {
            return Err(e);
        },
    }
    match assert_join_key_type_supported(def, from_type.as_str(), to_type.as_str()) {
        Ok(()) => {},
        Err(e) => {
            return Err(e);
        },
    }
    if facts.already_declared {
        return Err(
            CatalogError::Validate(
                ValidationError::DuplicateRelationshipName {
                    from_table: def.from_table.clone(),
                    name: def.name.clone(),
                },
            ),
        );
    }
    match reject_if_table_cycle(&facts.edges, def.to_table.as_str(), def.from_table.as_str()) {
        Ok(()) => {},
        Err(e) => {
            return Err(e);
        },
    }
    let cardinality = if facts.to_col_unique {
        RelationshipCardinality::ToOne
    } else {
        RelationshipCardinality::ToMany
    };
    if !facts.to_col_unique && !facts.to_col_in_old_rows {
        return Err(
            CatalogError::Validate(
                ValidationError::RelationshipToManyRequiresReplicaIdentity {
                    name: def.name.clone(),
                    to_table: def.to_table.clone(),
                    to_col: def.to_col.clone(),
                },
            ),
        );
    }
    let mut warnings: Vec<RelationshipWarning> = Vec::new();
    if !facts.from_col_indexed {
        warnings.push(
            RelationshipWarning::MissingFkIndex {
                from_table: def.from_table.clone(),
                from_col: def.from_col.clone(),
            },
        );
    }
    Ok((cardinality, warnings))
}

/// How a new definition's target is built.
#[derive(Debug, Clone, Copy, PartialEq, Eq, Structural)]
pub enum BuildPath {
    /// In chunks that workers take from a queue.
    Chunked,
    /// At once, before the call returns.
    Direct,
}

/// How a definition's target is built.
pub open spec fn path_of(def: TransformDef, uses_relationships: bool) -> BuildPath {
    if def.key_space is OneToOne && !uses_relationships {
        BuildPath::Chunked
    } else {
        BuildPath::Direct
    }
}

/// How a definition's target is built: a one-to-one definition without
/// relationships in chunks, any other at once.
pub fn build_path(def: &TransformDef, uses_relationships: bool) -> (r: BuildPath)
    ensures
        r is Chunked <==> def.key_space is OneToOne && !uses_relationships,
        r == path_of(*def, uses_relationships),
{
    match def.key_space {
        KeySpace::OneToOne => if uses_relationships {
            BuildPath::Direct
        } else {
            BuildPath::Chunked
        },
        KeySpace::Aggregate { .. } => BuildPath::Direct,
    }
}

/// How building a target ended.
#[derive(Debug, Clone, Copy, PartialEq, Eq, Structural)]
pub enum BuildOutcome {
    /// The target is built.
    Built,
    /// The chunks are queued, and leave the definition in this status.
    Queued(TransformStatus),
    /// The definition cannot be built this way.
    Unsupported,
    /// The build failed, with an error of this category.
    Failed(ErrorCode),
}

/// What becomes of the definition that was stored before the build.
#[derive(Debug, Clone, PartialEq, Eq)]
pub enum InstallStep {
    /// Record what the build covered, then mark the definition live.
    CoverAndGoLive,
    /// The definition stays, in this status.
    Keep(TransformStatus),
    /// Delete the definition, and create it anew by enumerating its source.
    DeleteAndEnumerate,
    /// Delete the definition, and report the error.
    DeleteAndFail(CatalogError),
}

/// What becomes of a definition after its build.
pub open spec fn step_after(outcome: BuildOutcome) -> InstallStep {
    match outcome {
        BuildOutcome::Built => InstallStep::CoverAndGoLive,
        BuildOutcome::Queued(status) => InstallStep::Keep(status),
        BuildOutcome::Unsupported => InstallStep::DeleteAndEnumerate,
        BuildOutcome::Failed(code) => InstallStep::DeleteAndFail(CatalogError::DirectBackfill(code)),
    }
}

/// What becomes of a definition after its build: whatever did not leave it
/// built or queued leaves no definition that was stored before the build.
pub fn after_build(outcome: BuildOutcome) -> (r: InstallStep)
    ensures
        r == match outcome {
            BuildOutcome::Built => InstallStep::CoverAndGoLive,
            BuildOutcome::Queued(status) => InstallStep::Keep(status),
            BuildOutcome::Unsupported => InstallStep::DeleteAndEnumerate,
            BuildOutcome::Failed(code) => InstallStep::DeleteAndFail(CatalogError::DirectBackfill(code)),
        },
        r == step_after(outcome),
{
    match outcome {
        BuildOutcome::Built => InstallStep::CoverAndGoLive,
        BuildOutcome::Queued(status) => InstallStep::Keep(status),
        BuildOutcome::Unsupported => InstallStep::DeleteAndEnumerate,
        BuildOutcome::Failed(code) => InstallStep::DeleteAndFail(CatalogError::DirectBackfill(code)),
    }
}

/// The tables that a direct build reads: the source table and every related
/// one, each once.
pub fn coverage_tables(source: &str, to_tables: &Vec<String>) -> (r: Vec<String>)
    ensures
        forall|t: Seq<char>| #[trigger] among(r@, t) <==> t == source@ || among(to_tables@, t),
        forall|i: int, j: int| 0 <= i < j < r@.len() ==> #[trigger] r@[i]@ != #[trigger] r@[j]@,
{
    let mut r: Vec<String> = Vec::new();
    r.push(source.to_owned());
    assert(r@[0]@ == source@);
    for n in 0..to_tables.len()
        invariant
            forall|t: Seq<char>| #[trigger] among(r@, t) <==> t == source@ || among(to_tables@.take(n as int), t),
            forall|i: int, j: int| 0 <= i < j < r@.len() ==> #[trigger] r@[i]@ != #[trigger] r@[j]@,
    {
        let table = &to_tables[n];
        let ghost before = r@;
        let known = has_key(&r, table.as_str());
        if !known {
            r.push(table.clone());
            proof {
                assert forall|i: int, j: int| 0 <= i < j < r@.len() implies #[trigger] r@[i]@ != #[trigger] r@[j]@ by {
                    if j == before.len() {
                        assert(!among(before, table@));
                        assert(before[i]@ != table@);
                    } else {
                        assert(before[i]@ != before[j]@);
                    }
                }
            }
        }
        proof {
            let done = to_tables@.take(n as int);
            let next = to_tables@.take(n + 1);
            assert forall|t: Seq<char>| #[trigger] among(r@, t) <==> t == source@ || among(next, t) by {
                if among(before, t) {
                    let i = choose|i: int| 0 <= i < before.len() && #[trigger] before[i]@ == t;
                    assert(r@[i]@ == t);
                }
                if among(done, t) {
                    let i = choose|i: int| 0 <= i < done.len() && #[trigger] done[i]@ == t;
                    assert(next[i]@ == t);
                }
                if t == table@ {
                    assert(next[n as int]@ == t);
                    if !known {
                        assert(r@[before.len() as int]@ == t);
                    }
                }
                if among(next, t) && t != table@ {
                    let i = choose|i: int| 0 <= i < next.len() && #[trigger] next[i]@ == t;
                    assert(done[i]@ == t);
                }
                if among(r@, t) && t != table@ {
                    let i = choose|i: int| 0 <= i < r@.len() && #[trigger] r@[i]@ == t;
                    assert(before[i]@ == t);
                }
            }
        }
    }
    assert(to_tables@.take(to_tables@.len() as int) =~= to_tables@);
    r
}

/// What becomes of the record that a build covered a table.
#[derive(Debug, Clone, Copy, PartialEq, Eq, Structural)]
pub enum CoverageStep {
    /// Record the state that was captured before the build.
    Record,
    /// Clear it, so that the table is enumerated.
    Clear,
}

/// What becomes of a table's coverage record: only a build that is the table's
/// sole reader vouches for it.
pub fn coverage_step(has_other_reader: bool) -> (r: CoverageStep)
    ensures
        r is Clear <==> has_other_reader,
{
    if has_other_reader {
        CoverageStep::Clear
    } else {
        CoverageStep::Record
    }
}

/// A definition is refused where it is an aggregate whose source table's changes
/// lack the old row, where the tables would depend on each other in a circle once
/// it is stored, where its source table is not found, and where its target's name
/// is taken; otherwise it is not.
pub proof fn law_definitions_that_are_refused(facts: DefinitionFacts)
    requires
        acyclic(edge_graph(facts.edges@)),
    ensures
        facts.lacks_old_rows() <==> facts.aggregate && !facts.replica_identity_full,
        facts.closes_circle() <==> !acyclic(edge_graph(facts.edges@.push((facts.source, facts.target)))),
        facts.closes_circle() <==> exists|walk: Seq<Seq<char>>| #[trigger]
            follows_edges(facts.edges@, walk) && walk[0] == facts.target@ && walk.last() == facts.source@,
{
    law_circles_are_closed_by_what_leads_back(facts.edges@, (facts.source, facts.target));
    law_tables_are_reached_along_listed_edges(facts.edges@, facts.target@, facts.source@);
}

/// A relationship makes the declaring table depend on the related one: it closes a
/// circle exactly where that dependency does.
pub proof fn law_relationships_depend_on_the_related_table(facts: RelationshipFacts)
    requires
        acyclic(edge_graph(facts.edges@)),
    ensures
        facts.closes_circle() <==> !acyclic(
            edge_graph(facts.edges@.push((facts.def.to_table, facts.def.from_table))),
        ),
        facts.closes_circle() <==> exists|walk: Seq<Seq<char>>| #[trigger]
            follows_edges(facts.edges@, walk) && walk[0] == facts.def.from_table@ && walk.last()
                == facts.def.to_table@,
{
    law_circles_are_closed_by_what_leads_back(facts.edges@, (facts.def.to_table, facts.def.from_table));
    law_tables_are_reached_along_listed_edges(facts.edges@, facts.def.from_table@, facts.def.to_table@);
}

/// A relationship is acceptable exactly where both join columns are there, their
/// types compare and are both integers, UUIDs or texts that are not padded, its
/// name is free, no circle is closed, and related rows are unique or their old join
/// keys known. Two UUID columns, say, stand against nothing.
pub proof fn law_relationships_that_are_accepted(facts: RelationshipFacts)
    ensures
        facts.acceptable() <==> {
            &&& facts.from_type is Some && facts.to_type is Some
            &&& are_comparable(base_type(facts.from_type->0@), base_type(facts.to_type->0@))
            &&& is_join_key(base_type(facts.from_type->0@)) && is_join_key(base_type(facts.to_type->0@))
            &&& !facts.already_declared
            &&& !facts.closes_circle()
            &&& facts.to_col_unique || facts.to_col_in_old_rows
        },
        facts.cardinality() is ToOne <==> facts.to_col_unique,
        facts.cardinality() is ToMany <==> !facts.to_col_unique,
{
    if facts.from_type is Some && facts.to_type is Some {
        law_families(facts.from_type->0@, facts.to_type->0@);
    }
}

/// Whether a type, without its modifier, can be that of a join key.
pub open spec fn is_join_key(base: Seq<char>) -> bool {
    base == "smallint"@ || base == "integer"@ || base == "bigint"@ || base == "uuid"@ || base == "text"@ || base
        == "character varying"@
}

/// What is reported against a relationship stands against it, and nothing that is
/// looked at before does: first that a join column is there, the declaring table's
/// before the other's, then that the types compare, then that each can be a join
/// key's, then the name, then circles, then old join keys.
pub proof fn law_the_first_reason_is_reported(facts: RelationshipFacts, e: CatalogError)
    requires
        facts.is_reason(e),
        !facts.acceptable(),
    ensures
        e is Validate,
        match e->Validate_0 {
            ValidationError::UnknownRelationshipColumn { table, column } => if facts.from_type is None {
                table@ == facts.def.from_table@ && column@ == facts.def.from_col@
            } else {
                facts.to_type is None && table@ == facts.def.to_table@ && column@ == facts.def.to_col@
            },
            ValidationError::RelationshipTypeMismatch(m) => {
                &&& facts.from_type is Some && facts.to_type is Some
                &&& !are_comparable(base_type(facts.from_type->0@), base_type(facts.to_type->0@))
                &&& m.name@ == facts.def.name@
                &&& m.from_table@ == facts.def.from_table@ && m.from_col@ == facts.def.from_col@ && m.from_type@
                    == facts.from_type->0@
                &&& m.to_table@ == facts.def.to_table@ && m.to_col@ == facts.def.to_col@ && m.to_type@
                    == facts.to_type->0@
            },
            ValidationError::RelationshipUnsupportedJoinKeyType { name, table, column, pg_type } => {
                &&& name@ == facts.def.name@
                &&& facts.from_type is Some && facts.to_type is Some
                &&& are_comparable(base_type(facts.from_type->0@), base_type(facts.to_type->0@))
                &&& !is_join_key(base_type(pg_type@))
                &&& if is_join_key(base_type(facts.from_type->0@)) {
                    table@ == facts.def.to_table@ && column@ == facts.def.to_col@ && pg_type@ == facts.to_type->0@
                } else {
                    table@ == facts.def.from_table@ && column@ == facts.def.from_col@ && pg_type@
                        == facts.from_type->0@
                }
            },
            ValidationError::DuplicateRelationshipName { from_table, name } => has_join_keys(facts)
                && facts.already_declared && from_table@ == facts.def.from_table@ && name@ == facts.def.name@,
            ValidationError::TableCycle { cycle } => has_join_keys(facts) && !facts.already_declared
                && facts.closes_circle() && cycle@.len() >= 2 && cycle@[0]@ == facts.def.from_table@ && cycle@.last()@
                == facts.def.from_table@ && cycle@[cycle@.len() - 2]@ == facts.def.to_table@,
            ValidationError::RelationshipToManyRequiresReplicaIdentity { name, to_table, to_col } => {
                &&& has_join_keys(facts) && !facts.already_declared && !facts.closes_circle()
                &&& !facts.to_col_unique && !facts.to_col_in_old_rows
                &&& name@ == facts.def.name@ && to_table@ == facts.def.to_table@ && to_col@ == facts.def.to_col@
            },
            _ => false,
        },
{
    if facts.from_type is Some && facts.to_type is Some {
        law_families(facts.from_type->0@, facts.to_type->0@);
    }
    if let CatalogError::Validate(ValidationError::TableCycle { cycle }) = e {
        let path = texts(cycle@).drop_last();
        assert(path[0] == cycle@[0]@);
        assert(path.last() == cycle@[cycle@.len() - 2]@);
    }
}

/// Whether a relationship's join columns are there, compare, and can be join keys.
pub open spec fn has_join_keys(facts: RelationshipFacts) -> bool {
    &&& facts.from_type is Some && facts.to_type is Some
    &&& are_comparable(base_type(facts.from_type->0@), base_type(facts.to_type->0@))
    &&& is_join_key(base_type(facts.from_type->0@)) && is_join_key(base_type(facts.to_type->0@))
}

/// A reported circle begins and ends with the edge's end, comes to the edge's start
/// just before, follows listed edges in between, and visits no table twice on the
/// way.
pub proof fn law_reported_circles_are_circles(
    e: CatalogError,
    edges: Seq<(String, String)>,
    source: Seq<char>,
    target: Seq<char>,
)
    requires
        is_table_cycle(e, edges, source, target),
    ensures
        match e {
            CatalogError::Validate(ValidationError::TableCycle { cycle }) => {
                &&& cycle@.len() >= 2
                &&& cycle@[0]@ == target
                &&& cycle@.last()@ == target
                &&& cycle@[cycle@.len() - 2]@ == source
                &&& forall|k: int|
                    0 <= k < cycle@.len() - 2 ==> is_listed(edges, (#[trigger] cycle@[k])@, cycle@[k + 1]@)
                &&& texts(cycle@).drop_last().no_duplicates()
            },
            _ => false,
        },
{
    if let CatalogError::Validate(ValidationError::TableCycle { cycle }) = e {
        let path = texts(cycle@).drop_last();
        assert(path[0] == cycle@[0]@);
        assert(path.last() == cycle@[cycle@.len() - 2]@);
        assert forall|k: int| 0 <= k < cycle@.len() - 2 implies is_listed(
            edges,
            (#[trigger] cycle@[k])@,
            cycle@[k + 1]@,
        ) by {
            assert(path[k] == cycle@[k]@ && path[k + 1] == cycle@[k + 1]@);
            assert(has_edge(edge_graph(edges), path[k], path[k + 1]));
            law_edges_are_those_listed(edges, path[k], path[k + 1]);
        }
    }
}

/// What is reported against a definition names it: the table whose old rows are
/// missing with the statement that an operator has to run, or the target with what
/// it would be called and what is there.
pub proof fn law_definition_errors_name_their_tables(
    e: CatalogError,
    table: Seq<char>,
    code: ErrorCode,
    requested: Seq<char>,
    existing: Option<String>,
)
    ensures
        is_replica_identity_required(e, table, code) ==> e.category() == code && (e matches
            CatalogError::ReplicaIdentityRequired {
            error: IntakeError::ReplicaIdentityRequired { table: t, statement },
            ..
        } && t@ == table && statement@ == "ALTER TABLE "@ + table + " REPLICA IDENTITY FULL;"@),
        is_suffix_collision(e, table, requested, existing) ==> e.category() is Conflict && (e matches
            CatalogError::TargetTableSuffixCollision { target, requested: q, existing: x } && target@ == table && q@
            == requested && x == existing),
{
}

/// A relationship is noticed to lack an index exactly where it does.
pub proof fn law_a_missing_index_is_noticed(warnings: Seq<RelationshipWarning>, facts: RelationshipFacts)
    requires
        are_warnings_of(warnings, facts),
    ensures
        warnings.len() <= 1,
        warnings.len() == 1 <==> !facts.from_col_indexed,
        warnings.len() == 1 ==> match warnings[0] {
            RelationshipWarning::MissingFkIndex { from_table, from_col } => from_table == facts.def.from_table
                && from_col == facts.def.from_col,
        },
{
}

/// What is reported against a definition stands against it, and nothing that is
/// looked at before does: first old rows, then circles, then the source table, then
/// the target's name.
pub proof fn law_the_first_refusal_is_reported(facts: DefinitionFacts, e: CatalogError)
    requires
        facts.is_refusal(e),
    ensures
        e is ReplicaIdentityRequired <==> facts.aggregate && !facts.replica_identity_full,
        e is Validate ==> facts.closes_circle(),
        e is SourceTableNotFound ==> facts.source_schema is None && !facts.closes_circle(),
        e is TargetTableSuffixCollision ==> facts.suffix_owner is Some && facts.source_schema is Some
            && !facts.closes_circle(),
        e matches CatalogError::SourceTableNotFound(table) ==> table@ == facts.source@,
        e matches CatalogError::TargetTableSuffixCollision { target, requested, existing } ==> target@ == facts.target@
            && requested@ == facts.qualified_target@ && existing == facts.suffix_owner,
        e matches CatalogError::Validate(v) ==> (v matches ValidationError::TableCycle { cycle } && cycle@.len() >= 2
            && cycle@.last()@ == facts.target@ && cycle@[cycle@.len() - 2]@ == facts.source@),
        e is ReplicaIdentityRequired || e is Validate || e is SourceTableNotFound || e is TargetTableSuffixCollision,
{
    if e is Validate {
        law_reported_circles_are_circles(e, facts.edges@, facts.source@, facts.target@);
    }
}

/// Only a definition that copies rows of one table is built in chunks.
pub proof fn law_what_is_built_in_chunks(def: TransformDef)
    ensures
        path_of(def, true) is Direct,
        path_of(def, false) is Chunked <==> def.key_space is OneToOne,
        path_of(def, false) is Direct <==> def.key_space is Aggregate,
{
}

/// A definition stays stored exactly where the build left it built or queued; it
/// goes live exactly where it is built; and an error is reported exactly where the
/// build failed, with its category.
pub proof fn law_what_a_build_leaves(outcome: BuildOutcome)
    ensures
        step_after(outcome) is CoverAndGoLive <==> outcome is Built,
        step_after(outcome) is Keep <==> outcome is Queued,
        step_after(outcome) matches InstallStep::Keep(status) ==> outcome == BuildOutcome::Queued(status),
        step_after(outcome) is DeleteAndEnumerate <==> outcome is Unsupported,
        step_after(outcome) is DeleteAndFail <==> outcome is Failed,
        step_after(outcome) matches InstallStep::DeleteAndFail(e) ==> outcome == BuildOutcome::Failed(e.category())
            && e is DirectBackfill,
{
}

} // verus!
