//! What the catalog holds.

use super::ast::{RelationshipDef, TransformDef, ValueType};
use crate::map::TextMap;
use crate::text::same;
use vstd::prelude::*;

verus! {

/// How far a definition's target has come.
#[derive(Debug, Clone, Copy, PartialEq, Eq, Structural)]
pub enum TransformStatus {
    /// The target is complete and kept up to date.
    Live,
    /// The target is being built.
    Backfilling,
    /// The build has not begun.
    WaitingToBackfill,
    /// The definition is set aside.
    Quarantined,
}

impl TransformStatus {
    /// The status's name in the catalog.
    pub open spec fn name(self) -> Seq<char> {
        match self {
            TransformStatus::Live => "live"@,
            TransformStatus::Backfilling => "backfilling"@,
            TransformStatus::WaitingToBackfill => "waiting_to_backfill"@,
            TransformStatus::Quarantined => "quarantined"@,
        }
    }

    /// The status's name in the catalog.
    pub fn as_str(self) -> (r: &'static str)
        ensures
            r@ == self.name(),
    {
        match self {
            TransformStatus::Live => "live",
            TransformStatus::Backfilling => "backfilling",
            TransformStatus::WaitingToBackfill => "waiting_to_backfill",
            TransformStatus::Quarantined => "quarantined",
        }
    }

    /// The status that the catalog calls `text`, if there is one.
    pub fn from_persisted(text: &str) -> (r: Option<TransformStatus>)
        ensures
            forall|s: TransformStatus| r == Some(s) <==> text@ == #[trigger] s.name(),
    {
        proof {
            lemma_status_names_differ();
        }
        if same(text, "live") {
            assert(text@ == TransformStatus::Live.name());
            Some(TransformStatus::Live)
        } else if same(text, "backfilling") {
            assert(text@ == TransformStatus::Backfilling.name());
            Some(TransformStatus::Backfilling)
        } else if same(text, "waiting_to_backfill") {
            assert(text@ == TransformStatus::WaitingToBackfill.name());
            Some(TransformStatus::WaitingToBackfill)
        } else if same(text, "quarantined") {
            assert(text@ == TransformStatus::Quarantined.name());
            Some(TransformStatus::Quarantined)
        } else {
            None
        }
    }
}

proof fn lemma_status_names_differ()
    ensures
        forall|a: TransformStatus, b: TransformStatus| #[trigger] a.name() == #[trigger] b.name() ==> a == b,
{
    reveal_strlit("live");
    reveal_strlit("backfilling");
    reveal_strlit("waiting_to_backfill");
    reveal_strlit("quarantined");
    assert("live"@[0] == 'l');
    assert("backfilling"@[0] == 'b');
    assert("waiting_to_backfill"@[0] == 'w');
    assert("quarantined"@[0] == 'q');
}

/// A status's name in the catalog is read back as that status.
pub proof fn law_status_names_round_trip(a: TransformStatus, b: TransformStatus)
    ensures
        a.name() == b.name() <==> a == b,
{
    lemma_status_names_differ();
}

/// Whether a related row is unique for its join key.
#[derive(Debug, Clone, Copy, PartialEq, Eq, Structural)]
pub enum RelationshipCardinality {
    /// At most one related row for a key.
    ToOne,
    /// Any number of related rows for a key.
    ToMany,
}

/// In which role a table takes part in the schema graph.
#[derive(Debug, Clone, Copy, PartialEq, Eq, Structural)]
pub enum NodeKind {
    /// Something reads it.
    Source,
    /// A definition writes it.
    Target,
}

/// Why one table depends on another.
#[derive(Debug, Clone, Copy, PartialEq, Eq, Structural)]
pub enum EdgeKind {
    /// A definition reads it as its `FROM`.
    Source,
    /// A relationship leads to it.
    Relationship,
}

/// A table in the schema graph.
#[derive(Debug, Clone, PartialEq, Eq)]
pub struct SchemaNode {
    /// Its id.
    pub id: i64,
    /// The table.
    pub table_name: String,
    /// Whether something reads it.
    pub is_source: bool,
    /// Whether a definition writes it.
    pub is_target: bool,
}

/// A dependency in the schema graph: `to_node_id` depends on `from_node_id`.
#[derive(Debug, Clone, Copy, PartialEq, Eq, Structural)]
pub struct SchemaEdge {
    /// Its id.
    pub id: i64,
    /// The table depended on.
    pub from_node_id: i64,
    /// The table that depends.
    pub to_node_id: i64,
    /// Why.
    pub kind: EdgeKind,
}

/// A stored transform definition.
#[derive(Debug)]
pub struct Definition {
    /// Its id.
    pub id: i64,
    /// Its source table's version when it was created.
    pub source_version: i64,
    /// What it says.
    pub def: TransformDef,
    /// The types of its source table's columns.
    pub source_columns: TextMap<ValueType>,
    /// How far its target has come.
    pub status: TransformStatus,
    /// Its target table with its schema.
    pub target_table: String,
}

/// Something about a new relationship that works but costs.
#[derive(Debug, Clone, PartialEq, Eq)]
pub enum RelationshipWarning {
    /// No index finds the rows of `from_table` by `from_col`.
    MissingFkIndex {
        /// The table without the index.
        from_table: String,
        /// The column to index.
        from_col: String,
    },
}

/// A stored relationship.
#[derive(Debug, Clone, PartialEq, Eq)]
pub struct RelationshipDefinition {
    /// Its id.
    pub id: i64,
    /// What it says.
    pub def: RelationshipDef,
    /// Whether related rows are unique.
    pub cardinality: RelationshipCardinality,
    /// What was noticed when it was created; empty when it is read back.
    pub warnings: Vec<RelationshipWarning>,
}

/// How the statuses are spelled.
pub proof fn law_status_names()
    ensures
        TransformStatus::Live.name() == "live"@,
        TransformStatus::Backfilling.name() == "backfilling"@,
        TransformStatus::WaitingToBackfill.name() == "waiting_to_backfill"@,
        TransformStatus::Quarantined.name() == "quarantined"@,
{
}

} // verus!
