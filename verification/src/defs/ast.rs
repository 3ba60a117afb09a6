//! What a definition says, once it is parsed.

use crate::text::same;
use vstd::prelude::*;

verus! {

/// The type of a column's or an expression's values.
#[derive(Debug, Clone, Copy, PartialEq, Eq, Structural)]
pub enum ValueType {
    /// An exact decimal.
    Numeric,
    /// Text.
    Text,
    /// `true` or `false`.
    Boolean,
    /// A UUID.
    Uuid,
}

impl ValueType {
    /// The type's name, in SQL and in the catalog.
    pub open spec fn name(self) -> Seq<char> {
        match self {
            ValueType::Numeric => "numeric"@,
            ValueType::Text => "text"@,
            ValueType::Boolean => "boolean"@,
            ValueType::Uuid => "uuid"@,
        }
    }

    /// The type's name, in SQL and in the catalog.
    pub fn as_sql(self) -> (r: &'static str)
        ensures
            r@ == self.name(),
    {
        match self {
            ValueType::Numeric => "numeric",
            ValueType::Text => "text",
            ValueType::Boolean => "boolean",
            ValueType::Uuid => "uuid",
        }
    }

    /// The type that the catalog calls `text`, if there is one.
    pub fn from_persisted(text: &str) -> (r: Option<ValueType>)
        ensures
            forall|t: ValueType| r == Some(t) <==> text@ == #[trigger] t.name(),
    {
        proof {
            lemma_type_names_differ();
        }
        if same(text, "numeric") {
            assert(text@ == ValueType::Numeric.name());
            Some(ValueType::Numeric)
        } else if same(text, "text") {
            assert(text@ == ValueType::Text.name());
            Some(ValueType::Text)
        } else if same(text, "boolean") {
            assert(text@ == ValueType::Boolean.name());
            Some(ValueType::Boolean)
        } else if same(text, "uuid") {
            assert(text@ == ValueType::Uuid.name());
            Some(ValueType::Uuid)
        } else {
            None
        }
    }
}

proof fn lemma_type_names_differ()
    ensures
        forall|a: ValueType, b: ValueType| #[trigger] a.name() == #[trigger] b.name() ==> a == b,
{
    reveal_strlit("numeric");
    reveal_strlit("text");
    reveal_strlit("boolean");
    reveal_strlit("uuid");
    assert("numeric"@[0] == 'n');
    assert("text"@[0] == 't');
    assert("boolean"@[0] == 'b');
    assert("uuid"@[0] == 'u');
}

/// A type's name in the catalog is read back as that type.
pub proof fn law_type_names_round_trip(a: ValueType, b: ValueType)
    ensures
        a.name() == b.name() <==> a == b,
{
    lemma_type_names_differ();
}

/// A calculated field's expression.
#[derive(Debug, PartialEq, Eq)]
pub enum Expr {
    /// A column of the source table.
    Column(String),
    /// A column of the table that a relationship leads to.
    RelationshipPath {
        /// The relationship's name.
        rel: String,
        /// The column read through it.
        column: String,
    },
    /// An operator between two operands.
    BinaryOp {
        /// The operator.
        op: String,
        /// What stands before it.
        lhs: Box<Expr>,
        /// What stands behind it.
        rhs: Box<Expr>,
    },
    /// A function call.
    FunctionCall {
        /// The function.
        name: String,
        /// Its arguments.
        args: Vec<Expr>,
    },
    /// A number, as it is written.
    NumberLiteral(String),
    /// A string.
    StringLiteral(String),
}

/// A named calculated field.
#[derive(Debug, PartialEq, Eq)]
pub struct Field {
    /// The target column.
    pub name: String,
    /// How it is calculated.
    pub expr: Expr,
}

/// Which source rows one target row is derived from.
#[derive(Debug, Clone, PartialEq, Eq)]
pub enum KeySpace {
    /// One source row each.
    OneToOne,
    /// All source rows that agree on the grouping columns.
    Aggregate {
        /// The grouping columns.
        group_by: Vec<String>,
    },
}

/// Which source rows a definition takes.
#[derive(Debug, Clone, PartialEq, Eq)]
pub enum Predicate {
    /// All of them.
    True,
}

/// A transform definition.
#[derive(Debug, PartialEq, Eq)]
pub struct TransformDef {
    /// The target table, without its schema.
    pub target: String,
    /// The source table, without its schema.
    pub source: String,
    /// Which source rows one target row is derived from.
    pub key_space: KeySpace,
    /// The calculated fields.
    pub fields: Vec<Field>,
    /// Which source rows it takes.
    pub predicate: Predicate,
    /// The schema that the definition spells out for the source, if any.
    pub explicit_source_schema: Option<String>,
    /// The schema that the definition spells out for the target, if any.
    pub explicit_target_schema: Option<String>,
}

/// A relationship declaration: rows of `from_table` belong to the rows of
/// `to_table` whose `to_col` equals their `from_col`.
#[derive(Debug, Clone, PartialEq, Eq)]
pub struct RelationshipDef {
    /// The relationship's name, unique on its `from_table`.
    pub name: String,
    /// The table that declares it.
    pub from_table: String,
    /// That table's join column.
    pub from_col: String,
    /// The related table.
    pub to_table: String,
    /// The related table's join column.
    pub to_col: String,
}

/// How the value types are spelled.
pub proof fn law_type_names()
    ensures
        ValueType::Numeric.name() == "numeric"@,
        ValueType::Text.name() == "text"@,
        ValueType::Boolean.name() == "boolean"@,
        ValueType::Uuid.name() == "uuid"@,
{
}

} // verus!
