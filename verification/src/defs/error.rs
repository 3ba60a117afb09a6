//! Why a definition cannot be created or read.

use crate::error_code::ErrorCode;
use crate::intake::replica_identity::IntakeError;
use crate::text::has_within;
use vstd::prelude::*;

verus! {

/// Why a definition's text does not parse.
#[derive(Debug, Clone, PartialEq, Eq)]
pub enum ParseError {
    /// A string has no end.
    UnterminatedString,
    /// Anything else, in words.
    Other(String),
}

impl ParseError {
    /// The error's category.
    pub fn code(&self) -> (r: ErrorCode)
        ensures
            r is Parse,
    {
        ErrorCode::Parse
    }
}

/// Two join columns whose types do not compare.
#[derive(Debug, Clone, PartialEq, Eq)]
pub struct RelationshipTypeMismatch {
    /// The relationship.
    pub name: String,
    /// The table that declares it.
    pub from_table: String,
    /// That table's join column.
    pub from_col: String,
    /// That column's type.
    pub from_type: String,
    /// The related table.
    pub to_table: String,
    /// The related table's join column.
    pub to_col: String,
    /// That column's type.
    pub to_type: String,
}

/// Why a definition is rejected for what it says.
#[derive(Debug, Clone, PartialEq, Eq)]
pub enum ValidationError {
    /// The table has a relationship of that name.
    DuplicateRelationshipName {
        /// The table.
        from_table: String,
        /// The name.
        name: String,
    },
    /// There is no such table or column.
    UnknownRelationshipColumn {
        /// The table.
        table: String,
        /// The column.
        column: String,
    },
    /// A join column's type does not compare as its text does.
    RelationshipUnsupportedJoinKeyType {
        /// The relationship.
        name: String,
        /// The join column's table.
        table: String,
        /// The join column.
        column: String,
        /// Its type.
        pg_type: String,
    },
    /// The join columns' types do not compare.
    RelationshipTypeMismatch(Box<RelationshipTypeMismatch>),
    /// The related table's changes do not carry the join column's old value.
    RelationshipToManyRequiresReplicaIdentity {
        /// The relationship.
        name: String,
        /// The related table.
        to_table: String,
        /// The related table's join column.
        to_col: String,
    },
    /// The tables would depend on one another in a circle.
    TableCycle {
        /// The circle, its first table at both ends.
        cycle: Vec<String>,
    },
    /// Anything else, in words.
    Other(String),
}

impl ValidationError {
    /// The error's category: a conflict where existing state stands in the way.
    pub open spec fn category(self) -> ErrorCode {
        if self is DuplicateRelationshipName {
            ErrorCode::Conflict
        } else {
            ErrorCode::Validation
        }
    }

    /// The error's category.
    pub fn code(&self) -> (r: ErrorCode)
        ensures
            r == self.category(),
    {
        match self {
            ValidationError::DuplicateRelationshipName { .. } => ErrorCode::Conflict,
            ValidationError::UnknownRelationshipColumn { .. }
            | ValidationError::RelationshipUnsupportedJoinKeyType { .. }
            | ValidationError::RelationshipTypeMismatch(_)
            | ValidationError::RelationshipToManyRequiresReplicaIdentity { .. }
            | ValidationError::TableCycle { .. }
            | ValidationError::Other(_) => ErrorCode::Validation,
        }
    }
}

/// Why creating or reading a definition failed. An error of another layer is
/// held as its category.
#[derive(Debug, Clone, PartialEq, Eq)]
pub enum CatalogError {
    /// The text does not parse.
    Parse(ParseError),
    /// The definition is rejected for what it says.
    Validate(ValidationError),
    /// The database failed.
    Db(ErrorCode),
    /// No connection could be had.
    Pool(ErrorCode),
    /// A stored column type is none that is known.
    UnknownValueType {
        /// The column.
        column: String,
        /// The stored type.
        text: String,
    },
    /// The source table could not be enumerated.
    Backfill(ErrorCode),
    /// The source table is nowhere on the search path.
    SourceTableNotFound(String),
    /// Another definition has a target of the same name in another schema.
    TargetTableSuffixCollision {
        /// The name.
        target: String,
        /// The rejected definition's target, with its schema.
        requested: String,
        /// The other definition's target, with its schema, where it is known.
        existing: Option<String>,
    },
    /// The source table's changes do not carry the old row image.
    ReplicaIdentityRequired {
        /// What is required.
        error: IntakeError,
        /// Its category.
        code: ErrorCode,
    },
    /// The target table could not be created.
    Ddl(ErrorCode),
    /// The target could not be built.
    DirectBackfill(ErrorCode),
}

impl CatalogError {
    /// The error's category: that of the wrapped error, where there is one.
    pub open spec fn category(self) -> ErrorCode {
        match self {
            CatalogError::Parse(_) => ErrorCode::Parse,
            CatalogError::Validate(err) => err.category(),
            CatalogError::Db(code) => code,
            CatalogError::Pool(code) => code,
            CatalogError::UnknownValueType { .. } => ErrorCode::Internal,
            CatalogError::Backfill(code) => code,
            CatalogError::SourceTableNotFound(_) => ErrorCode::NotFound,
            CatalogError::TargetTableSuffixCollision { .. } => ErrorCode::Conflict,
            CatalogError::ReplicaIdentityRequired { code, .. } => code,
            CatalogError::Ddl(code) => code,
            CatalogError::DirectBackfill(code) => code,
        }
    }

    /// The error's category.
    pub fn code(&self) -> (r: ErrorCode)
        ensures
            r == self.category(),
    {
        match self {
            CatalogError::Parse(err) => err.code(),
            CatalogError::Validate(err) => err.code(),
            CatalogError::Db(code) => *code,
            CatalogError::Pool(code) => *code,
            CatalogError::UnknownValueType { .. } => ErrorCode::Internal,
            CatalogError::Backfill(code) => *code,
            CatalogError::SourceTableNotFound(_) => ErrorCode::NotFound,
            CatalogError::TargetTableSuffixCollision { .. } => ErrorCode::Conflict,
            CatalogError::ReplicaIdentityRequired { code, .. } => *code,
            CatalogError::Ddl(code) => *code,
            CatalogError::DirectBackfill(code) => *code,
        }
    }

    /// The error in words, around the words of the wrapped error, if there is one.
    pub open spec fn text(self, cause: Seq<char>) -> Seq<char> {
        match self {
            CatalogError::Parse(_) => "failed to parse transform definition: "@ + cause,
            CatalogError::Validate(_) => "definition failed validation: "@ + cause,
            CatalogError::Db(_) => "transform catalog database error: "@ + cause,
            CatalogError::Pool(_) => "failed to acquire a connection: "@ + cause,
            CatalogError::UnknownValueType { column, text } => "column '"@ + column@
                + "' has an unrecognized persisted value type '"@ + text@ + "'"@,
            CatalogError::Backfill(_) => "failed to backfill the definition's source table: "@ + cause,
            CatalogError::SourceTableNotFound(table) => "source table \""@ + table@
                + "\" not found on the search path"@,
            CatalogError::TargetTableSuffixCollision { target, requested, existing } => match existing {
                Some(existing) => "target table \""@ + target@
                    + "\" is ambiguous: this definition would persist \""@ + requested@ + "\", but \""@ + existing@
                    + "\" already exists under the same bare table name — two definitions cannot share a bare target-table name under different schemas"@,
                None => "target table \""@ + target@ + "\" is ambiguous: this definition would persist \""@ + requested@
                    + "\", but another definition was concurrently created under the same bare table name — two definitions cannot share a bare target-table name under different schemas"@,
            },
            CatalogError::ReplicaIdentityRequired { error, .. } => error.message(),
            CatalogError::Ddl(_) => "failed to create target table: "@ + cause,
            CatalogError::DirectBackfill(_) => "direct backfill failed: "@ + cause,
        }
    }

    /// The error in words, around the words of the wrapped error, if there is one.
    pub fn message(&self, cause: &str) -> (r: String)
        ensures
            r@ == self.text(cause@),
    {
        let mut r = String::new();
        match self {
            CatalogError::Parse(_) => {
                r.append("failed to parse transform definition: ");
                r.append(cause);
            },
            CatalogError::Validate(_) => {
                r.append("definition failed validation: ");
                r.append(cause);
            },
            CatalogError::Db(_) => {
                r.append("transform catalog database error: ");
                r.append(cause);
            },
            CatalogError::Pool(_) => {
                r.append("failed to acquire a connection: ");
                r.append(cause);
            },
            CatalogError::UnknownValueType { column, text } => {
                r.append("column '");
                r.append(column.as_str());
                r.append("' has an unrecognized persisted value type '");
                r.append(text.as_str());
                r.append("'");
            },
            CatalogError::Backfill(_) => {
                r.append("failed to backfill the definition's source table: ");
                r.append(cause);
            },
            CatalogError::SourceTableNotFound(table) => {
                r.append("source table \"");
                r.append(table.as_str());
                r.append("\" not found on the search path");
            },
            CatalogError::TargetTableSuffixCollision { target, requested, existing } => {
                r.append("target table \"");
                r.append(target.as_str());
                r.append("\" is ambiguous: this definition would persist \"");
                r.append(requested.as_str());
                match existing {
                    Some(existing) => {
                        r.append("\", but \"");
                        r.append(existing.as_str());
                        r.append(
                            "\" already exists under the same bare table name — two definitions cannot share a bare target-table name under different schemas",
                        );
                    },
                    None => {
                        r.append(
                            "\", but another definition was concurrently created under the same bare table name — two definitions cannot share a bare target-table name under different schemas",
                        );
                    },
                }
            },
            CatalogError::ReplicaIdentityRequired { error, .. } => {
                let text = error.to_string();
                r.append(text.as_str());
            },
            CatalogError::Ddl(_) => {
                r.append("failed to create target table: ");
                r.append(cause);
            },
            CatalogError::DirectBackfill(_) => {
                r.append("direct backfill failed: ");
                r.append(cause);
            },
        }
        assert(r@ =~= self.text(cause@));
        r
    }
}

/// A name that is taken is a conflict; any other reason against a definition is one
/// of validation.
pub proof fn law_validation_categories(e: ValidationError)
    ensures
        e is DuplicateRelationshipName ==> e.category() is Conflict,
        !(e is DuplicateRelationshipName) ==> e.category() is Validation,
{
}

/// The categories of the catalog's errors: their own, or that of the error that
/// they wrap.
pub proof fn law_catalog_categories(e: CatalogError)
    ensures
        e is Parse ==> e.category() is Parse,
        e matches CatalogError::Validate(inner) ==> e.category() == inner.category(),
        e is UnknownValueType ==> e.category() is Internal,
        e is SourceTableNotFound ==> e.category() is NotFound,
        e is TargetTableSuffixCollision ==> e.category() is Conflict,
        e matches CatalogError::Db(code) ==> e.category() == code,
        e matches CatalogError::Pool(code) ==> e.category() == code,
        e matches CatalogError::Backfill(code) ==> e.category() == code,
        e matches CatalogError::Ddl(code) ==> e.category() == code,
        e matches CatalogError::DirectBackfill(code) ==> e.category() == code,
        e matches CatalogError::ReplicaIdentityRequired { code, .. } ==> e.category() == code,
{
}

proof fn lemma_names(text: Seq<char>, before: Seq<char>, part: Seq<char>, after: Seq<char>)
    requires
        text == before + part + after,
    ensures
        has_within(text, part),
{
    let i = before.len() as int;
    assert(text.subrange(i, i + part.len()) =~= part);
}

/// An error names in its words what it is about: the column and its type, the
/// tables, or the error that it wraps.
pub proof fn law_catalog_messages_name_what_failed(e: CatalogError, cause: Seq<char>)
    ensures
        e is Parse || e is Validate || e is Db || e is Pool || e is Backfill || e is Ddl || e is DirectBackfill ==> has_within(
            e.text(cause),
            cause,
        ),
        e matches CatalogError::UnknownValueType { column, text } ==> has_within(e.text(cause), column@) && has_within(
            e.text(cause),
            text@,
        ),
        e matches CatalogError::SourceTableNotFound(table) ==> has_within(e.text(cause), table@),
        e matches CatalogError::TargetTableSuffixCollision { target, requested, existing } ==> has_within(
            e.text(cause),
            target@,
        ) && has_within(e.text(cause), requested@) && (existing is Some ==> has_within(e.text(cause), existing->0@)),
        e matches CatalogError::ReplicaIdentityRequired { error, .. } ==> e.text(cause) == error.message(),
{
    let none: Seq<char> = seq![];
    let text = e.text(cause);
    match e {
        CatalogError::Parse(_) => {
            assert(text =~= "failed to parse transform definition: "@ + cause + none);
            lemma_names(text, "failed to parse transform definition: "@, cause, none);
        },
        CatalogError::Validate(_) => {
            assert(text =~= "definition failed validation: "@ + cause + none);
            lemma_names(text, "definition failed validation: "@, cause, none);
        },
        CatalogError::Db(_) => {
            assert(text =~= "transform catalog database error: "@ + cause + none);
            lemma_names(text, "transform catalog database error: "@, cause, none);
        },
        CatalogError::Pool(_) => {
            assert(text =~= "failed to acquire a connection: "@ + cause + none);
            lemma_names(text, "failed to acquire a connection: "@, cause, none);
        },
        CatalogError::Backfill(_) => {
            assert(text =~= "failed to backfill the definition's source table: "@ + cause + none);
            lemma_names(text, "failed to backfill the definition's source table: "@, cause, none);
        },
        CatalogError::Ddl(_) => {
            assert(text =~= "failed to create target table: "@ + cause + none);
            lemma_names(text, "failed to create target table: "@, cause, none);
        },
        CatalogError::DirectBackfill(_) => {
            assert(text =~= "direct backfill failed: "@ + cause + none);
            lemma_names(text, "direct backfill failed: "@, cause, none);
        },
        CatalogError::UnknownValueType { column, text: t } => {
            let first = "column '"@;
            let second = "' has an unrecognized persisted value type '"@;
            assert(text =~= first + column@ + (second + t@ + "'"@));
            lemma_names(text, first, column@, second + t@ + "'"@);
            lemma_names(text, first + column@ + second, t@, "'"@);
        },
        CatalogError::SourceTableNotFound(table) => {
            lemma_names(text, "source table \""@, table@, "\" not found on the search path"@);
        },
        CatalogError::TargetTableSuffixCollision { target, requested, existing } => {
            let a = "target table \""@;
            let b = "\" is ambiguous: this definition would persist \""@;
            let front = a + target@ + b + requested@;
            let rest = text.skip(front.len() as int);
            assert(text =~= front + rest);
            assert(text =~= a + target@ + (b + requested@ + rest));
            lemma_names(text, a, target@, b + requested@ + rest);
            lemma_names(text, a + target@ + b, requested@, rest);
            if let Some(x) = existing {
                let start = front + "\", but \""@;
                let end = text.skip(start.len() as int + x@.len());
                assert(text =~= start + x@ + end);
                lemma_names(text, start, x@, end);
            }
        },
        CatalogError::ReplicaIdentityRequired { .. } => {},
    }
}

} // verus!
