//! When a definition needs the old image of a changed row, and what its source
//! table has to be set to then.

use crate::defs::ast::{KeySpace, TransformDef};
use vstd::prelude::*;

verus! {

/// Why a source table cannot be taken in.
#[derive(Debug, Clone, PartialEq, Eq)]
pub enum IntakeError {
    /// The table's changes come without the old row image.
    ReplicaIdentityRequired {
        /// The table.
        table: String,
        /// The statement that an operator has to run.
        statement: String,
    },
}

/// The statement that makes a table's changes carry the old row image.
pub open spec fn replica_identity_statement(table: Seq<char>) -> Seq<char> {
    "ALTER TABLE "@ + table + " REPLICA IDENTITY FULL;"@
}

impl IntakeError {
    /// The error in words.
    pub open spec fn message(self) -> Seq<char> {
        match self {
            IntakeError::ReplicaIdentityRequired { table, statement } => "table "@ + table@
                + " needs its old row image for a derivation that requires it; run this against the source database first: "@
                + statement@,
        }
    }

    /// The error in words.
    pub fn to_string(&self) -> (r: String)
        ensures
            r@ == self.message(),
    {
        match self {
            IntakeError::ReplicaIdentityRequired { table, statement } => {
                let mut r = String::new();
                r.append("table ");
                r.append(table.as_str());
                r.append(
                    " needs its old row image for a derivation that requires it; run this against the source database first: ",
                );
                r.append(statement.as_str());
                assert(r@ =~= self.message());
                r
            },
        }
    }
}

/// Whether a definition's derivation needs the old image of a row: an
/// aggregate's does, since a row that leaves a group changes it.
pub fn needs_old_image(def: &TransformDef) -> (r: bool)
    ensures
        r == (def.key_space is Aggregate),
{
    match def.key_space {
        KeySpace::OneToOne => false,
        KeySpace::Aggregate { .. } => true,
    }
}

/// Rejects a source table whose changes need their old row image, with the
/// exact statement that provides it.
pub fn require_replica_identity_full(src_table: &str, needs_old_image: bool) -> (r: Result<(), IntakeError>)
    ensures
        r is Err <==> needs_old_image,
        r matches Err(IntakeError::ReplicaIdentityRequired { table, statement }) ==> table@ == src_table@ && statement@
            == replica_identity_statement(src_table@),
{
    if needs_old_image {
        let mut statement = String::new();
        statement.append("ALTER TABLE ");
        statement.append(src_table);
        statement.append(" REPLICA IDENTITY FULL;");
        assert(statement@ =~= replica_identity_statement(src_table@));
        Err(IntakeError::ReplicaIdentityRequired { table: src_table.to_owned(), statement })
    } else {
        Ok(())
    }
}

/// The error names the table and ends with the statement to run, which alters that
/// table.
pub proof fn law_the_statement_is_spelled_out(e: IntakeError, table: Seq<char>)
    ensures
        replica_identity_statement(table) == "ALTER TABLE "@ + table + " REPLICA IDENTITY FULL;"@,
        match e {
            IntakeError::ReplicaIdentityRequired { table: t, statement } => {
                &&& e.message().len() >= statement@.len()
                &&& e.message().skip(e.message().len() - statement@.len()) == statement@
                &&& e.message().take("table "@.len() as int + t@.len()) == "table "@ + t@
            },
        },
{
    match e {
        IntakeError::ReplicaIdentityRequired { table: t, statement } => {
            let m = e.message();
            assert(m.skip(m.len() - statement@.len()) =~= statement@);
            assert(m.take("table "@.len() as int + t@.len()) =~= "table "@ + t@);
        },
    }
}

} // verus!
