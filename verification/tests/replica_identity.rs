use trellis::defs::ast::{KeySpace, Predicate, TransformDef};
use trellis::intake::replica_identity::{needs_old_image, require_replica_identity_full, IntakeError};

fn one_to_one_def(source: &str) -> TransformDef {
    TransformDef {
        target: "derived".to_string(),
        source: source.to_string(),
        key_space: KeySpace::OneToOne,
        fields: vec![],
        predicate: Predicate::True,
        explicit_source_schema: None,
        explicit_target_schema: None,
    }
}

#[test]
fn one_to_one_transforms_never_need_the_old_image() {
    assert!(!needs_old_image(&one_to_one_def("orders")));
}

#[test]
fn aggregates_need_the_old_image() {
    let mut def = one_to_one_def("orders");
    def.key_space = KeySpace::Aggregate {
        group_by: vec!["customer".to_string()],
    };
    assert!(needs_old_image(&def));
}

#[test]
fn a_definition_that_does_need_it_is_rejected_with_the_exact_ddl() {
    let err = require_replica_identity_full("line_items", true)
        .expect_err("a definition needing the old image must be rejected");
    assert_eq!(
        err.to_string(),
        "table line_items needs its old row image for a derivation that requires it; run \
         this against the source database first: ALTER TABLE line_items REPLICA IDENTITY \
         FULL;"
    );
    assert_eq!(
        err,
        IntakeError::ReplicaIdentityRequired {
            table: "line_items".to_string(),
            statement: "ALTER TABLE line_items REPLICA IDENTITY FULL;".to_string(),
        }
    );
}

#[test]
fn a_definition_that_does_not_need_it_is_accepted() {
    require_replica_identity_full("orders", false).expect("should not be rejected");
}
