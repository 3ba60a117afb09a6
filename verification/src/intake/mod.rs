//! Taking changes in.

pub mod replica_identity;
