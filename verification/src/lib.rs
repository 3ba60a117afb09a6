//! Trellis keeps derived tables up to date: it folds the changes of source
//! tables, evaluates the definitions that read them, and applies what follows
//! to the targets, hop by hop.
//!
//! This crate is its logic, without I/O. [`staging`] sorts a batch of changes,
//! plans it, spells the statements that apply it, and says what follows from
//! what was applied; [`defs`] checks definitions and relationships and reads
//! them back; [`metrics`] and [`rollup`] record what happens and read it back;
//! [`numeric`] and [`integer`] are Postgres's exact number types.

pub mod blocking;
pub mod defs;
pub mod digits;
pub mod error_code;
pub mod graph;
pub mod intake;
pub mod integer;
pub mod lists;
pub mod map;
pub mod metrics;
pub mod numeric;
pub mod order;
pub mod rollup;
pub mod staging;
pub mod surface;
pub mod text;
