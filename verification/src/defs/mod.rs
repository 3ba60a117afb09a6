//! Transform and relationship definitions.

pub mod ast;
pub mod catalog;
pub mod error;
pub mod lineage;
pub mod model;
pub mod rows;
pub mod types;
