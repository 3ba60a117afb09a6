//! Metrics: recording them, and reading their text exposition back.

pub mod exposition;
pub mod labels;
pub mod registry;
pub mod rendering;
pub mod reordering;
