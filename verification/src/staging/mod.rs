//! From staged changes to applied targets.

pub mod apply;
pub mod batch;
pub mod change;
pub mod clears;
pub mod completion;
pub mod compute;
pub mod drain;
pub mod plan;
pub mod readers;
pub mod related;
pub mod retire;
pub mod reverse;
pub mod rows;
pub mod run;
pub mod sql;
pub mod state;
pub mod touch;
