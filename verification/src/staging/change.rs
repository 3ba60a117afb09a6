//! The changes a drain works on.

use vstd::prelude::*;

verus! {

/// A source commit's time, in nanoseconds since the Unix epoch.
#[derive(Debug, Clone, Copy, PartialEq, Eq, PartialOrd, Ord, Structural)]
pub struct SourceTime {
    /// Nanoseconds since the Unix epoch, negative before it.
    pub nanos: i128,
}

/// Everything a batch holds about one key of one source table, folded into one record.
#[derive(Debug, Clone, PartialEq, Eq)]
pub struct FoldedChange {
    /// The source table, qualified where the producer qualified it.
    pub src_table: String,
    /// The primary key's text.
    pub key: String,
    /// Whether this is the sentinel of a truncate rather than a keyed change.
    pub is_truncate: bool,
    /// The row before the batch, as JSON text.
    pub old_image: Option<String>,
    /// The row after the batch, as JSON text.
    pub new_image: Option<String>,
    /// How many propagation hops led here.
    pub hop_gen: i32,
    /// When the originating source commit happened, where it is known.
    pub src_changed: Option<SourceTime>,
}

impl FoldedChange {
    /// A copy.
    pub fn duplicate(&self) -> (r: FoldedChange)
        ensures
            r == *self,
    {
        FoldedChange {
            src_table: self.src_table.clone(),
            key: self.key.clone(),
            is_truncate: self.is_truncate,
            old_image: self.old_image.clone(),
            new_image: self.new_image.clone(),
            hop_gen: self.hop_gen,
            src_changed: self.src_changed,
        }
    }
}

/// The change that a drain stages for a later one.
#[derive(Debug, Clone, PartialEq, Eq)]
pub enum StagedChange {
    /// An image-less request to derive one key again.
    Recompute {
        /// The table whose key it is.
        src_table: String,
        /// The key's text.
        key: String,
        /// How many propagation hops lead there.
        hop_gen: i32,
        /// The group the key belongs to, where it is one of an aggregate.
        group_key: Option<String>,
        /// The origin it carries forward.
        src_changed: Option<SourceTime>,
    },
}

} // verus!
