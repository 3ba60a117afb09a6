//! Retiring drained segments: freeing a segment's ring slot, and only where
//! this call is the one that takes it.

use crate::defs::catalog::DbError;
use crate::lists::{lemma_filter_none, lemma_filter_push};
use crate::text::same;
use vstd::prelude::*;

verus! {

/// `tokio_postgres::error::SqlState::LOCK_NOT_AVAILABLE`, by its `code`: the
/// SQLSTATE that Postgres reports for a lock that is held is `55P03`.
#[verifier::external_body]
fn lock_not_available_code() -> (r: String)
    ensures
        r@ == "55P03"@,
{
    tokio_postgres::error::SqlState::LOCK_NOT_AVAILABLE.code().to_owned()
}

/// Whether the error is that a lock is held by someone else.
pub fn is_lock_not_available(err: &DbError) -> (r: bool)
    ensures
        r == (err.code@ == "55P03"@),
{
    let code = lock_not_available_code();
    same(err.code.as_str(), code.as_str())
}

/// How one step of retiring a segment went.
#[derive(Debug, Clone, PartialEq, Eq)]
pub enum RetireEvent {
    /// The ring slot is locked.
    Locked,
    /// The ring slot could not be locked.
    LockFailed(DbError),
    /// The segment's registry row was deleted, or was not there: how many rows
    /// the delete removed.
    Deleted(u64),
    /// The ring slot is truncated.
    Truncated,
}

/// What to do next with a segment.
#[derive(Debug, Clone, Copy, PartialEq, Eq, Structural)]
pub enum RetireAction {
    /// Delete the segment's registry row.
    Delete,
    /// Truncate the ring slot.
    Truncate,
    /// Commit: the segment is retired.
    Commit,
    /// Roll back: the segment is left to whoever has it.
    Skip,
    /// Roll back and report the failure.
    Fail,
}

/// What follows each step: a held lock or a row that is gone leaves the segment
/// alone; only a deleted row lets its slot be truncated.
pub open spec fn retire_next(event: RetireEvent) -> RetireAction {
    match event {
        RetireEvent::Locked => RetireAction::Delete,
        RetireEvent::LockFailed(err) => if err.code@ == "55P03"@ {
            RetireAction::Skip
        } else {
            RetireAction::Fail
        },
        RetireEvent::Deleted(rows) => if rows == 0 {
            RetireAction::Skip
        } else {
            RetireAction::Truncate
        },
        RetireEvent::Truncated => RetireAction::Commit,
    }
}

/// What to do next with a segment, after a step that went as the event says.
pub fn retire_step(event: &RetireEvent) -> (r: RetireAction)
    ensures
        r == retire_next(*event),
{
    match event {
        RetireEvent::Locked => RetireAction::Delete,
        RetireEvent::LockFailed(err) => if is_lock_not_available(err) {
            RetireAction::Skip
        } else {
            RetireAction::Fail
        },
        RetireEvent::Deleted(rows) => if *rows == 0 {
            RetireAction::Skip
        } else {
            RetireAction::Truncate
        },
        RetireEvent::Truncated => RetireAction::Commit,
    }
}

/// A ring slot is truncated only after this call deleted its registry row, and
/// a segment counts as retired only after that.
pub proof fn law_truncation_follows_deletion(event: RetireEvent)
    ensures
        retire_next(event) is Truncate ==> event is Deleted && event->Deleted_0 > 0,
        retire_next(event) is Commit ==> event is Truncated,
        retire_next(event) is Delete ==> event is Locked,
{
}

/// The segments that were retired, of candidates with whether each was.
pub open spec fn retired_of(candidates: Seq<(i64, bool)>) -> Seq<i64>
    decreases candidates.len(),
{
    if candidates.len() == 0 {
        seq![]
    } else if candidates.last().1 {
        retired_of(candidates.drop_last()).push(candidates.last().0)
    } else {
        retired_of(candidates.drop_last())
    }
}

/// The segments that were retired, in order.
pub fn retired_segments(candidates: &Vec<(i64, bool)>) -> (r: Vec<i64>)
    ensures
        r@ == retired_of(candidates@),
{
    let mut r: Vec<i64> = Vec::new();
    for i in 0..candidates.len()
        invariant
            r@ == retired_of(candidates@.take(i as int)),
    {
        assert(candidates@.take(i + 1).drop_last() =~= candidates@.take(i as int));
        if candidates[i].1 {
            r.push(candidates[i].0);
        }
    }
    assert(candidates@.take(candidates@.len() as int) =~= candidates@);
    r
}

/// A locked slot's row is deleted, a deleted row's slot truncated, and a truncated
/// slot committed. A lock that someone else holds, or a row that was gone, leaves
/// the segment alone; any other failure is reported.
pub proof fn law_each_step_is_followed(err: DbError, rows: u64)
    ensures
        retire_next(RetireEvent::Locked) is Delete,
        retire_next(RetireEvent::Truncated) is Commit,
        retire_next(RetireEvent::Deleted(rows)) is Truncate <==> rows > 0,
        retire_next(RetireEvent::Deleted(rows)) is Skip <==> rows == 0,
        retire_next(RetireEvent::LockFailed(err)) is Skip <==> err.code@ == "55P03"@,
        retire_next(RetireEvent::LockFailed(err)) is Fail <==> err.code@ != "55P03"@,
{
}

/// The segments that were retired, and no others, in order.
pub proof fn law_retired_segments_are_listed(candidates: Seq<(i64, bool)>)
    ensures
        retired_of(candidates) == candidates.filter(|c: (i64, bool)| c.1).map_values(|c: (i64, bool)| c.0),
    decreases candidates.len(),
{
    let pass = |c: (i64, bool)| c.1;
    let f = |c: (i64, bool)| c.0;
    if candidates.len() == 0 {
        lemma_filter_none(candidates, pass);
        assert(candidates.take(0) =~= candidates);
        assert(retired_of(candidates) =~= candidates.filter(pass).map_values(f));
    } else {
        let front = candidates.drop_last();
        law_retired_segments_are_listed(front);
        lemma_filter_push(front, candidates.last(), pass);
        assert(candidates =~= front.push(candidates.last()));
        assert(front.filter(pass).push(candidates.last()).map_values(f) =~= front.filter(pass).map_values(f).push(
            f(candidates.last()),
        ));
        assert(retired_of(candidates) =~= candidates.filter(pass).map_values(f));
    }
}

} // verus!
