//! Completing a drain: which buckets are done, when a segment is, and which
//! segments a free worker takes next.

use super::apply::ApplyError;
use crate::text::same;
use super::state::SegmentState;
use vstd::prelude::*;

verus! {

/// What a drain of one segment did.
#[derive(Debug, Clone, Copy, PartialEq, Eq, Structural)]
pub struct ApplyOutcome {
    /// How many target rows it physically wrote.
    pub keys_written: usize,
    /// How many target rows it physically deleted.
    pub keys_deleted: usize,
    /// Whether the segment is drained now.
    pub batch_drained: bool,
}

/// What a drain of several segments did.
#[derive(Debug, Clone, PartialEq, Eq)]
pub struct ManyApplyOutcome {
    /// How many target rows it physically wrote.
    pub keys_written: usize,
    /// How many target rows it physically deleted.
    pub keys_deleted: usize,
    /// For each segment, whether it is drained now.
    pub segments_drained: Vec<(i64, bool)>,
}

/// The outcome of a drain of one segment, from that of a drain of several that
/// took only this one.
pub fn single_outcome(outcome: &ManyApplyOutcome) -> (r: ApplyOutcome)
    requires
        outcome.segments_drained@.len() > 0,
    ensures
        r.keys_written == outcome.keys_written,
        r.keys_deleted == outcome.keys_deleted,
        r.batch_drained == outcome.segments_drained@[0].1,
{
    ApplyOutcome {
        keys_written: outcome.keys_written,
        keys_deleted: outcome.keys_deleted,
        batch_drained: outcome.segments_drained[0].1,
    }
}

/// Whether the bit of a bucket is set.
pub open spec fn has_bit(mask: u64, bucket: u64) -> bool {
    (mask >> bucket) & 1 == 1
}

/// Whether `bucket` is one of `buckets`.
pub open spec fn is_bucket(buckets: Seq<i16>, bucket: u64) -> bool {
    exists|i: int| 0 <= i < buckets.len() && #[trigger] buckets[i] == bucket
}

proof fn lemma_set_bit(mask: u64, bucket: u64, other: u64)
    requires
        bucket < 64,
        other < 64,
    ensures
        has_bit(mask | (1u64 << bucket), other) <==> has_bit(mask, other) || other == bucket,
{
    assert(((mask | (1u64 << bucket)) >> other) & 1 == 1 <==> ((mask >> other) & 1 == 1 || other == bucket))
        by (bit_vector)
        requires
            bucket < 64,
            other < 64,
    ;
}

/// The mask of the given buckets, or [`ApplyError::ClaimLost`] where there are
/// none: then the claim was gone.
pub fn claimed_mask(buckets: &Vec<i16>) -> (r: Result<u64, ApplyError>)
    requires
        forall|i: int| 0 <= i < buckets@.len() ==> 0 <= #[trigger] buckets@[i] < 64,
    ensures
        r is Err <==> buckets@.len() == 0,
        r matches Err(e) ==> e is ClaimLost,
        r matches Ok(mask) ==> forall|b: u64| b < 64 ==> (#[trigger] has_bit(mask, b) <==> is_bucket(buckets@, b)),
{
    if buckets.len() == 0 {
        return Err(ApplyError::ClaimLost);
    }
    let mut mask: u64 = 0;
    assert forall|b: u64| b < 64 implies !#[trigger] has_bit(0u64, b) by {
        assert((0u64 >> b) & 1 != 1) by (bit_vector)
            requires
                b < 64,
        ;
    }
    for i in 0..buckets.len()
        invariant
            forall|i: int| 0 <= i < buckets@.len() ==> 0 <= #[trigger] buckets@[i] < 64,
            forall|b: u64| b < 64 ==> (#[trigger] has_bit(mask, b) <==> is_bucket(buckets@.take(i as int), b)),
    {
        let bucket: u64 = buckets[i] as u64;
        let ghost before = mask;
        mask = mask | (1u64 << bucket);
        proof {
            let done = buckets@.take(i as int);
            let next = buckets@.take(i + 1);
            assert forall|b: u64| b < 64 implies (#[trigger] has_bit(mask, b) <==> is_bucket(next, b)) by {
                lemma_set_bit(before, bucket, b);
                assert(has_bit(before, b) <==> is_bucket(done, b));
                if is_bucket(done, b) {
                    let k = choose|k: int| 0 <= k < done.len() && #[trigger] done[k] == b;
                    assert(next[k] == b);
                }
                if b == bucket {
                    assert(next[i as int] == b);
                }
                if is_bucket(next, b) && b != bucket {
                    let k = choose|k: int| 0 <= k < next.len() && #[trigger] next[k] == b;
                    assert(done[k] == b);
                }
            }
        }
    }
    assert(buckets@.take(buckets@.len() as int) =~= buckets@);
    Ok(mask)
}

/// The mask of all buckets of a segment.
pub fn full_mask(bucket_count: i16) -> (r: u64)
    requires
        0 <= bucket_count < 64,
    ensures
        forall|b: u64| b < 64 ==> (#[trigger] has_bit(r, b) <==> b < bucket_count),
{
    let count: u64 = bucket_count as u64;
    let r: u64 = !(u64::MAX << count);
    assert forall|b: u64| b < 64 implies (#[trigger] has_bit(r, b) <==> b < bucket_count) by {
        assert((!(0xffff_ffff_ffff_ffffu64 << count) >> b) & 1 == 1 <==> b < count) by (bit_vector)
            requires
                count < 64,
                b < 64,
        ;
    }
    r
}

/// Whether a segment is drained, from the state that completing it left it in.
pub fn batch_drained(state: &Option<String>) -> (r: bool)
    ensures
        r == (state is Some && state->0@ == "drained"@),
        r == is_drained(*state),
{
    match state {
        Some(s) => same(s.as_str(), "drained"),
        None => false,
    }
}

/// The segments to take at once, of claimable segments in ascending order with
/// whether each holds a truncate: those before the first truncate, or that
/// truncate alone where it comes first.
pub open spec fn claim_batch(rows: Seq<(i64, bool)>) -> Seq<i64> {
    if rows.len() > 0 && rows[0].1 {
        seq![rows[0].0]
    } else {
        before_truncate(rows)
    }
}

/// The segments before the first truncate.
pub open spec fn before_truncate(rows: Seq<(i64, bool)>) -> Seq<i64>
    decreases rows.len(),
{
    if rows.len() == 0 || rows[0].1 {
        seq![]
    } else {
        seq![rows[0].0] + before_truncate(rows.drop_first())
    }
}

/// The segments that a free worker takes at once: a segment with a truncate is
/// never taken together with another.
pub fn next_claimable_segments(rows: &Vec<(i64, bool)>) -> (r: Vec<i64>)
    ensures
        r@ == claim_batch(rows@),
{
    let mut batch: Vec<i64> = Vec::new();
    let mut i: usize = 0;
    assert(rows@.skip(0) =~= rows@);
    assert(batch@ + before_truncate(rows@) =~= before_truncate(rows@));
    while i < rows.len()
        invariant
            i <= rows@.len(),
            batch@.len() == i,
            i > 0 ==> !rows@[0].1,
            batch@ + before_truncate(rows@.skip(i as int)) == before_truncate(rows@),
        decreases rows@.len() - i,
    {
        let (seg_seq, has_truncate) = rows[i];
        let ghost rest = rows@.skip(i as int);
        if has_truncate {
            if batch.len() == 0 {
                batch.push(seg_seq);
                assert(batch@ =~= seq![rows@[0].0]);
            } else {
                assert(batch@ + before_truncate(rest) =~= batch@);
            }
            return batch;
        }
        let ghost before = batch@;
        batch.push(seg_seq);
        proof {
            assert(rest.drop_first() =~= rows@.skip(i + 1));
            let tail = before_truncate(rows@.skip(i + 1));
            assert(before + (seq![seg_seq] + tail) =~= before.push(seg_seq) + tail);
        }
        i = i + 1;
    }
    assert(rows@.skip(i as int) =~= seq![]);
    assert(batch@ + before_truncate(rows@.skip(i as int)) =~= batch@);
    batch
}

/// The segment that a free worker takes next.
pub fn next_claimable_segment(rows: &Vec<(i64, bool)>) -> (r: Option<i64>)
    ensures
        r == if rows@.len() == 0 {
            None
        } else {
            Some(rows@[0].0)
        },
        r == first_claim(rows@),
{
    if rows.len() == 0 {
        None
    } else {
        Some(rows[0].0)
    }
}

/// A batch takes a truncate only alone, and takes something wherever there is
/// something to take.
pub proof fn law_truncates_are_taken_alone(rows: Seq<(i64, bool)>, i: int)
    requires
        0 <= i < claim_batch(rows).len(),
    ensures
        claim_batch(rows).len() <= rows.len(),
        claim_batch(rows)[i] == rows[i].0,
        rows[i].1 ==> claim_batch(rows).len() == 1,
{
    if !rows[0].1 {
        lemma_before_truncate(rows, i);
    }
}

proof fn lemma_before_truncate(rows: Seq<(i64, bool)>, i: int)
    requires
        0 <= i < before_truncate(rows).len(),
    ensures
        before_truncate(rows).len() <= rows.len(),
        before_truncate(rows)[i] == rows[i].0,
        !rows[i].1,
    decreases rows.len(),
{
    let rest = rows.drop_first();
    if i > 0 {
        lemma_before_truncate(rest, i - 1);
    } else if before_truncate(rest).len() > 0 {
        lemma_before_truncate(rest, 0);
    }
}

/// A worker takes segments from the first up to the first truncate, which it takes
/// only where it is the first, and then alone.
pub proof fn law_a_batch_goes_up_to_the_first_truncate(rows: Seq<(i64, bool)>, n: int)
    requires
        0 <= n <= rows.len(),
        forall|i: int| 0 <= i < n ==> !(#[trigger] rows[i]).1,
        n < rows.len() ==> rows[n].1,
    ensures
        n > 0 ==> claim_batch(rows).len() == n,
        n == 0 && rows.len() > 0 ==> claim_batch(rows) == seq![rows[0].0],
        rows.len() == 0 ==> claim_batch(rows).len() == 0,
        forall|i: int| 0 <= i < n ==> #[trigger] claim_batch(rows)[i] == rows[i].0,
{
    lemma_truncate_at(rows, n);
    if n > 0 {
        assert(!rows[0].1);
    }
}

proof fn lemma_truncate_at(rows: Seq<(i64, bool)>, n: int)
    requires
        0 <= n <= rows.len(),
        forall|i: int| 0 <= i < n ==> !(#[trigger] rows[i]).1,
        n < rows.len() ==> rows[n].1,
    ensures
        before_truncate(rows).len() == n,
        forall|i: int| 0 <= i < n ==> #[trigger] before_truncate(rows)[i] == rows[i].0,
    decreases rows.len(),
{
    if n > 0 {
        assert(!rows[0].1);
        let rest = rows.drop_first();
        assert forall|i: int| 0 <= i < n - 1 implies !(#[trigger] rest[i]).1 by {
            assert(rest[i] == rows[i + 1]);
        }
        lemma_truncate_at(rest, n - 1);
        assert forall|i: int| 0 <= i < n implies #[trigger] before_truncate(rows)[i] == rows[i].0 by {
            if i > 0 {
                assert(before_truncate(rest)[i - 1] == rest[i - 1].0);
            }
        }
    }
}

/// A bit stands for its bucket: it is the power of two.
pub proof fn law_bits_are_powers_of_two(bucket: u64, other: u64)
    requires
        bucket < 64,
        other < 64,
    ensures
        has_bit(1u64 << bucket, other) <==> bucket == other,
        !has_bit(0, other),
        has_bit(u64::MAX, other),
{
    assert(((1u64 << bucket) >> other) & 1 == 1 <==> bucket == other) by (bit_vector)
        requires
            bucket < 64,
            other < 64,
    ;
    assert((0u64 >> other) & 1 == 0) by (bit_vector)
        requires
            other < 64,
    ;
    assert((0xffff_ffff_ffff_ffffu64 >> other) & 1 == 1) by (bit_vector)
        requires
            other < 64,
    ;
}

/// The segment that a worker takes next.
pub open spec fn first_claim(rows: Seq<(i64, bool)>) -> Option<i64> {
    if rows.len() == 0 {
        None
    } else {
        Some(rows[0].0)
    }
}

/// A worker that takes one segment takes the first of those that it would take at
/// once, and takes one wherever there is one.
pub proof fn law_one_segment_is_the_first_of_several(rows: Seq<(i64, bool)>)
    ensures
        rows.len() > 0 ==> claim_batch(rows).len() > 0 && first_claim(rows) == Some(claim_batch(rows)[0]),
        rows.len() == 0 ==> first_claim(rows) is None && claim_batch(rows).len() == 0,
{
}

/// Whether the state that completing a segment left it in is that it is drained.
pub open spec fn is_drained(state: Option<String>) -> bool {
    state is Some && state->0@ == "drained"@
}

/// A segment is drained exactly where its state is the one of that name.
pub proof fn law_drained_is_a_state(state: Option<String>)
    ensures
        is_drained(state) <==> state is Some && state->0@ == SegmentState::Drained.name(),
{
}

} // verus!
