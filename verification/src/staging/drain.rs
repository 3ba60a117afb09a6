//! The course of a drain: plan, apply, and what follows a failure.
//!
//! A drain is driven from outside: it says what to do, is told how that went,
//! and says what to do next.

use super::change::FoldedChange;
use crate::lists::{lemma_filter_none, lemma_filter_push, lemma_filter_step};
use crate::text::same;
use vstd::prelude::*;

verus! {

/// The most attempts at one batch, not counting those that only found a source
/// table gone.
pub const MAX_APPLY_ATTEMPTS: u32 = 5;

/// What kind of failure ended an attempt.
#[derive(Debug, Clone, Copy, PartialEq, Eq, Structural)]
pub enum FailureClass {
    /// Definitions changed since the plan was made.
    VersionFenceMiss,
    /// Contention, a lost connection, a timeout.
    Transient,
    /// The schema is wrong; trying again is no use.
    Halting,
    /// Some key may be at fault.
    Isolate,
}

/// How the last action of a drain went.
#[derive(Debug)]
pub enum DrainEvent {
    /// There is a plan.
    Computed,
    /// A source table is gone: its name, as the changes have it.
    SourceTableDropped(String),
    /// Planning or applying failed otherwise.
    Failed(FailureClass),
    /// The plan is applied.
    Applied,
    /// Isolating keys evicted some and left these changes.
    Evicted(Vec<FoldedChange>),
    /// Isolating keys found none at fault.
    NothingEvicted,
}

/// What a drain does next.
#[derive(Debug, Clone, PartialEq, Eq)]
pub enum DrainAction {
    /// Make a plan for its changes.
    Compute,
    /// Apply the plan.
    Apply,
    /// Purge the source table's rows, then make a plan.
    PurgeThenCompute(String),
    /// Wait as long as consecutive misses ask for, then make a plan.
    BackOffThenCompute,
    /// Try each change alone to find the keys at fault.
    Isolate,
    /// Record that the drain stops, then report the last failure.
    RecordStopThenFail,
    /// Report the last failure.
    Fail,
    /// Report success.
    Finish,
}

/// Whether a change is of the source table of that name.
pub open spec fn names_table(c: FoldedChange, table: Seq<char>) -> bool {
    c.src_table@ == table
}

/// The changes of all other source tables.
pub open spec fn without_table(folded: Seq<FoldedChange>, table: Seq<char>) -> Seq<FoldedChange> {
    folded.filter(|c: FoldedChange| !names_table(c, table))
}

/// Drops the changes of a source table.
fn drop_table(folded: &Vec<FoldedChange>, table: &str) -> (r: Vec<FoldedChange>)
    ensures
        r@ == without_table(folded@, table@),
{
    let mut r: Vec<FoldedChange> = Vec::new();
    proof {
        lemma_filter_none(folded@, |c: FoldedChange| !names_table(c, table@));
    }
    for i in 0..folded.len()
        invariant
            r@ == without_table(folded@.take(i as int), table@),
    {
        proof {
            lemma_filter_step(folded@, i as int, |c: FoldedChange| !names_table(c, table@));
        }
        let change = &folded[i];
        if !same(change.src_table.as_str(), table) {
            r.push(change.duplicate());
        }
    }
    assert(folded@.take(folded@.len() as int) =~= folded@);
    r
}

/// The model of a [`Drain`].
pub struct DrainModel {
    /// The number of the attempt under way.
    pub attempt: int,
    /// The changes it works on.
    pub folded: Seq<FoldedChange>,
}

/// A drain under way.
#[derive(Debug)]
pub struct Drain {
    attempt: u32,
    folded: Vec<FoldedChange>,
}

impl View for Drain {
    type V = DrainModel;

    closed spec fn view(&self) -> DrainModel {
        DrainModel { attempt: self.attempt as int, folded: self.folded@ }
    }
}

/// What becomes of a drain's state.
pub open spec fn next_state(d: DrainModel, event: DrainEvent) -> DrainModel {
    match event {
        DrainEvent::Computed => d,
        DrainEvent::SourceTableDropped(table) => DrainModel { folded: without_table(d.folded, table@), ..d },
        DrainEvent::Failed(class) => if (class is VersionFenceMiss || class is Transient) && d.attempt
            < MAX_APPLY_ATTEMPTS {
            DrainModel { attempt: d.attempt + 1, ..d }
        } else {
            d
        },
        DrainEvent::Applied => d,
        DrainEvent::Evicted(rest) => if d.attempt < MAX_APPLY_ATTEMPTS {
            DrainModel { attempt: d.attempt + 1, folded: rest@ }
        } else {
            d
        },
        DrainEvent::NothingEvicted => d,
    }
}

/// What a drain does next: a failure is retried while attempts are left, a miss
/// of the version fence after a wait; a halting failure is recorded and
/// reported; any other failure is isolated, and reported where that finds no
/// key at fault.
pub open spec fn next_action(d: DrainModel, event: DrainEvent) -> DrainAction {
    match event {
        DrainEvent::Computed => DrainAction::Apply,
        DrainEvent::SourceTableDropped(table) => DrainAction::PurgeThenCompute(table),
        DrainEvent::Failed(FailureClass::Halting) => DrainAction::RecordStopThenFail,
        DrainEvent::Failed(class) => if d.attempt >= MAX_APPLY_ATTEMPTS {
            DrainAction::Fail
        } else if class is VersionFenceMiss {
            DrainAction::BackOffThenCompute
        } else if class is Transient {
            DrainAction::Compute
        } else {
            DrainAction::Isolate
        },
        DrainEvent::Applied => DrainAction::Finish,
        DrainEvent::Evicted(_) => if d.attempt < MAX_APPLY_ATTEMPTS {
            DrainAction::Compute
        } else {
            DrainAction::Fail
        },
        DrainEvent::NothingEvicted => DrainAction::Fail,
    }
}

impl Drain {
    /// Attempts are counted from one, up to the limit.
    #[verifier::type_invariant]
    pub closed spec fn well_formed(self) -> bool {
        1 <= self.attempt <= MAX_APPLY_ATTEMPTS
    }

    /// A drain of the given changes; it begins by making a plan.
    pub fn start(folded: Vec<FoldedChange>) -> (r: Drain)
        ensures
            r@ == (DrainModel { attempt: 1, folded: folded@ }),
    {
        Drain { attempt: 1, folded }
    }

    /// The changes it works on.
    pub fn folded(&self) -> (r: &Vec<FoldedChange>)
        ensures
            r@ == self@.folded,
    {
        &self.folded
    }

    /// The number of the attempt under way.
    pub fn attempt(&self) -> (r: u32)
        ensures
            r == self@.attempt,
            1 <= r <= MAX_APPLY_ATTEMPTS,
    {
        proof {
            use_type_invariant(self);
        }
        self.attempt
    }

    /// Takes in how the last action went, and says what to do next.
    pub fn step(self, event: DrainEvent) -> (r: (Drain, DrainAction))
        ensures
            r.0@ == next_state(self@, event),
            r.1 == next_action(self@, event),
    {
        proof {
            use_type_invariant(&self);
        }
        let Drain { attempt, folded } = self;
        match event {
            DrainEvent::Computed => (Drain { attempt, folded }, DrainAction::Apply),
            DrainEvent::SourceTableDropped(table) => {
                let rest = drop_table(&folded, table.as_str());
                (Drain { attempt, folded: rest }, DrainAction::PurgeThenCompute(table))
            },
            DrainEvent::Failed(class) => match class {
                FailureClass::Halting => (Drain { attempt, folded }, DrainAction::RecordStopThenFail),
                FailureClass::VersionFenceMiss => if attempt >= MAX_APPLY_ATTEMPTS {
                    (Drain { attempt, folded }, DrainAction::Fail)
                } else {
                    (Drain { attempt: attempt + 1, folded }, DrainAction::BackOffThenCompute)
                },
                FailureClass::Transient => if attempt >= MAX_APPLY_ATTEMPTS {
                    (Drain { attempt, folded }, DrainAction::Fail)
                } else {
                    (Drain { attempt: attempt + 1, folded }, DrainAction::Compute)
                },
                FailureClass::Isolate => if attempt >= MAX_APPLY_ATTEMPTS {
                    (Drain { attempt, folded }, DrainAction::Fail)
                } else {
                    (Drain { attempt, folded }, DrainAction::Isolate)
                },
            },
            DrainEvent::Applied => (Drain { attempt, folded }, DrainAction::Finish),
            DrainEvent::Evicted(rest) => if attempt < MAX_APPLY_ATTEMPTS {
                (Drain { attempt: attempt + 1, folded: rest }, DrainAction::Compute)
            } else {
                (Drain { attempt, folded }, DrainAction::Fail)
            },
            DrainEvent::NothingEvicted => (Drain { attempt, folded }, DrainAction::Fail),
        }
    }
}

/// A drain makes another plan only after an attempt more, or after a source
/// table's changes are gone, so it cannot try for ever.
pub proof fn law_every_retry_uses_something_up(d: DrainModel, event: DrainEvent)
    requires
        1 <= d.attempt <= MAX_APPLY_ATTEMPTS,
        event matches DrainEvent::SourceTableDropped(table) ==> exists|i: int|
            0 <= i < d.folded.len() && names_table(#[trigger] d.folded[i], table@),
    ensures
        ({
            let next = next_state(d, event);
            let action = next_action(d, event);
            &&& 1 <= next.attempt <= MAX_APPLY_ATTEMPTS
            &&& action is Compute || action is BackOffThenCompute ==> next.attempt == d.attempt + 1
            &&& action is PurgeThenCompute ==> next.attempt == d.attempt && next.folded.len() < d.folded.len()
        }),
{
    if let DrainEvent::SourceTableDropped(table) = event {
        let i = choose|i: int| 0 <= i < d.folded.len() && names_table(#[trigger] d.folded[i], table@);
        lemma_without_shrinks(d.folded, table@, i);
    }
}

proof fn lemma_without_shrinks(folded: Seq<FoldedChange>, table: Seq<char>, i: int)
    requires
        0 <= i < folded.len(),
        names_table(folded[i], table),
    ensures
        without_table(folded, table).len() < folded.len(),
    decreases folded.len(),
{
    let front = folded.drop_last();
    assert(folded =~= front.push(folded.last()));
    lemma_filter_push(front, folded.last(), |c: FoldedChange| !names_table(c, table));
    front.lemma_filter_len(|c: FoldedChange| !names_table(c, table));
    if i < front.len() {
        lemma_without_shrinks(front, table, i);
    }
}

/// After a source table is purged no change of it is left, and every other
/// change is.
pub proof fn law_purging_drops_one_table(folded: Seq<FoldedChange>, table: Seq<char>, c: FoldedChange)
    ensures
        without_table(folded, table).contains(c) <==> folded.contains(c) && !names_table(c, table),
    decreases folded.len(),
{
    reveal(Seq::filter);
    let kept = without_table(folded, table);
    if folded.len() > 0 {
        let front = folded.drop_last();
        let last = folded.last();
        law_purging_drops_one_table(front, table, c);
        assert(folded =~= front.push(last));
        lemma_filter_push(front, last, |c: FoldedChange| !names_table(c, table));
        let before = without_table(front, table);
        if kept.contains(c) {
            let i = choose|i: int| 0 <= i < kept.len() && kept[i] == c;
            if i < before.len() {
                assert(before[i] == c);
                let j = choose|j: int| 0 <= j < front.len() && front[j] == c;
                assert(folded[j] == c);
            } else {
                assert(folded[front.len() as int] == c);
            }
        }
        if folded.contains(c) && !names_table(c, table) {
            let j = choose|j: int| 0 <= j < folded.len() && folded[j] == c;
            if j < front.len() {
                assert(front[j] == c);
                let i = choose|i: int| 0 <= i < before.len() && before[i] == c;
                assert(kept[i] == c);
            } else {
                assert(kept[before.len() as int] == c);
            }
        }
    }
}

/// The segments of which a claim holds at least one bucket, of segments given
/// with whether it does.
pub open spec fn owned(segments: Seq<(i64, bool)>) -> Seq<i64>
    decreases segments.len(),
{
    if segments.len() == 0 {
        seq![]
    } else if segments.last().1 {
        owned(segments.drop_last()).push(segments.last().0)
    } else {
        owned(segments.drop_last())
    }
}

/// The segments of which a claim holds at least one bucket; the others are left
/// to those who hold them.
pub fn owned_segments(segments: &Vec<(i64, bool)>) -> (r: Vec<i64>)
    ensures
        r@ == owned(segments@),
{
    let mut r: Vec<i64> = Vec::new();
    for i in 0..segments.len()
        invariant
            r@ == owned(segments@.take(i as int)),
    {
        assert(segments@.take(i + 1).drop_last() =~= segments@.take(i as int));
        if segments[i].1 {
            r.push(segments[i].0);
        }
    }
    assert(segments@.take(segments@.len() as int) =~= segments@);
    r
}

/// A failure that may pass is followed by another plan, one attempt further, as
/// long as attempts are left, a miss of the version fence after a wait; one that
/// may be a key's fault by isolation. With no attempts left each is reported. A
/// halting failure is recorded and reported at once. The changes stay.
pub proof fn law_failures_are_retried(d: DrainModel, class: FailureClass)
    ensures
        next_state(d, DrainEvent::Failed(class)).folded == d.folded,
        d.attempt < MAX_APPLY_ATTEMPTS && (class is Transient || class is VersionFenceMiss) ==> next_state(
            d,
            DrainEvent::Failed(class),
        ).attempt == d.attempt + 1,
        d.attempt < MAX_APPLY_ATTEMPTS && class is Transient ==> next_action(d, DrainEvent::Failed(class)) is Compute,
        d.attempt < MAX_APPLY_ATTEMPTS && class is VersionFenceMiss ==> next_action(
            d,
            DrainEvent::Failed(class),
        ) is BackOffThenCompute,
        d.attempt < MAX_APPLY_ATTEMPTS && class is Isolate ==> next_action(d, DrainEvent::Failed(class)) is Isolate
            && next_state(d, DrainEvent::Failed(class)) == d,
        next_action(d, DrainEvent::Failed(class)) is Fail <==> d.attempt >= MAX_APPLY_ATTEMPTS && !(class is Halting),
        class is Halting ==> next_action(d, DrainEvent::Failed(class)) is RecordStopThenFail && next_state(
            d,
            DrainEvent::Failed(class),
        ) == d,
        MAX_APPLY_ATTEMPTS == 5,
{
}

/// A plan is applied, and an applied plan ends the drain, whatever the attempt.
/// Isolation that evicted something is followed by a plan for what is left, one
/// attempt further; isolation that evicted nothing ends the drain.
pub proof fn law_a_drain_goes_on(d: DrainModel, rest: Vec<FoldedChange>)
    ensures
        next_action(d, DrainEvent::Computed) is Apply,
        next_state(d, DrainEvent::Computed) == d,
        next_action(d, DrainEvent::Applied) is Finish,
        next_state(d, DrainEvent::Applied) == d,
        next_action(d, DrainEvent::NothingEvicted) is Fail,
        d.attempt < MAX_APPLY_ATTEMPTS ==> next_action(d, DrainEvent::Evicted(rest)) is Compute && next_state(
            d,
            DrainEvent::Evicted(rest),
        ) == (DrainModel { attempt: d.attempt + 1, folded: rest@ }),
{
}

/// Where a source table is gone, exactly the changes of that name leave the
/// batch, the others stay in order, the table is purged under that name, and no
/// attempt is used up.
pub proof fn law_a_gone_table_is_purged(d: DrainModel, table: String)
    ensures
        next_action(d, DrainEvent::SourceTableDropped(table)) == DrainAction::PurgeThenCompute(table),
        next_state(d, DrainEvent::SourceTableDropped(table)).attempt == d.attempt,
        next_state(d, DrainEvent::SourceTableDropped(table)).folded == d.folded.filter(
            |c: FoldedChange| c.src_table@ != table@,
        ),
{
    let kept = |c: FoldedChange| !names_table(c, table@);
    let named = |c: FoldedChange| c.src_table@ != table@;
    lemma_same_filter(d.folded, kept, named);
}

proof fn lemma_same_filter(
    folded: Seq<FoldedChange>,
    a: spec_fn(FoldedChange) -> bool,
    b: spec_fn(FoldedChange) -> bool,
)
    requires
        forall|c: FoldedChange| #[trigger] a(c) == b(c),
    ensures
        folded.filter(a) == folded.filter(b),
    decreases folded.len(),
{
    reveal(Seq::filter);
    if folded.len() > 0 {
        lemma_same_filter(folded.drop_last(), a, b);
        assert(a(folded.last()) == b(folded.last()));
    }
}

/// The segments that are kept are those of which a bucket is held, in order.
pub proof fn law_owned_segments_are_kept(segments: Seq<(i64, bool)>)
    ensures
        owned(segments) == segments.filter(|s: (i64, bool)| s.1).map_values(|s: (i64, bool)| s.0),
    decreases segments.len(),
{
    let held = |s: (i64, bool)| s.1;
    let seq_of = |s: (i64, bool)| s.0;
    if segments.len() == 0 {
        lemma_filter_none(segments, held);
        assert(segments.take(0) =~= segments);
        assert(owned(segments) =~= segments.filter(held).map_values(seq_of));
    } else {
        let front = segments.drop_last();
        law_owned_segments_are_kept(front);
        lemma_filter_push(front, segments.last(), held);
        assert(segments =~= front.push(segments.last()));
        assert(front.filter(held).push(segments.last()).map_values(seq_of) =~= front.filter(held).map_values(
            seq_of,
        ).push(segments.last().0));
    }
}

} // verus!
