//! The segment lifecycle: which states a segment can be in, and which steps
//! lead from one to another.

use crate::text::same;
use vstd::prelude::*;

verus! {

/// The state of a segment.
#[derive(Debug, Clone, Copy, PartialEq, Eq, Structural)]
pub enum SegmentState {
    /// Taking appends.
    Active,
    /// Closed, waiting to be claimed.
    Sealed,
    /// Claimed, being applied.
    Draining,
    /// Fully applied.
    Drained,
}

impl SegmentState {
    /// The state's name in SQL.
    pub open spec fn name(self) -> Seq<char> {
        match self {
            SegmentState::Active => "active"@,
            SegmentState::Sealed => "sealed"@,
            SegmentState::Draining => "draining"@,
            SegmentState::Drained => "drained"@,
        }
    }

    /// The lifecycle's edges: seal, claim, reclaim, and completion.
    pub open spec fn leads_to(self, next: SegmentState) -> bool {
        ||| self is Active && next is Sealed
        ||| self is Sealed && next is Draining
        ||| self is Draining && next is Sealed
        ||| self is Draining && next is Drained
    }

    /// The state's name in SQL.
    pub fn as_sql(self) -> (r: &'static str)
        ensures
            r@ == self.name(),
    {
        match self {
            SegmentState::Active => "active",
            SegmentState::Sealed => "sealed",
            SegmentState::Draining => "draining",
            SegmentState::Drained => "drained",
        }
    }

    /// The state that SQL calls `value`, if there is one.
    pub fn from_sql(value: &str) -> (r: Option<SegmentState>)
        ensures
            forall|s: SegmentState| r == Some(s) <==> value@ == #[trigger] s.name(),
    {
        proof {
            lemma_names_differ();
        }
        if same(value, "active") {
            assert(value@ == SegmentState::Active.name());
            Some(SegmentState::Active)
        } else if same(value, "sealed") {
            assert(value@ == SegmentState::Sealed.name());
            Some(SegmentState::Sealed)
        } else if same(value, "draining") {
            assert(value@ == SegmentState::Draining.name());
            Some(SegmentState::Draining)
        } else if same(value, "drained") {
            assert(value@ == SegmentState::Drained.name());
            Some(SegmentState::Drained)
        } else {
            None
        }
    }

    /// Whether a segment may go from this state to `next`. Staying in a state
    /// is no step.
    pub fn can_transition_to(self, next: SegmentState) -> (r: bool)
        ensures
            r == self.leads_to(next),
    {
        matches!(
            (self, next),
            (SegmentState::Active, SegmentState::Sealed) | (SegmentState::Sealed, SegmentState::Draining) | (
                SegmentState::Draining,
                SegmentState::Sealed,
            ) | (SegmentState::Draining, SegmentState::Drained)
        )
    }
}

/// The count of the last row that names `state`; zero where none does.
pub open spec fn last_count(rows: Seq<(String, i64)>, state: SegmentState) -> i64
    decreases rows.len(),
{
    if rows.len() == 0 {
        0
    } else if rows.last().0@ == state.name() {
        rows.last().1
    } else {
        last_count(rows.drop_last(), state)
    }
}

/// How many segments are in each state, from rows of a state's name and its
/// count. All four states are there; one that no row names counts zero, and
/// a row that names no state is passed over.
pub fn segment_state_counts(rows: &Vec<(String, i64)>) -> (r: [(SegmentState, i64); 4])
    ensures
        r@[0] == (SegmentState::Active, last_count(rows@, SegmentState::Active)),
        r@[1] == (SegmentState::Sealed, last_count(rows@, SegmentState::Sealed)),
        r@[2] == (SegmentState::Draining, last_count(rows@, SegmentState::Draining)),
        r@[3] == (SegmentState::Drained, last_count(rows@, SegmentState::Drained)),
{
    let mut active: i64 = 0;
    let mut sealed: i64 = 0;
    let mut draining: i64 = 0;
    let mut drained: i64 = 0;
    for i in 0..rows.len()
        invariant
            active == last_count(rows@.take(i as int), SegmentState::Active),
            sealed == last_count(rows@.take(i as int), SegmentState::Sealed),
            draining == last_count(rows@.take(i as int), SegmentState::Draining),
            drained == last_count(rows@.take(i as int), SegmentState::Drained),
    {
        proof {
            assert(rows@.take(i + 1).drop_last() =~= rows@.take(i as int));
            lemma_names_differ();
        }
        let count: i64 = rows[i].1;
        let state = SegmentState::from_sql(rows[i].0.as_str());
        assert(rows@[i as int].0@ == SegmentState::Active.name() <==> state == Some(SegmentState::Active));
        assert(rows@[i as int].0@ == SegmentState::Sealed.name() <==> state == Some(SegmentState::Sealed));
        assert(rows@[i as int].0@ == SegmentState::Draining.name() <==> state == Some(SegmentState::Draining));
        assert(rows@[i as int].0@ == SegmentState::Drained.name() <==> state == Some(SegmentState::Drained));
        match state {
            Some(SegmentState::Active) => {
                active = count;
            },
            Some(SegmentState::Sealed) => {
                sealed = count;
            },
            Some(SegmentState::Draining) => {
                draining = count;
            },
            Some(SegmentState::Drained) => {
                drained = count;
            },
            None => {},
        }
    }
    proof {
        assert(rows@.take(rows@.len() as int) =~= rows@);
    }
    [
        (SegmentState::Active, active),
        (SegmentState::Sealed, sealed),
        (SegmentState::Draining, draining),
        (SegmentState::Drained, drained),
    ]
}

proof fn lemma_names_differ()
    ensures
        forall|a: SegmentState, b: SegmentState| #[trigger] a.name() == #[trigger] b.name() ==> a == b,
{
    reveal_strlit("active");
    reveal_strlit("sealed");
    reveal_strlit("draining");
    reveal_strlit("drained");
    assert("active"@[0] == 'a');
    assert("sealed"@[0] == 's');
    assert("draining"@.len() == 8);
    assert("drained"@.len() == 7);
}

/// A state's name in SQL is read back as that state.
pub proof fn law_names_round_trip(a: SegmentState, b: SegmentState)
    ensures
        a.name() == b.name() <==> a == b,
{
    lemma_names_differ();
}

/// A drained segment stays drained, a segment only leaves `Active` by being
/// sealed and never comes back, and no step stays where it is.
pub proof fn law_lifecycle(a: SegmentState, b: SegmentState)
    ensures
        !SegmentState::Drained.leads_to(b),
        SegmentState::Active.leads_to(b) <==> b is Sealed,
        !a.leads_to(SegmentState::Active),
        a.leads_to(SegmentState::Drained) <==> a is Draining,
        !a.leads_to(a),
{
}

/// How the states are spelled.
pub proof fn law_state_names()
    ensures
        SegmentState::Active.name() == "active"@,
        SegmentState::Sealed.name() == "sealed"@,
        SegmentState::Draining.name() == "draining"@,
        SegmentState::Drained.name() == "drained"@,
{
}

/// A segment is sealed after it was active, drains after it was sealed, and is
/// then drained or, where its worker is lost, sealed again.
pub proof fn law_each_state_leads_on(b: SegmentState)
    ensures
        SegmentState::Active.leads_to(b) <==> b is Sealed,
        SegmentState::Sealed.leads_to(b) <==> b is Draining,
        SegmentState::Draining.leads_to(b) <==> b is Sealed || b is Drained,
        !SegmentState::Drained.leads_to(b),
{
}

/// A state that is not listed has no segments; one that is has the count that was
/// listed last.
pub proof fn law_counts_are_listed(rows: Seq<(String, i64)>, state: SegmentState)
    ensures
        (forall|i: int| 0 <= i < rows.len() ==> (#[trigger] rows[i]).0@ != state.name()) ==> last_count(rows, state) == 0,
        forall|i: int|
            0 <= i < rows.len() && (#[trigger] rows[i]).0@ == state.name() && (forall|j: int|
                i < j < rows.len() ==> (#[trigger] rows[j]).0@ != state.name()) ==> last_count(rows, state)
                == rows[i].1,
    decreases rows.len(),
{
    if rows.len() > 0 {
        let front = rows.drop_last();
        law_counts_are_listed(front, state);
        let n = rows.len() - 1;
        if rows[n].0@ != state.name() {
            if forall|i: int| 0 <= i < rows.len() ==> (#[trigger] rows[i]).0@ != state.name() {
                assert forall|i: int| 0 <= i < front.len() implies (#[trigger] front[i]).0@ != state.name() by {
                    assert(rows[i].0@ != state.name());
                }
            }
            assert forall|i: int|
                0 <= i < rows.len() && (#[trigger] rows[i]).0@ == state.name() && (forall|j: int|
                    i < j < rows.len() ==> (#[trigger] rows[j]).0@ != state.name()) implies last_count(rows, state)
                == rows[i].1 by {
                assert(front[i] == rows[i]);
                assert forall|j: int| i < j < front.len() implies (#[trigger] front[j]).0@ != state.name() by {
                    assert(rows[j].0@ != state.name());
                }
            }
        } else {
            assert forall|i: int|
                0 <= i < rows.len() && (#[trigger] rows[i]).0@ == state.name() && (forall|j: int|
                    i < j < rows.len() ==> (#[trigger] rows[j]).0@ != state.name()) implies last_count(rows, state)
                == rows[i].1 by {
                if i < n {
                    assert(rows[n].0@ != state.name());
                }
            }
        }
    }
}

} // verus!
