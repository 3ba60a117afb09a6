//! Touched keys: how deep the propagation that reached a key is, and how old
//! its origin.
//!
//! Where several changes reach one key, the deepest hop count and the earliest
//! known origin win.

use super::change::SourceTime;
use crate::text::same;
use vstd::prelude::*;

verus! {

/// One key that a change reaches.
#[derive(Debug, Clone, PartialEq, Eq)]
pub struct Touch {
    /// The table whose key it is.
    pub table: String,
    /// The key's text.
    pub key: String,
    /// How many propagation hops led here.
    pub hop_gen: i32,
    /// The origin of the change, where it is known.
    pub src_changed: Option<SourceTime>,
}

/// The model of a [`Touch`].
pub struct Touched {
    /// The table whose key it is.
    pub table: Seq<char>,
    /// The key's text.
    pub key: Seq<char>,
    /// How many propagation hops led here.
    pub hop_gen: i32,
    /// The origin of the change, where it is known.
    pub src_changed: Option<SourceTime>,
}

impl View for Touch {
    type V = Touched;

    open spec fn view(&self) -> Touched {
        Touched { table: self.table@, key: self.key@, hop_gen: self.hop_gen, src_changed: self.src_changed }
    }
}

/// The models of touches.
pub open spec fn touched(touches: Seq<Touch>) -> Seq<Touched> {
    touches.map_values(|t: Touch| t@)
}

impl Touched {
    /// Whether the touch is of the given key.
    pub open spec fn is_of(self, table: Seq<char>, key: Seq<char>) -> bool {
        self.table == table && self.key == key
    }
}

impl Touch {
    /// A copy.
    pub fn duplicate(&self) -> (r: Touch)
        ensures
            r == *self,
    {
        Touch {
            table: self.table.clone(),
            key: self.key.clone(),
            hop_gen: self.hop_gen,
            src_changed: self.src_changed,
        }
    }
}

/// The earlier of two origins; an unknown one never beats a known one.
pub open spec fn earliest(a: Option<SourceTime>, b: Option<SourceTime>) -> Option<SourceTime> {
    match (a, b) {
        (Some(x), Some(y)) => if y.nanos < x.nanos {
            Some(y)
        } else {
            Some(x)
        },
        (Some(x), None) => Some(x),
        (None, other) => other,
    }
}

/// The earlier of two origins; an unknown one never beats a known one.
pub fn earliest_src_changed(a: Option<SourceTime>, b: Option<SourceTime>) -> (r: Option<SourceTime>)
    ensures
        r == earliest(a, b),
{
    match (a, b) {
        (Some(x), Some(y)) => if y.nanos < x.nanos {
            Some(y)
        } else {
            Some(x)
        },
        (Some(x), None) => Some(x),
        (None, other) => other,
    }
}

/// The earlier origin does not depend on the order of the two, nor on grouping.
pub proof fn law_earliest_merges(a: Option<SourceTime>, b: Option<SourceTime>, c: Option<SourceTime>)
    ensures
        earliest(a, b) == earliest(b, a),
        earliest(earliest(a, b), c) == earliest(a, earliest(b, c)),
        earliest(a, a) == a,
        earliest(a, None) == a,
        earliest(a, b) is None <==> a is None && b is None,
{
}

pub open spec fn deeper(a: Option<i32>, b: i32) -> i32 {
    match a {
        Some(x) => if x >= b {
            x
        } else {
            b
        },
        None => b,
    }
}

/// The deepest hop count among the touches of a key, if there is any.
pub open spec fn deepest_hop(touches: Seq<Touched>, table: Seq<char>, key: Seq<char>) -> Option<i32>
    decreases touches.len(),
{
    if touches.len() == 0 {
        None
    } else {
        let before = deepest_hop(touches.drop_last(), table, key);
        if touches.last().is_of(table, key) {
            Some(deeper(before, touches.last().hop_gen))
        } else {
            before
        }
    }
}

/// The earliest known origin among the touches of a key.
pub open spec fn earliest_origin(touches: Seq<Touched>, table: Seq<char>, key: Seq<char>) -> Option<SourceTime>
    decreases touches.len(),
{
    if touches.len() == 0 {
        None
    } else {
        let before = earliest_origin(touches.drop_last(), table, key);
        if touches.last().is_of(table, key) {
            earliest(before, touches.last().src_changed)
        } else {
            before
        }
    }
}

/// Whether some touch is of the given key.
pub open spec fn touches_key(touches: Seq<Touched>, table: Seq<char>, key: Seq<char>) -> bool {
    exists|i: int| 0 <= i < touches.len() && (#[trigger] touches[i]).is_of(table, key)
}

/// No key is touched twice.
pub open spec fn one_per_key(touches: Seq<Touched>) -> bool {
    forall|i: int, j: int|
        0 <= i < j < touches.len() ==> !(#[trigger] touches[i]).is_of(
            (#[trigger] touches[j]).table,
            touches[j].key,
        )
}

/// `merged` holds one touch for each key of `touches`, at its deepest hop count
/// and with its earliest origin.
pub open spec fn merges(merged: Seq<Touched>, touches: Seq<Touched>) -> bool {
    &&& one_per_key(merged)
    &&& forall|table: Seq<char>, key: Seq<char>| #[trigger]
        touches_key(merged, table, key) <==> deepest_hop(touches, table, key) is Some
    &&& forall|i: int|
        0 <= i < merged.len() ==> {
            let m = #[trigger] merged[i];
            &&& deepest_hop(touches, m.table, m.key) == Some(m.hop_gen)
            &&& earliest_origin(touches, m.table, m.key) == m.src_changed
        }
}

/// One touch for each key, at its deepest hop count and with its earliest origin.
pub fn merge_touches(touches: &Vec<Touch>) -> (r: Vec<Touch>)
    ensures
        merges(touched(r@), touched(touches@)),
{
    let mut r: Vec<Touch> = Vec::new();
    let ghost all = touched(touches@);
    proof {
        assert(all.take(0) =~= Seq::<Touched>::empty());
        assert(touched(r@) =~= Seq::<Touched>::empty());
    }
    for n in 0..touches.len()
        invariant
            all == touched(touches@),
            merges(touched(r@), all.take(n as int)),
    {
        let touch = &touches[n];
        let mut i: usize = 0;
        let ghost before = touched(r@);
        while i < r.len() && !(same(r[i].table.as_str(), touch.table.as_str()) && same(
            r[i].key.as_str(),
            touch.key.as_str(),
        ))
            invariant
                i <= r@.len(),
                before == touched(r@),
                forall|j: int| 0 <= j < i ==> !(#[trigger] before[j]).is_of(touch.table@, touch.key@),
            decreases r@.len() - i,
        {
            i = i + 1;
        }
        let ghost done = all.take(n as int);
        let ghost next = all.take(n + 1);
        proof {
            assert(next.drop_last() =~= done);
            assert(next.last() == touch@);
        }
        if i < r.len() {
            let hop_gen: i32 = if r[i].hop_gen >= touch.hop_gen {
                r[i].hop_gen
            } else {
                touch.hop_gen
            };
            let src_changed = earliest_src_changed(r[i].src_changed, touch.src_changed);
            let entry = Touch { table: r[i].table.clone(), key: r[i].key.clone(), hop_gen, src_changed };
            let ghost raised = entry@;
            r.set(i, entry);
            proof {
                let after = touched(r@);
                assert(after =~= before.update(i as int, raised));
                assert(before[i as int].is_of(touch.table@, touch.key@));
                assert(touches_key(before, touch.table@, touch.key@));
                assert forall|table: Seq<char>, key: Seq<char>| #[trigger]
                    touches_key(after, table, key) <==> deepest_hop(next, table, key) is Some by {
                    assert(touches_key(after, table, key) <==> touches_key(before, table, key)) by {
                        if touches_key(before, table, key) {
                            let j = choose|j: int| 0 <= j < before.len() && (#[trigger] before[j]).is_of(table, key);
                            assert(after[j].is_of(table, key));
                        }
                        if touches_key(after, table, key) {
                            let j = choose|j: int| 0 <= j < after.len() && (#[trigger] after[j]).is_of(table, key);
                            assert(before[j].is_of(table, key));
                        }
                    }
                }
                assert(one_per_key(after)) by {
                    assert forall|x: int, y: int| 0 <= x < y < after.len() implies !(#[trigger] after[x]).is_of(
                        (#[trigger] after[y]).table,
                        after[y].key,
                    ) by {
                        assert(!before[x].is_of(before[y].table, before[y].key));
                    }
                }
                assert forall|j: int| 0 <= j < after.len() implies ({
                    let m = #[trigger] after[j];
                    &&& deepest_hop(next, m.table, m.key) == Some(m.hop_gen)
                    &&& earliest_origin(next, m.table, m.key) == m.src_changed
                }) by {
                    let m = before[j];
                    assert(deepest_hop(done, m.table, m.key) == Some(m.hop_gen));
                    if j != i {
                        if j < i {
                            assert(!m.is_of(before[i as int].table, before[i as int].key));
                        } else {
                            assert(!before[i as int].is_of(m.table, m.key));
                        }
                    }
                }
            }
        } else {
            r.push(touch.duplicate());
            proof {
                let after = touched(r@);
                assert(after =~= before.push(touch@));
                assert(!touches_key(before, touch.table@, touch.key@));
                lemma_no_origin(done, touch.table@, touch.key@);
                assert forall|table: Seq<char>, key: Seq<char>| #[trigger]
                    touches_key(after, table, key) <==> deepest_hop(next, table, key) is Some by {
                    if touches_key(before, table, key) {
                        let j = choose|j: int| 0 <= j < before.len() && (#[trigger] before[j]).is_of(table, key);
                        assert(after[j].is_of(table, key));
                    }
                    if touch@.is_of(table, key) {
                        assert(after[before.len() as int].is_of(table, key));
                    }
                    if touches_key(after, table, key) && !touch@.is_of(table, key) {
                        let j = choose|j: int| 0 <= j < after.len() && (#[trigger] after[j]).is_of(table, key);
                        assert(before[j].is_of(table, key));
                    }
                    assert(touches_key(before, table, key) <==> deepest_hop(done, table, key) is Some);
                }
                assert forall|j: int| 0 <= j < after.len() implies ({
                    let m = #[trigger] after[j];
                    &&& deepest_hop(next, m.table, m.key) == Some(m.hop_gen)
                    &&& earliest_origin(next, m.table, m.key) == m.src_changed
                }) by {
                    if j < before.len() {
                        let m = before[j];
                        assert(deepest_hop(done, m.table, m.key) == Some(m.hop_gen));
                        assert(!m.is_of(touch.table@, touch.key@));
                    }
                }
            }
        }
    }
    proof {
        assert(all.take(touches@.len() as int) =~= all);
    }
    r
}

pub proof fn lemma_no_origin(touches: Seq<Touched>, table: Seq<char>, key: Seq<char>)
    requires
        deepest_hop(touches, table, key) is None,
    ensures
        earliest_origin(touches, table, key) is None,
    decreases touches.len(),
{
    if touches.len() > 0 {
        lemma_no_origin(touches.drop_last(), table, key);
    }
}

/// The merged hop count of a key is the largest among its touches.
pub proof fn law_deepest_hop_wins(touches: Seq<Touched>, table: Seq<char>, key: Seq<char>)
    ensures
        deepest_hop(touches, table, key) is Some <==> touches_key(touches, table, key),
        forall|i: int|
            0 <= i < touches.len() && (#[trigger] touches[i]).is_of(table, key) ==> touches[i].hop_gen
                <= deepest_hop(touches, table, key)->0,
        touches_key(touches, table, key) ==> exists|i: int|
            0 <= i < touches.len() && (#[trigger] touches[i]).is_of(table, key) && touches[i].hop_gen == deepest_hop(
                touches,
                table,
                key,
            )->0,
    decreases touches.len(),
{
    if touches.len() > 0 {
        let front = touches.drop_last();
        let n = front.len() as int;
        law_deepest_hop_wins(front, table, key);
        if touches_key(front, table, key) {
            let j = choose|j: int|
                0 <= j < front.len() && (#[trigger] front[j]).is_of(table, key) && front[j].hop_gen == deepest_hop(
                    front,
                    table,
                    key,
                )->0;
            assert(touches[j].is_of(table, key));
        }
        if touches[n].is_of(table, key) {
            assert(touches_key(touches, table, key));
        }
        if touches_key(touches, table, key) {
            let j = choose|j: int| 0 <= j < touches.len() && (#[trigger] touches[j]).is_of(table, key);
            if j < n {
                assert(front[j].is_of(table, key));
            }
        }
        assert forall|i: int| 0 <= i < touches.len() && (#[trigger] touches[i]).is_of(table, key) implies touches[i].hop_gen
            <= deepest_hop(touches, table, key)->0 by {
            if i < n {
                assert(front[i].is_of(table, key));
            }
        }
    }
}

/// The merged origin of a key is the earliest known one among its touches; it
/// is unknown only where none of them knows one.
pub proof fn law_earliest_origin_wins(touches: Seq<Touched>, table: Seq<char>, key: Seq<char>)
    ensures
        forall|i: int|
            0 <= i < touches.len() && (#[trigger] touches[i]).is_of(table, key) && touches[i].src_changed is Some ==> {
                &&& earliest_origin(touches, table, key) is Some
                &&& earliest_origin(touches, table, key)->0.nanos <= touches[i].src_changed->0.nanos
            },
        earliest_origin(touches, table, key) is Some ==> exists|i: int|
            0 <= i < touches.len() && (#[trigger] touches[i]).is_of(table, key) && touches[i].src_changed
                == earliest_origin(touches, table, key),
    decreases touches.len(),
{
    if touches.len() > 0 {
        let front = touches.drop_last();
        let n = front.len() as int;
        law_earliest_origin_wins(front, table, key);
        assert forall|i: int|
            0 <= i < touches.len() && (#[trigger] touches[i]).is_of(table, key) && touches[i].src_changed is Some implies ({
            &&& earliest_origin(touches, table, key) is Some
            &&& earliest_origin(touches, table, key)->0.nanos <= touches[i].src_changed->0.nanos
        }) by {
            if i < n {
                assert(front[i].is_of(table, key));
            }
        }
        if earliest_origin(touches, table, key) is Some {
            if touches[n].is_of(table, key) && touches[n].src_changed == earliest_origin(touches, table, key) {
            } else {
                let j = choose|j: int|
                    0 <= j < front.len() && (#[trigger] front[j]).is_of(table, key) && front[j].src_changed
                        == earliest_origin(front, table, key);
                assert(touches[j].is_of(table, key));
            }
        }
    }
}

/// The earlier of two times is no later than either, and is one of them; a time
/// that is not known does not count.
pub proof fn law_earliest_is_no_later(a: Option<SourceTime>, b: Option<SourceTime>)
    ensures
        earliest(a, b) == a || earliest(a, b) == b,
        a is Some ==> earliest(a, b) is Some && earliest(a, b)->0.nanos <= a->0.nanos,
        b is Some ==> earliest(a, b) is Some && earliest(a, b)->0.nanos <= b->0.nanos,
{
}

/// A touch of another table or another key makes no difference; one of the same
/// key is the deepest where it is deeper.
pub proof fn law_only_touches_of_the_key_count(touches: Seq<Touched>, t: Touched, table: Seq<char>, key: Seq<char>)
    ensures
        t.table != table || t.key != key ==> deepest_hop(touches.push(t), table, key) == deepest_hop(touches, table, key)
            && earliest_origin(touches.push(t), table, key) == earliest_origin(touches, table, key),
        t.table == table && t.key == key && (deepest_hop(touches, table, key) matches Some(hop) ==> hop <= t.hop_gen)
            ==> deepest_hop(touches.push(t), table, key) == Some(t.hop_gen),
        t.table == table && t.key == key && (deepest_hop(touches, table, key) matches Some(hop) && hop >= t.hop_gen)
            ==> deepest_hop(touches.push(t), table, key) == deepest_hop(touches, table, key),
{
    assert(touches.push(t).drop_last() =~= touches);
}

} // verus!
