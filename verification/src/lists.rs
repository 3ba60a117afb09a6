//! Facts about filtered sequences.

use vstd::prelude::*;

verus! {

/// Filtering one element more appends it where it passes.
pub proof fn lemma_filter_step<A>(s: Seq<A>, n: int, pass: spec_fn(A) -> bool)
    requires
        0 <= n < s.len(),
    ensures
        s.take(n + 1).filter(pass) == if pass(s[n]) {
            s.take(n).filter(pass).push(s[n])
        } else {
            s.take(n).filter(pass)
        },
{
    reveal(Seq::filter);
    assert(s.take(n + 1).drop_last() =~= s.take(n));
}

/// Filtering after an element is appended appends it where it passes.
pub proof fn lemma_filter_push<A>(s: Seq<A>, x: A, pass: spec_fn(A) -> bool)
    ensures
        s.push(x).filter(pass) == if pass(x) {
            s.filter(pass).push(x)
        } else {
            s.filter(pass)
        },
{
    reveal(Seq::filter);
    assert(s.push(x).drop_last() =~= s);
}

/// Filtering nothing gives nothing.
pub proof fn lemma_filter_none<A>(s: Seq<A>, pass: spec_fn(A) -> bool)
    ensures
        s.take(0).filter(pass) == Seq::<A>::empty(),
{
    reveal(Seq::filter);
    assert(s.take(0) =~= Seq::<A>::empty());
}

/// Filtering keeps exactly what passes.
pub proof fn lemma_filter_contains<A>(s: Seq<A>, x: A, pass: spec_fn(A) -> bool)
    ensures
        s.filter(pass).contains(x) <==> s.contains(x) && pass(x),
    decreases s.len(),
{
    if s.len() == 0 {
        lemma_filter_none(s, pass);
        assert(s.take(0) =~= s);
    } else {
        let front = s.drop_last();
        let last = s.last();
        lemma_filter_contains(front, x, pass);
        lemma_filter_push(front, last, pass);
        assert(s =~= front.push(last));
        let before = front.filter(pass);
        let all = s.filter(pass);
        if before.contains(x) {
            let i = choose|i: int| 0 <= i < before.len() && before[i] == x;
            assert(all[i] == x);
        }
        if front.contains(x) {
            let i = choose|i: int| 0 <= i < front.len() && front[i] == x;
            assert(s[i] == x);
        }
        if pass(last) {
            assert(all[before.len() as int] == last);
        }
        assert(s[s.len() - 1] == last);
        if all.contains(x) {
            let i = choose|i: int| 0 <= i < all.len() && all[i] == x;
            if i < before.len() {
                assert(before[i] == x);
            }
        }
        if s.contains(x) {
            let i = choose|i: int| 0 <= i < s.len() && s[i] == x;
            if i < front.len() {
                assert(front[i] == x);
            }
        }
    }
}

/// Two lists of one length, side by side.
pub open spec fn zipped<A, B>(a: Seq<A>, b: Seq<B>) -> Seq<(A, B)> {
    Seq::new(a.len(), |i: int| (a[i], b[i]))
}

} // verus!
