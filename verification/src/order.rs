//! Text in code point order: comparing, and sorting without repetitions.

use crate::map::among;
use crate::text::chars_of;
use vstd::prelude::*;

verus! {

/// Whether `a` comes before `b` in code point order.
pub open spec fn text_less(a: Seq<char>, b: Seq<char>) -> bool
    decreases a.len(),
{
    if b.len() == 0 {
        false
    } else if a.len() == 0 {
        true
    } else if a[0] == b[0] {
        text_less(a.drop_first(), b.drop_first())
    } else {
        a[0] < b[0]
    }
}

/// Of two different texts exactly one comes first, and no text comes before itself.
pub proof fn lemma_less_total(a: Seq<char>, b: Seq<char>)
    ensures
        a == b ==> !text_less(a, b),
        a != b ==> text_less(a, b) != text_less(b, a),
    decreases a.len(),
{
    if a.len() > 0 && b.len() > 0 {
        lemma_less_total(a.drop_first(), b.drop_first());
        if a[0] == b[0] && a.drop_first() == b.drop_first() {
            assert(a =~= seq![a[0]] + a.drop_first());
            assert(b =~= seq![b[0]] + b.drop_first());
        }
    } else if a.len() == 0 && b.len() == 0 {
        assert(a =~= b);
    }
}

/// The order is transitive.
pub proof fn lemma_less_transitive(a: Seq<char>, b: Seq<char>, c: Seq<char>)
    requires
        text_less(a, b),
        text_less(b, c),
    ensures
        text_less(a, c),
    decreases a.len(),
{
    if a.len() > 0 && a[0] == b[0] && b[0] == c[0] {
        lemma_less_transitive(a.drop_first(), b.drop_first(), c.drop_first());
    }
}

/// Whether `a` comes before `b` in code point order.
pub fn comes_before(a: &str, b: &str) -> (r: bool)
    ensures
        r == text_less(a@, b@),
{
    let x = chars_of(a);
    let y = chars_of(b);
    let mut i: usize = 0;
    proof {
        assert(x@.skip(0) =~= x@);
        assert(y@.skip(0) =~= y@);
    }
    while i < x.len() && i < y.len()
        invariant
            i <= x@.len(),
            i <= y@.len(),
            x@ == a@,
            y@ == b@,
            text_less(a@, b@) == text_less(x@.skip(i as int), y@.skip(i as int)),
        decreases x@.len() - i,
    {
        proof {
            assert(x@.skip(i as int).drop_first() =~= x@.skip(i + 1));
            assert(y@.skip(i as int).drop_first() =~= y@.skip(i + 1));
        }
        if x[i] != y[i] {
            return x[i] < y[i];
        }
        i = i + 1;
    }
    i < y.len()
}

/// Every text comes before the next one.
pub open spec fn increasing(v: Seq<String>) -> bool {
    forall|i: int, j: int| 0 <= i < j < v.len() ==> text_less(#[trigger] v[i]@, #[trigger] v[j]@)
}

/// The texts of `keys` in code point order, each once.
pub fn sorted_unique(keys: &Vec<String>) -> (r: Vec<String>)
    ensures
        increasing(r@),
        forall|k: Seq<char>| #[trigger] among(r@, k) <==> among(keys@, k),
{
    let mut r: Vec<String> = Vec::new();
    for n in 0..keys.len()
        invariant
            increasing(r@),
            forall|k: Seq<char>| #[trigger] among(r@, k) <==> among(keys@.take(n as int), k),
    {
        let key = &keys[n];
        let mut i: usize = 0;
        while i < r.len() && comes_before(r[i].as_str(), key.as_str())
            invariant
                i <= r@.len(),
                forall|j: int| 0 <= j < i ==> text_less(#[trigger] r@[j]@, key@),
            decreases r@.len() - i,
        {
            i = i + 1;
        }
        let ghost before = r@;
        let found = i < r.len() && !comes_before(key.as_str(), r[i].as_str());
        proof {
            if i < r.len() {
                lemma_less_total(r@[i as int]@, key@);
            }
        }
        if !found {
            r.insert(i, key.clone());
            proof {
                assert(r@ == before.insert(i as int, *key));
                assert forall|a: int, b: int| 0 <= a < b < r@.len() implies text_less(
                    #[trigger] r@[a]@,
                    #[trigger] r@[b]@,
                ) by {
                    if a == i {
                        let c = before[b - 1]@;
                        if b - 1 > i {
                            lemma_less_transitive(key@, before[i as int]@, c);
                        }
                    } else if b == i {
                    } else {
                        let x = if a < i {
                            a
                        } else {
                            a - 1
                        };
                        let y = if b < i {
                            b
                        } else {
                            b - 1
                        };
                        assert(text_less(before[x]@, before[y]@));
                    }
                }
            }
        }
        proof {
            let upto = keys@.take(n + 1);
            assert forall|k: Seq<char>| #[trigger] among(r@, k) <==> among(upto, k) by {
                if among(r@, k) {
                    let j = choose|j: int| 0 <= j < r@.len() && #[trigger] r@[j]@ == k;
                    if k == key@ {
                        assert(upto[n as int]@ == k);
                    } else {
                        if found {
                            assert(before[j]@ == k);
                        } else if j < i {
                            assert(before[j]@ == k);
                        } else {
                            assert(before[j - 1]@ == k);
                        }
                        assert(among(before, k));
                        assert(among(keys@.take(n as int), k));
                        let m = choose|m: int| 0 <= m < n && #[trigger] keys@.take(n as int)[m]@ == k;
                        assert(upto[m]@ == k);
                    }
                }
                if among(upto, k) {
                    let m = choose|m: int| 0 <= m < upto.len() && #[trigger] upto[m]@ == k;
                    if m == n {
                        if found {
                            assert(r@[i as int]@ == k);
                        } else {
                            assert(r@[i as int]@ == k);
                        }
                    } else {
                        assert(keys@.take(n as int)[m]@ == k);
                        assert(among(before, k));
                        let j = choose|j: int| 0 <= j < before.len() && #[trigger] before[j]@ == k;
                        if found || j < i {
                            assert(r@[j]@ == k);
                        } else {
                            assert(r@[j + 1]@ == k);
                        }
                    }
                }
            }
        }
    }
    proof {
        assert(keys@.take(keys@.len() as int) =~= keys@);
    }
    r
}

/// Of two texts the one comes first whose character does where they first differ,
/// and of two of which one begins the other, the shorter.
pub proof fn law_texts_are_ordered_by_their_first_difference(
    front: Seq<char>,
    a: char,
    b: char,
    x: Seq<char>,
    y: Seq<char>,
)
    ensures
        a != b ==> (text_less(front + seq![a] + x, front + seq![b] + y) <==> a < b),
        text_less(front, front + seq![a] + x),
        !text_less(front + seq![a] + x, front),
        !text_less(front, front),
    decreases front.len(),
{
    let (p, q) = (front + seq![a] + x, front + seq![b] + y);
    if front.len() == 0 {
        assert(p[0] == a && q[0] == b);
    } else {
        let rest = front.drop_first();
        law_texts_are_ordered_by_their_first_difference(rest, a, b, x, y);
        assert(p.drop_first() =~= rest + seq![a] + x);
        assert(q.drop_first() =~= rest + seq![b] + y);
    }
}

} // verus!
