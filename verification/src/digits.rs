//! Arithmetic on decimal digit vectors, most significant digit first.
//!
//! [`value`] reads a digit sequence as a natural number; every operation here
//! is stated as arithmetic on those numbers.

use crate::text::{digit_char, nat_text};
use vstd::prelude::*;

verus! {

/// Ten to the power `k`.
pub open spec fn pow10(k: nat) -> nat
    decreases k,
{
    if k == 0 {
        1
    } else {
        10 * pow10((k - 1) as nat)
    }
}

/// The number a digit sequence writes down.
pub open spec fn value(s: Seq<u8>) -> nat
    decreases s.len(),
{
    if s.len() == 0 {
        0
    } else {
        value(s.drop_last()) * 10 + s.last() as nat
    }
}

/// Every element is a decimal digit.
pub open spec fn is_digits(s: Seq<u8>) -> bool {
    forall|i: int| 0 <= i < s.len() ==> #[trigger] s[i] <= 9
}

/// A non-empty digit sequence without a superfluous leading zero.
pub open spec fn is_normal(s: Seq<u8>) -> bool {
    &&& is_digits(s)
    &&& s.len() >= 1
    &&& s.len() > 1 ==> s[0] != 0
}

/// `k` zero digits.
pub open spec fn zeros(k: nat) -> Seq<u8> {
    Seq::new(k, |i: int| 0u8)
}

/// `s` without its superfluous leading zeros; the last digit always stays.
pub open spec fn stripped(s: Seq<u8>) -> Seq<u8>
    decreases s.len(),
{
    if s.len() > 1 && s[0] == 0 {
        stripped(s.drop_first())
    } else {
        s
    }
}

/// How one number stands to another.
#[derive(Debug, Clone, Copy, PartialEq, Eq, Structural)]
pub enum Order {
    /// The first is smaller.
    Less,
    /// They are equal.
    Equal,
    /// The first is larger.
    Greater,
}

/// How `a` and `b` are ordered as integers.
pub open spec fn order_of(a: int, b: int) -> Order {
    if a < b {
        Order::Less
    } else if a == b {
        Order::Equal
    } else {
        Order::Greater
    }
}

pub proof fn lemma_pow10_positive(k: nat)
    ensures
        pow10(k) >= 1,
    decreases k,
{
    if k > 0 {
        lemma_pow10_positive((k - 1) as nat);
    }
}

pub proof fn lemma_pow10_sum(a: nat, b: nat)
    ensures
        pow10(a + b) == pow10(a) * pow10(b),
    decreases b,
{
    if b == 0 {
        assert(pow10(a) * 1 == pow10(a));
    } else {
        lemma_pow10_sum(a, (b - 1) as nat);
        let x = pow10(a);
        let y = pow10((b - 1) as nat);
        assert((a + b - 1) as nat == a + (b - 1) as nat);
        assert(10 * (x * y) == x * (10 * y)) by (nonlinear_arith);
    }
}

pub proof fn lemma_pow10_monotone(a: nat, b: nat)
    requires
        a <= b,
    ensures
        pow10(a) <= pow10(b),
    decreases b,
{
    if a < b {
        lemma_pow10_monotone(a, (b - 1) as nat);
    }
}

/// Writing one sequence after the other shifts the first by the length of the second.
pub proof fn lemma_value_concat(a: Seq<u8>, b: Seq<u8>)
    ensures
        value(a + b) == value(a) * pow10(b.len()) + value(b),
    decreases b.len(),
{
    if b.len() == 0 {
        assert(a + b =~= a);
        assert(value(a) * 1 == value(a));
    } else {
        assert((a + b).drop_last() =~= a + b.drop_last());
        lemma_value_concat(a, b.drop_last());
        let x = value(a);
        let y = pow10((b.len() - 1) as nat);
        assert((x * y) * 10 == x * (10 * y)) by (nonlinear_arith);
    }
}

pub proof fn lemma_value_bound(s: Seq<u8>)
    requires
        is_digits(s),
    ensures
        value(s) < pow10(s.len()),
    decreases s.len(),
{
    if s.len() > 0 {
        assert(is_digits(s.drop_last()));
        lemma_value_bound(s.drop_last());
        assert(s.last() <= 9);
    }
}

pub proof fn lemma_value_zeros(k: nat)
    ensures
        value(zeros(k)) == 0,
        is_digits(zeros(k)),
    decreases k,
{
    if k > 0 {
        assert(zeros(k).drop_last() =~= zeros((k - 1) as nat));
        lemma_value_zeros((k - 1) as nat);
    }
}

pub proof fn lemma_value_single(d: u8)
    ensures
        value(seq![d]) == d,
{
    assert(seq![d].drop_last() =~= Seq::<u8>::empty());
    assert(value(Seq::<u8>::empty()) == 0);
}

/// The leading digit weighs ten to the number of digits behind it.
pub proof fn lemma_value_first(s: Seq<u8>)
    requires
        s.len() > 0,
    ensures
        value(s) == s[0] * pow10((s.len() - 1) as nat) + value(s.drop_first()),
{
    assert(s =~= seq![s[0]] + s.drop_first());
    lemma_value_concat(seq![s[0]], s.drop_first());
    lemma_value_single(s[0]);
}

/// Leading zeros carry no weight.
pub proof fn lemma_stripped(s: Seq<u8>)
    requires
        is_digits(s),
        s.len() >= 1,
    ensures
        is_normal(stripped(s)),
        value(stripped(s)) == value(s),
        stripped(s).len() <= s.len(),
    decreases s.len(),
{
    if s.len() > 1 && s[0] == 0 {
        lemma_value_first(s);
        lemma_stripped(s.drop_first());
    }
}

/// Digits decide the order of two sequences of one length at their first difference.
pub proof fn lemma_value_first_difference(a: Seq<u8>, b: Seq<u8>, k: int)
    requires
        is_digits(a),
        is_digits(b),
        a.len() == b.len(),
        0 <= k < a.len(),
        a.take(k) =~= b.take(k),
        a[k] < b[k],
    ensures
        value(a) < value(b),
{
    let n = a.len();
    let ta = a.skip(k);
    let tb = b.skip(k);
    assert(a =~= a.take(k) + ta);
    assert(b =~= b.take(k) + tb);
    lemma_value_concat(a.take(k), ta);
    lemma_value_concat(b.take(k), tb);
    lemma_value_first(ta);
    lemma_value_first(tb);
    assert(is_digits(ta.drop_first()));
    lemma_value_bound(ta.drop_first());
    let p = pow10((ta.len() - 1) as nat);
    assert(a[k] * p + p <= b[k] * p) by (nonlinear_arith)
        requires
            a[k] + 1 <= b[k],
            p >= 0,
    ;
}

/// A normal sequence that is longer writes down a larger number.
pub proof fn lemma_value_longer(a: Seq<u8>, b: Seq<u8>)
    requires
        is_normal(a),
        is_normal(b),
        a.len() < b.len(),
    ensures
        value(a) < value(b),
{
    lemma_value_bound(a);
    lemma_value_first(b);
    let p = pow10((b.len() - 1) as nat);
    assert(b[0] >= 1);
    assert(b[0] * p >= p) by (nonlinear_arith)
        requires
            b[0] >= 1,
            p >= 0,
    ;
    lemma_pow10_monotone(a.len(), (b.len() - 1) as nat);
}

/// A number has one normal digit sequence.
pub proof fn law_normal_digits_are_unique(a: Seq<u8>, b: Seq<u8>)
    requires
        is_normal(a),
        is_normal(b),
        value(a) == value(b),
    ensures
        a == b,
{
    if a.len() < b.len() {
        lemma_value_longer(a, b);
    } else if b.len() < a.len() {
        lemma_value_longer(b, a);
    } else if a != b {
        assert(!(a =~= b));
        let k = first_difference(a, b, 0);
        lemma_first_difference(a, b, 0);
        if a[k] < b[k] {
            lemma_value_first_difference(a, b, k);
        } else {
            lemma_value_first_difference(b, a, k);
        }
    }
}

spec fn first_difference(a: Seq<u8>, b: Seq<u8>, from: int) -> int
    decreases a.len() - from,
{
    if from >= a.len() || a[from] != b[from] {
        from
    } else {
        first_difference(a, b, from + 1)
    }
}

proof fn lemma_first_difference(a: Seq<u8>, b: Seq<u8>, from: int)
    requires
        a.len() == b.len(),
        0 <= from <= a.len(),
        a.take(from) =~= b.take(from),
        !(a =~= b),
    ensures
        ({
            let k = first_difference(a, b, from);
            &&& 0 <= k < a.len()
            &&& a.take(k) =~= b.take(k)
            &&& a[k] != b[k]
        }),
    decreases a.len() - from,
{
    if from == a.len() {
        assert(a =~= a.take(from));
        assert(b =~= b.take(from));
    } else if a[from] == b[from] {
        assert(a.take(from + 1) =~= a.take(from).push(a[from]));
        assert(b.take(from + 1) =~= b.take(from).push(b[from]));
        lemma_first_difference(a, b, from + 1);
    }
}

/// A copy of `digits`.
pub fn copied(digits: &[u8]) -> (r: Vec<u8>)
    ensures
        r@ == digits@,
{
    let mut r: Vec<u8> = Vec::new();
    for i in 0..digits.len()
        invariant
            r@ == digits@.take(i as int),
    {
        r.push(digits[i]);
    }
    r
}

/// Whether every digit is zero.
pub fn all_zero(digits: &[u8]) -> (r: bool)
    requires
        is_digits(digits@),
    ensures
        r == (value(digits@) == 0),
{
    for i in 0..digits.len()
        invariant
            is_digits(digits@),
            value(digits@.take(i as int)) == 0,
    {
        proof {
            assert(digits@.take(i + 1).drop_last() =~= digits@.take(i as int));
        }
        if digits[i] != 0 {
            proof {
                let head = digits@.take(i + 1);
                let tail = digits@.skip(i + 1);
                assert(digits@ =~= head + tail);
                lemma_value_concat(head, tail);
                lemma_pow10_positive(tail.len());
                assert(value(head) >= 1);
                assert(value(head) * pow10(tail.len()) >= 1) by (nonlinear_arith)
                    requires
                        value(head) >= 1,
                        pow10(tail.len()) >= 1,
                ;
            }
            return false;
        }
    }
    proof {
        assert(digits@.take(digits@.len() as int) =~= digits@);
    }
    true
}

/// Appends `k` zero digits, which multiplies the number by ten to the `k`.
pub fn append_zeros(digits: &[u8], k: usize) -> (r: Vec<u8>)
    requires
        is_digits(digits@),
    ensures
        is_digits(r@),
        r@ == digits@ + zeros(k as nat),
        value(r@) == value(digits@) * pow10(k as nat),
{
    let mut r = copied(digits);
    for i in 0..k
        invariant
            r@ == digits@ + zeros(i as nat),
    {
        r.push(0);
        proof {
            assert(r@ =~= digits@ + zeros((i + 1) as nat));
        }
    }
    proof {
        lemma_value_zeros(k as nat);
        lemma_value_concat(digits@, zeros(k as nat));
    }
    r
}

/// Puts zeros in front until `digits` has `len` elements; the number stays.
pub fn pad_front(digits: &mut Vec<u8>, len: usize)
    requires
        is_digits(old(digits)@),
    ensures
        is_digits(final(digits)@),
        value(final(digits)@) == value(old(digits)@),
        final(digits)@.len() == (if old(digits)@.len() < len {
            len as nat
        } else {
            old(digits)@.len()
        }),
        final(digits)@ == zeros((final(digits)@.len() - old(digits)@.len()) as nat) + old(digits)@,
{
    let ghost before = digits@;
    if digits.len() < len {
        let pad: usize = len - digits.len();
        let mut padded: Vec<u8> = Vec::new();
        for i in 0..pad
            invariant
                padded@ == zeros(i as nat),
        {
            padded.push(0);
            proof {
                assert(padded@ =~= zeros((i + 1) as nat));
            }
        }
        padded.append(digits);
        *digits = padded;
        proof {
            assert(digits@ =~= zeros(pad as nat) + before);
            lemma_value_zeros(pad as nat);
            lemma_value_concat(zeros(pad as nat), before);
        }
    } else {
        proof {
            assert(zeros(0) + before =~= before);
        }
    }
}

/// Removes superfluous leading zeros; the number stays.
pub fn strip_leading_zeros(digits: &mut Vec<u8>)
    requires
        is_digits(old(digits)@),
        old(digits)@.len() >= 1,
    ensures
        final(digits)@ == stripped(old(digits)@),
        is_normal(final(digits)@),
        value(final(digits)@) == value(old(digits)@),
{
    let ghost before = digits@;
    let mut leading: usize = 0;
    proof {
        assert(before.skip(0) =~= before);
    }
    while leading < digits.len() - 1 && digits[leading] == 0
        invariant
            digits@ == before,
            before.len() >= 1,
            leading < before.len(),
            stripped(before) == stripped(before.skip(leading as int)),
        decreases before.len() - leading,
    {
        proof {
            assert(before.skip(leading as int).drop_first() =~= before.skip(leading + 1));
        }
        leading = leading + 1;
    }
    if leading > 0 {
        let tail = digits.split_off(leading);
        *digits = tail;
    }
    proof {
        assert(digits@ =~= before.skip(leading as int));
        lemma_stripped(before);
    }
}

/// Adds two equally long digit vectors.
pub fn add_magnitudes(a: &[u8], b: &[u8]) -> (r: Vec<u8>)
    requires
        is_digits(a@),
        is_digits(b@),
        a@.len() == b@.len(),
        a@.len() >= 1,
    ensures
        is_normal(r@),
        value(r@) == value(a@) + value(b@),
{
    let n: usize = a.len();
    let mut result: Vec<u8> = vec![0u8; n];
    let mut carry: u8 = 0;
    let mut i: usize = n;
    proof {
        assert(a@.skip(n as int) =~= Seq::<u8>::empty());
        assert(b@.skip(n as int) =~= Seq::<u8>::empty());
        assert(result@.skip(n as int) =~= Seq::<u8>::empty());
    }
    while i > 0
        invariant
            n == a@.len(),
            n == b@.len(),
            n == result@.len(),
            i <= n,
            is_digits(a@),
            is_digits(b@),
            is_digits(result@),
            carry <= 1,
            value(result@.skip(i as int)) + carry * pow10((n - i) as nat) == value(
                a@.skip(i as int),
            ) + value(b@.skip(i as int)),
        decreases i,
    {
        let ghost before = result@;
        let ghost carry_before = carry;
        i = i - 1;
        let sum: u8 = a[i] + b[i] + carry;
        result[i] = sum % 10;
        carry = sum / 10;
        proof {
            let p = pow10((n - i - 1) as nat);
            lemma_value_first(a@.skip(i as int));
            lemma_value_first(b@.skip(i as int));
            lemma_value_first(result@.skip(i as int));
            assert(a@.skip(i as int).drop_first() =~= a@.skip(i + 1));
            assert(b@.skip(i as int).drop_first() =~= b@.skip(i + 1));
            assert(result@.skip(i as int).drop_first() =~= before.skip(i + 1));
            let d = (sum % 10) as int;
            let c = (sum / 10) as int;
            assert(sum == d + 10 * c);
            let x = a@[i as int] as int;
            let y = b@[i as int] as int;
            let z = carry_before as int;
            assert(x + y + z == d + 10 * c);
            assert(d * p + c * (10 * p) == x * p + y * p + z * p) by (nonlinear_arith)
                requires
                    x + y + z == d + 10 * c,
            ;
        }
    }
    proof {
        assert(a@.skip(0) =~= a@);
        assert(b@.skip(0) =~= b@);
        assert(result@.skip(0) =~= result@);
    }
    if carry > 0 {
        let ghost before = result@;
        result.insert(0, carry);
        proof {
            assert(result@ =~= seq![carry] + before);
            lemma_value_first(result@);
            assert(result@.drop_first() =~= before);
        }
    }
    strip_leading_zeros(&mut result);
    result
}

/// Subtracts `b` from the equally long `a`, which is at least as large.
pub fn sub_magnitudes(a: &[u8], b: &[u8]) -> (r: Vec<u8>)
    requires
        is_digits(a@),
        is_digits(b@),
        a@.len() == b@.len(),
        a@.len() >= 1,
        value(a@) >= value(b@),
    ensures
        is_normal(r@),
        value(r@) == value(a@) - value(b@),
{
    let n: usize = a.len();
    let mut result: Vec<u8> = vec![0u8; n];
    let mut borrow: u8 = 0;
    let mut i: usize = n;
    proof {
        assert(a@.skip(n as int) =~= Seq::<u8>::empty());
        assert(b@.skip(n as int) =~= Seq::<u8>::empty());
        assert(result@.skip(n as int) =~= Seq::<u8>::empty());
    }
    while i > 0
        invariant
            n == a@.len(),
            n == b@.len(),
            n == result@.len(),
            i <= n,
            is_digits(a@),
            is_digits(b@),
            is_digits(result@),
            borrow <= 1,
            value(result@.skip(i as int)) + value(b@.skip(i as int)) == value(a@.skip(i as int))
                + borrow * pow10((n - i) as nat),
        decreases i,
    {
        let ghost before = result@;
        let ghost borrow_before = borrow;
        i = i - 1;
        let taken: u8 = b[i] + borrow;
        let digit: u8 = if a[i] < taken {
            borrow = 1;
            a[i] + 10 - taken
        } else {
            borrow = 0;
            a[i] - taken
        };
        result[i] = digit;
        proof {
            let p = pow10((n - i - 1) as nat);
            lemma_value_first(a@.skip(i as int));
            lemma_value_first(b@.skip(i as int));
            lemma_value_first(result@.skip(i as int));
            assert(a@.skip(i as int).drop_first() =~= a@.skip(i + 1));
            assert(b@.skip(i as int).drop_first() =~= b@.skip(i + 1));
            assert(result@.skip(i as int).drop_first() =~= before.skip(i + 1));
            let x = a@[i as int] as int;
            let y = b@[i as int] as int;
            let z = borrow_before as int;
            let d = digit as int;
            let w = borrow as int;
            assert(d + y + z == x + 10 * w);
            assert(d * p + y * p + z * p == x * p + w * (10 * p)) by (nonlinear_arith)
                requires
                    d + y + z == x + 10 * w,
            ;
        }
    }
    proof {
        assert(a@.skip(0) =~= a@);
        assert(b@.skip(0) =~= b@);
        assert(result@.skip(0) =~= result@);
        if borrow == 1 {
            lemma_value_bound(result@);
        }
    }
    strip_leading_zeros(&mut result);
    result
}

/// Compares two equally long digit vectors as numbers.
pub fn compare_magnitudes(a: &[u8], b: &[u8]) -> (r: Order)
    requires
        is_digits(a@),
        is_digits(b@),
        a@.len() == b@.len(),
    ensures
        r == order_of(value(a@) as int, value(b@) as int),
{
    for i in 0..a.len()
        invariant
            is_digits(a@),
            is_digits(b@),
            a@.len() == b@.len(),
            a@.take(i as int) =~= b@.take(i as int),
    {
        if a[i] < b[i] {
            proof {
                lemma_value_first_difference(a@, b@, i as int);
            }
            return Order::Less;
        }
        if b[i] < a[i] {
            proof {
                lemma_value_first_difference(b@, a@, i as int);
            }
            return Order::Greater;
        }
        proof {
            assert(a@.take(i + 1) =~= a@.take(i as int).push(a@[i as int]));
            assert(b@.take(i + 1) =~= b@.take(i as int).push(b@[i as int]));
        }
    }
    proof {
        assert(a@.take(a@.len() as int) =~= a@);
        assert(b@.take(b@.len() as int) =~= b@);
    }
    Order::Equal
}

/// Compares two digit vectors of any length as numbers.
pub fn compare_biguint(a: &[u8], b: &[u8]) -> (r: Order)
    requires
        is_digits(a@),
        is_digits(b@),
        a@.len() >= 1,
        b@.len() >= 1,
    ensures
        r == order_of(value(a@) as int, value(b@) as int),
{
    let mut x = copied(a);
    let mut y = copied(b);
    strip_leading_zeros(&mut x);
    strip_leading_zeros(&mut y);
    if x.len() < y.len() {
        proof {
            lemma_value_longer(x@, y@);
        }
        Order::Less
    } else if y.len() < x.len() {
        proof {
            lemma_value_longer(y@, x@);
        }
        Order::Greater
    } else {
        compare_magnitudes(x.as_slice(), y.as_slice())
    }
}

/// Subtracts `b` from `a`, of any lengths, where `a` is at least as large.
pub fn sub_biguint(a: &[u8], b: &[u8]) -> (r: Vec<u8>)
    requires
        is_digits(a@),
        is_digits(b@),
        a@.len() >= 1,
        b@.len() >= 1,
        value(a@) >= value(b@),
    ensures
        is_normal(r@),
        value(r@) == value(a@) - value(b@),
{
    let mut x = copied(a);
    strip_leading_zeros(&mut x);
    let mut y = copied(b);
    strip_leading_zeros(&mut y);
    proof {
        if x@.len() < y@.len() {
            lemma_value_longer(x@, y@);
        }
    }
    pad_front(&mut y, x.len());
    sub_magnitudes(x.as_slice(), y.as_slice())
}

/// Multiplies a digit vector by one digit.
pub fn mul_small(digits: &[u8], m: u8) -> (r: Vec<u8>)
    requires
        is_digits(digits@),
        digits@.len() >= 1,
        m <= 9,
    ensures
        is_normal(r@),
        value(r@) == value(digits@) * m,
{
    let n: usize = digits.len();
    let mut result: Vec<u8> = vec![0u8; n];
    let mut carry: u8 = 0;
    let mut i: usize = n;
    proof {
        assert(digits@.skip(n as int) =~= Seq::<u8>::empty());
        assert(result@.skip(n as int) =~= Seq::<u8>::empty());
    }
    while i > 0
        invariant
            n == digits@.len(),
            n == result@.len(),
            i <= n,
            m <= 9,
            is_digits(digits@),
            is_digits(result@),
            carry <= 8,
            value(result@.skip(i as int)) + carry * pow10((n - i) as nat) == value(
                digits@.skip(i as int),
            ) * m,
        decreases i,
    {
        let ghost before = result@;
        let ghost carry_before = carry;
        i = i - 1;
        proof {
            let x = digits@[i as int] as int;
            assert(x * m <= 81) by (nonlinear_arith)
                requires
                    0 <= x <= 9,
                    0 <= m <= 9,
            ;
        }
        let v: u8 = digits[i] * m + carry;
        result[i] = v % 10;
        carry = v / 10;
        proof {
            let p = pow10((n - i - 1) as nat);
            lemma_value_first(digits@.skip(i as int));
            lemma_value_first(result@.skip(i as int));
            assert(digits@.skip(i as int).drop_first() =~= digits@.skip(i + 1));
            assert(result@.skip(i as int).drop_first() =~= before.skip(i + 1));
            let x = digits@[i as int] as int;
            let d = (v % 10) as int;
            let c = (v / 10) as int;
            let z = carry_before as int;
            let mm = m as int;
            let rest = value(digits@.skip(i + 1)) as int;
            assert(x * mm + z == d + 10 * c);
            assert(d * p + c * (10 * p) == (x * p) * mm + z * p) by (nonlinear_arith)
                requires
                    x * mm + z == d + 10 * c,
            ;
            assert((x * p + rest) * mm == (x * p) * mm + rest * mm) by (nonlinear_arith);
        }
    }
    proof {
        assert(digits@.skip(0) =~= digits@);
        assert(result@.skip(0) =~= result@);
    }
    let ghost before = result@;
    result.insert(0, carry);
    proof {
        assert(result@ =~= seq![carry] + before);
        lemma_value_first(result@);
        assert(result@.drop_first() =~= before);
    }
    strip_leading_zeros(&mut result);
    result
}

/// Adds one, growing by a digit where every digit is nine.
pub fn increment(digits: &mut Vec<u8>)
    requires
        is_digits(old(digits)@),
    ensures
        is_digits(final(digits)@),
        final(digits)@.len() >= 1,
        value(final(digits)@) == value(old(digits)@) + 1,
{
    let ghost before = digits@;
    let n: usize = digits.len();
    let mut i: usize = n;
    proof {
        assert(before.skip(n as int) =~= Seq::<u8>::empty());
    }
    while i > 0
        invariant
            before == old(digits)@,
            n == before.len(),
            digits@.len() == n,
            i <= n,
            is_digits(before),
            is_digits(digits@),
            digits@.take(i as int) =~= before.take(i as int),
            value(digits@.skip(i as int)) == 0,
            value(before.skip(i as int)) + 1 == pow10((n - i) as nat),
        decreases i,
    {
        i = i - 1;
        let ghost entry = digits@;
        proof {
            assert(entry[i as int] == entry.take(i + 1)[i as int]);
            assert(before[i as int] == before.take(i + 1)[i as int]);
            lemma_value_first(before.skip(i as int));
            assert(before.skip(i as int).drop_first() =~= before.skip(i + 1));
        }
        if digits[i] == 9 {
            digits[i] = 0;
            proof {
                let p = pow10((n - i - 1) as nat);
                lemma_value_first(digits@.skip(i as int));
                assert(digits@.skip(i as int).drop_first() =~= entry.skip(i + 1));
                assert(0 * p == 0);
                assert(value(digits@.skip(i as int)) == 0 * p + 0);
                assert(value(before.skip(i as int)) == 9 * p + (p - 1));
                assert((n - i) as nat > 0 && ((n - i) as nat - 1) as nat == (n - i - 1) as nat);
                assert(pow10((n - i) as nat) == 10 * p);
                let v = value(before.skip(i as int));
                let w = pow10((n - i) as nat);
                assert(v + 1 == w) by (nonlinear_arith)
                    requires
                        v == 9 * p + (p - 1),
                        w == 10 * p,
                ;
                assert(digits@.take(i as int) =~= before.take(i as int)) by {
                    assert forall|j: int| 0 <= j < i implies digits@[j] == before[j] by {
                        assert(entry[j] == entry.take(i + 1)[j]);
                        assert(before[j] == before.take(i + 1)[j]);
                    }
                }
            }
        } else {
            digits[i] = digits[i] + 1;
            proof {
                let head = before.take(i as int);
                assert(digits@.take(i as int) =~= head) by {
                    assert forall|j: int| 0 <= j < i implies digits@[j] == before[j] by {
                        assert(entry[j] == entry.take(i + 1)[j]);
                        assert(before[j] == before.take(i + 1)[j]);
                    }
                }
                assert(digits@ =~= head + digits@.skip(i as int));
                assert(before =~= head + before.skip(i as int));
                lemma_value_concat(head, digits@.skip(i as int));
                lemma_value_concat(head, before.skip(i as int));
                lemma_value_first(digits@.skip(i as int));
                assert(digits@.skip(i as int).drop_first() =~= entry.skip(i + 1));
                let p = pow10((n - i - 1) as nat);
                let x = before[i as int] as int;
                assert((x + 1) * p == x * p + p) by (nonlinear_arith);
                assert(value(digits@.skip(i as int)) == (x + 1) * p + 0);
                assert(value(before.skip(i as int)) == x * p + (p - 1));
                assert(digits@.skip(i as int).len() == before.skip(i as int).len());
                assert(value(digits@) == value(before) + 1);
            }
            return;
        }
    }
    proof {
        assert(digits@.skip(0) =~= digits@);
        assert(before.skip(0) =~= before);
    }
    let ghost wrapped = digits@;
    digits.insert(0, 1);
    proof {
        assert(digits@ =~= seq![1u8] + wrapped);
        lemma_value_first(digits@);
        assert(digits@.drop_first() =~= wrapped);
        assert(1 * pow10(n as nat) == pow10(n as nat));
    }
}

/// Long division, one quotient digit for each dividend digit.
pub fn div_digits(dividend: &[u8], divisor: &[u8]) -> (r: (Vec<u8>, Vec<u8>))
    requires
        is_digits(dividend@),
        is_digits(divisor@),
        divisor@.len() >= 1,
        value(divisor@) > 0,
    ensures
        is_digits(r.0@),
        r.0@.len() == dividend@.len(),
        is_normal(r.1@),
        value(r.0@) == value(dividend@) / value(divisor@),
        value(r.1@) == value(dividend@) % value(divisor@),
{
    let mut trimmed = copied(divisor);
    strip_leading_zeros(&mut trimmed);
    let mut quotient: Vec<u8> = Vec::new();
    let mut remainder: Vec<u8> = vec![0u8];
    proof {
        lemma_value_single(0);
        assert(remainder@ =~= seq![0u8]);
        assert(dividend@.take(0) =~= Seq::<u8>::empty());
    }
    let ghost den = value(divisor@) as int;
    assert(0 * den == 0);
    assert(value(quotient@) == 0);
    for i in 0..dividend.len()
        invariant
            is_digits(dividend@),
            is_digits(quotient@),
            is_normal(remainder@),
            is_normal(trimmed@),
            value(trimmed@) == den,
            den > 0,
            quotient@.len() == i,
            value(remainder@) < den,
            value(dividend@.take(i as int)) == value(quotient@) * den + value(remainder@),
    {
        let d: u8 = dividend[i];
        let ghost before = remainder@;
        let ghost quotient_before = quotient@;
        remainder.push(d);
        proof {
            assert(remainder@.drop_last() =~= before);
        }
        strip_leading_zeros(&mut remainder);
        let ghost partial = value(remainder@) as int;
        assert(partial == value(before) * 10 + d);
        let mut chosen: u8 = 9;
        let mut product = mul_small(trimmed.as_slice(), chosen);
        while compare_biguint(product.as_slice(), remainder.as_slice()) == Order::Greater
            invariant
                is_normal(trimmed@),
                is_normal(remainder@),
                value(trimmed@) == den,
                den > 0,
                chosen <= 9,
                is_normal(product@),
                value(product@) == den * chosen,
                value(remainder@) == partial,
                partial < den * (chosen + 1),
            decreases chosen,
        {
            proof {
                assert(chosen > 0) by {
                    if chosen == 0 {
                        assert(den * 0 == 0);
                    }
                }
            }
            chosen = chosen - 1;
            product = mul_small(trimmed.as_slice(), chosen);
        }
        remainder = sub_biguint(remainder.as_slice(), product.as_slice());
        quotient.push(chosen);
        proof {
            let q = value(quotient_before) as int;
            let r0 = value(before) as int;
            let c = chosen as int;
            assert(quotient@.drop_last() =~= quotient_before);
            assert(dividend@.take(i + 1).drop_last() =~= dividend@.take(i as int));
            assert(value(dividend@.take(i + 1)) == value(dividend@.take(i as int)) * 10 + d);
            assert((q * 10 + c) * den == (q * den) * 10 + den * c) by (nonlinear_arith);
            assert(den * (c + 1) == den * c + den) by (nonlinear_arith);
        }
    }
    proof {
        assert(dividend@.take(dividend@.len() as int) =~= dividend@);
        let n = value(dividend@) as int;
        let q = value(quotient@) as int;
        let r = value(remainder@) as int;
        vstd::arithmetic::div_mod::lemma_fundamental_div_mod_converse(n, den, q, r);
    }
    (quotient, remainder)
}

pub open spec fn is_digit_char(c: char) -> bool {
    '0' <= c <= '9'
}

pub open spec fn all_digit_chars(s: Seq<char>) -> bool {
    forall|i: int| 0 <= i < s.len() ==> is_digit_char(#[trigger] s[i])
}

/// The digits that digit characters write down.
pub open spec fn char_digits(s: Seq<char>) -> Seq<u8> {
    s.map_values(|c: char| (c as int - 48) as u8)
}

/// Appends the digits that the given part of `chars` writes down, where all of
/// it is digits.
pub fn push_digits(chars: &Vec<char>, from: usize, to: usize, digits: &mut Vec<u8>) -> (r: bool)
    requires
        from <= to <= chars@.len(),
        is_digits(old(digits)@),
    ensures
        r == all_digit_chars(chars@.subrange(from as int, to as int)),
        r ==> is_digits(final(digits)@),
        r ==> final(digits)@ == old(digits)@ + char_digits(chars@.subrange(from as int, to as int)),
{
    let ghost before = digits@;
    let ghost part = chars@.subrange(from as int, to as int);
    for i in from..to
        invariant
            from <= to <= chars@.len(),
            part == chars@.subrange(from as int, to as int),
            is_digits(digits@),
            all_digit_chars(part.take(i - from)),
            digits@ == before + char_digits(part.take(i - from)),
    {
        let c = chars[i];
        assert(c == part[i - from]);
        if !('0' <= c && c <= '9') {
            return false;
        }
        let d: u8 = (c as u32 - 48) as u8;
        digits.push(d);
        proof {
            assert(part.take(i + 1 - from) =~= part.take(i - from).push(c));
            assert(digits@ =~= before + char_digits(part.take(i + 1 - from)));
        }
    }
    proof {
        assert(part.take(to - from) =~= part);
    }
    true
}

/// The digit characters of a digit sequence.
pub open spec fn digit_text(s: Seq<u8>) -> Seq<char> {
    s.map_values(|d: u8| digit_char(d as int))
}

pub fn push_digit_text(out: &mut String, digits: &Vec<u8>, from: usize, to: usize)
    requires
        from <= to <= digits@.len(),
        is_digits(digits@),
    ensures
        final(out)@ == old(out)@ + digit_text(digits@.subrange(from as int, to as int)),
{
    let ghost before = out@;
    assert(before =~= before + digit_text(digits@.subrange(from as int, from as int)));
    for i in from..to
        invariant
            from <= to <= digits@.len(),
            is_digits(digits@),
            out@ == before + digit_text(digits@.subrange(from as int, i as int)),
    {
        let d: u8 = digits[i];
        out.push((48 + d) as char);
        assert(out@ =~= before + digit_text(digits@.subrange(from as int, i + 1)));
    }
}

/// Normal digits are the decimal text of their value.
pub proof fn lemma_normal_text(s: Seq<u8>)
    requires
        is_normal(s),
    ensures
        digit_text(s) == nat_text(value(s)),
        nat_text(value(s)).len() == s.len(),
    decreases s.len(),
{
    let d = s.last();
    let front = s.drop_last();
    if s.len() == 1 {
        assert(front =~= Seq::<u8>::empty());
        assert(value(front) == 0);
        assert(value(s) == d);
        assert(digit_text(s) =~= seq![digit_char(d as int)]);
    } else {
        assert(is_normal(front));
        lemma_normal_text(front);
        lemma_value_first(front);
        lemma_pow10_positive((front.len() - 1) as nat);
        let p = pow10((front.len() - 1) as nat);
        assert(front[0] * p >= 1) by (nonlinear_arith)
            requires
                front[0] >= 1,
                p >= 1,
        ;
        assert(value(s) / 10 == value(front));
        assert(value(s) % 10 == d);
        assert(digit_text(s) =~= digit_text(front).push(digit_char(d as int)));
    }
}

pub proof fn lemma_nat_text(n: nat)
    ensures
        nat_text(n).len() >= 1,
        all_digit_chars(nat_text(n)),
        value(char_digits(nat_text(n))) == n,
    decreases n,
{
    let t = nat_text(n);
    if n < 10 {
        let d = n as u8;
        assert(t =~= seq![digit_char(n as int)]);
        assert(char_digits(t) =~= seq![d]);
        lemma_value_single(d);
    } else {
        lemma_nat_text(n / 10);
        let front = nat_text(n / 10);
        let c = digit_char((n % 10) as int);
        assert(t =~= front.push(c));
        assert(char_digits(t).drop_last() =~= char_digits(front));
        assert(char_digits(t).last() == n % 10);
    }
}

} // verus!
