//! An arbitrary-precision decimal that reproduces Postgres `numeric` exactly:
//! base ten, no binary rounding.
//!
//! The model of a value is a [`Decimal`]: an unscaled integer and the number of
//! digits after the point. `1.5` and `1.50` are different values that compare
//! equal, as in Postgres.

use crate::digits::{
    add_magnitudes, all_digit_chars, all_zero, append_zeros, char_digits, compare_biguint, compare_magnitudes, copied,
    digit_text, div_digits, increment, is_digit_char, is_digits, is_normal, lemma_nat_text, lemma_normal_text,
    lemma_pow10_monotone, lemma_pow10_positive, lemma_pow10_sum, lemma_value_bound, lemma_value_concat, lemma_value_single,
    lemma_value_zeros, mul_small, order_of, pad_front, pow10, push_digit_text, push_digits, strip_leading_zeros,
    sub_magnitudes, value, zeros, Order,
};
use crate::text::{
    chars_of, digit_char, find, find_in, is_white_space, law_trimming_leaves_the_middle, lemma_find,
    lemma_find_is, nat_text, trim_bounds, trimmed,
};
use std::cmp::Ordering;
use vstd::prelude::*;

verus! {

/// An exact base-10 value: `(-1)^negative * digits / 10^scale`.
#[derive(Debug, PartialEq, Eq)]
pub struct Numeric {
    negative: bool,
    /// The unscaled magnitude's decimal digits, most significant first, without
    /// a leading zero unless the value is zero, in which case this is `[0]`.
    digits: Vec<u8>,
    /// Digits after the point.
    scale: usize,
}

/// Why a string failed to parse as a [`Numeric`].
#[derive(Debug, Clone, PartialEq, Eq)]
pub enum NumericParseError {
    /// The text was not a valid decimal number.
    Invalid {
        /// The text as it was given.
        text: String,
    },
}

impl NumericParseError {
    /// The error in words.
    pub fn to_string(&self) -> (r: String)
        ensures
            self matches NumericParseError::Invalid { text } ==> r@ == seq!['\''] + text@
                + "' is not a valid decimal number"@,
    {
        match self {
            NumericParseError::Invalid { text } => {
                let mut r = String::new();
                r.push('\'');
                r.append(text.as_str());
                r.append("' is not a valid decimal number");
                assert(r@ =~= seq!['\''] + text@ + "' is not a valid decimal number"@);
                r
            },
        }
    }
}

/// The value `unscaled / 10^scale`, kept with its scale.
pub struct Decimal {
    /// The value times ten to the scale.
    pub unscaled: int,
    /// Digits after the point.
    pub scale: nat,
}

pub open spec fn magnitude(n: int) -> nat {
    if n < 0 {
        (-n) as nat
    } else {
        n as nat
    }
}

pub open spec fn max_nat(a: nat, b: nat) -> nat {
    if a >= b {
        a
    } else {
        b
    }
}

impl Decimal {
    /// The unscaled integer of the same value at a scale that is no smaller.
    pub open spec fn at_scale(self, scale: nat) -> int {
        self.unscaled * pow10((scale - self.scale) as nat)
    }

    /// The sum, at the larger of the two scales.
    pub open spec fn sum(self, other: Decimal) -> Decimal {
        let scale = max_nat(self.scale, other.scale);
        Decimal { unscaled: self.at_scale(scale) + other.at_scale(scale), scale }
    }

    /// How the two values are ordered, whatever their scales.
    pub open spec fn order(self, other: Decimal) -> Order {
        let scale = max_nat(self.scale, other.scale);
        order_of(self.at_scale(scale), other.at_scale(scale))
    }

    /// The power-of-ten position of the leading digit; zero for zero.
    pub open spec fn exponent(self) -> int {
        if self.unscaled == 0 {
            0
        } else {
            nat_text(magnitude(self.unscaled)).len() - self.scale - 1
        }
    }

    /// The index of the base-10000 digit group that holds the leading digit.
    pub open spec fn group_weight(self) -> int {
        self.exponent() / 4
    }

    /// The integer value of the leading base-10000 digit group.
    pub open spec fn leading_group(self) -> nat {
        let n = magnitude(self.unscaled);
        let shift = self.scale + 4 * self.group_weight();
        if self.unscaled == 0 {
            0
        } else if shift >= 0 {
            n / pow10(shift as nat)
        } else {
            n * pow10((-shift) as nat)
        }
    }

    /// How many digits after the point a quotient keeps: sixteen significant
    /// digits' worth by the operands' base-10000 groups, and never fewer than
    /// either operand's own scale.
    pub open spec fn quotient_scale(self, other: Decimal) -> nat {
        let correction: int = if self.leading_group() <= other.leading_group() {
            1
        } else {
            0
        };
        let weight = self.group_weight() - other.group_weight() - correction;
        let wanted = 16 - 4 * weight;
        max_nat(max_nat(if wanted < 0 { 0 } else { wanted as nat }, self.scale), other.scale)
    }

    /// The dividend that, divided by [`Decimal::quotient_denominator`], is the
    /// quotient's magnitude times ten to its scale.
    pub open spec fn quotient_numerator(self, other: Decimal) -> nat {
        magnitude(self.unscaled) * pow10(other.scale + self.quotient_scale(other))
    }

    pub open spec fn quotient_denominator(self, other: Decimal) -> nat {
        magnitude(other.unscaled) * pow10(self.scale)
    }

    /// The quotient at its scale, rounded half away from zero.
    pub open spec fn quotient(self, other: Decimal) -> Decimal {
        let n = self.quotient_numerator(other);
        let d = self.quotient_denominator(other);
        let rounded = (2 * n + d) / (2 * d);
        Decimal {
            unscaled: if (self.unscaled < 0) != (other.unscaled < 0) {
                -rounded
            } else {
                rounded as int
            },
            scale: self.quotient_scale(other),
        }
    }

    /// The value as text: no superfluous leading zero, at least one digit before
    /// the point, exactly `scale` digits after it, no sign on zero.
    pub open spec fn text(self) -> Seq<char> {
        let n = magnitude(self.unscaled);
        let sign = if self.unscaled < 0 {
            seq!['-']
        } else {
            seq![]
        };
        let fraction = if self.scale > 0 {
            seq!['.'] + fixed_text(n % pow10(self.scale), self.scale)
        } else {
            seq![]
        };
        sign + nat_text(n / pow10(self.scale)) + fraction
    }
}

/// The last `width` decimal digits of `n`, zeros in front where it has fewer.
pub open spec fn fixed_text(n: nat, width: nat) -> Seq<char>
    decreases width,
{
    if width == 0 {
        seq![]
    } else {
        fixed_text(n / 10, (width - 1) as nat).push(digit_char((n % 10) as int))
    }
}

/// `t` without a leading sign.
pub open spec fn unsigned_part(t: Seq<char>) -> Seq<char> {
    if t.len() > 0 && (t[0] == '-' || t[0] == '+') {
        t.skip(1)
    } else {
        t
    }
}

pub open spec fn integer_part(rest: Seq<char>) -> Seq<char> {
    rest.take(find(rest, '.'))
}

pub open spec fn fraction_part(rest: Seq<char>) -> Seq<char> {
    if find(rest, '.') < rest.len() {
        rest.skip(find(rest, '.') + 1)
    } else {
        seq![]
    }
}

/// The value that `text` writes down: surrounding white space, a sign, digits
/// with at most one point among them, at least one digit, and nothing else.
pub open spec fn parsed(text: Seq<char>) -> Option<Decimal> {
    let t = trimmed(text);
    let rest = unsigned_part(t);
    let whole = integer_part(rest);
    let fraction = fraction_part(rest);
    if whole.len() + fraction.len() > 0 && all_digit_chars(whole) && all_digit_chars(fraction) {
        let n = value(char_digits(whole + fraction));
        Some(
            Decimal {
                unscaled: if t.len() > 0 && t[0] == '-' {
                    -n
                } else {
                    n as int
                },
                scale: fraction.len(),
            },
        )
    } else {
        None
    }
}

/// The standard library's name for an order.
pub open spec fn ordering_of(order: Order) -> Ordering {
    match order {
        Order::Less => Ordering::Less,
        Order::Equal => Ordering::Equal,
        Order::Greater => Ordering::Greater,
    }
}

fn ordering(order: Order) -> (r: Ordering)
    ensures
        r == ordering_of(order),
{
    match order {
        Order::Less => Ordering::Less,
        Order::Equal => Ordering::Equal,
        Order::Greater => Ordering::Greater,
    }
}

impl View for Numeric {
    type V = Decimal;

    closed spec fn view(&self) -> Decimal {
        Decimal {
            unscaled: if self.negative {
                -value(self.digits@)
            } else {
                value(self.digits@) as int
            },
            scale: self.scale as nat,
        }
    }
}

impl Clone for Numeric {
    fn clone(&self) -> (r: Numeric)
        ensures
            r@ == self@,
    {
        proof {
            use_type_invariant(self);
        }
        Numeric { negative: self.negative, digits: copied(self.digits.as_slice()), scale: self.scale }
    }
}

impl Numeric {
    /// The digits are normal, and zero has no sign.
    #[verifier::type_invariant]
    pub closed spec fn well_formed(self) -> bool {
        &&& is_normal(self.digits@)
        &&& self.negative ==> value(self.digits@) != 0
    }

    /// Parses a plain decimal string: `-123.450`, `0`, `.5`. There is no
    /// exponent form.
    pub fn parse(text: &str) -> (r: Result<Numeric, NumericParseError>)
        ensures
            r is Ok <==> parsed(text@) is Some,
            r matches Ok(n) ==> parsed(text@) == Some(n@),
            r matches Err(NumericParseError::Invalid { text: t }) ==> t@ == text@,
    {
        let chars = chars_of(text);
        let (from, to) = trim_bounds(&chars);
        let ghost t = trimmed(text@);
        let mut start: usize = from;
        let mut negative = false;
        if from < to {
            assert(t[0] == chars@[from as int]);
            if chars[from] == '-' {
                negative = true;
                start = from + 1;
            } else if chars[from] == '+' {
                start = from + 1;
            }
        }
        let ghost rest = unsigned_part(t);
        assert(rest =~= chars@.subrange(start as int, to as int));
        let point = find_in(&chars, start, to, '.');
        let fraction_from: usize = if point < to {
            point + 1
        } else {
            to
        };
        let ghost whole = integer_part(rest);
        let ghost fraction = fraction_part(rest);
        assert(whole =~= chars@.subrange(start as int, point as int));
        assert(fraction =~= chars@.subrange(fraction_from as int, to as int));
        let mut digits: Vec<u8> = Vec::new();
        let whole_valid = push_digits(&chars, start, point, &mut digits);
        if !whole_valid {
            return Err(NumericParseError::Invalid { text: text.to_owned() });
        }
        let fraction_valid = push_digits(&chars, fraction_from, to, &mut digits);
        if !fraction_valid || digits.len() == 0 {
            return Err(NumericParseError::Invalid { text: text.to_owned() });
        }
        proof {
            assert(digits@ =~= char_digits(whole + fraction));
        }
        strip_leading_zeros(&mut digits);
        let zero = all_zero(digits.as_slice());
        let scale: usize = to - fraction_from;
        Ok(Numeric { negative: negative && !zero, digits, scale })
    }

    /// Adds as Postgres `numeric` does: at the larger of the two scales.
    pub fn add(&self, other: &Numeric) -> (r: Numeric)
        ensures
            r@ == self@.sum(other@),
    {
        proof {
            use_type_invariant(self);
            use_type_invariant(other);
        }
        let scale: usize = if self.scale >= other.scale {
            self.scale
        } else {
            other.scale
        };
        let (a, b) = self.aligned(other);
        if self.negative == other.negative {
            let sum = add_magnitudes(a.as_slice(), b.as_slice());
            let zero = all_zero(sum.as_slice());
            Numeric { negative: self.negative && !zero, digits: sum, scale }
        } else {
            match compare_magnitudes(a.as_slice(), b.as_slice()) {
                Order::Equal => {
                    let digits: Vec<u8> = vec![0u8];
                    proof {
                        assert(digits@ =~= seq![0u8]);
                        lemma_value_single(0);
                    }
                    Numeric { negative: false, digits, scale }
                },
                Order::Greater => {
                    Numeric { negative: self.negative, digits: sub_magnitudes(a.as_slice(), b.as_slice()), scale }
                },
                Order::Less => {
                    Numeric { negative: other.negative, digits: sub_magnitudes(b.as_slice(), a.as_slice()), scale }
                },
            }
        }
    }

    /// Compares as Postgres `numeric` does: by value, whatever the scales.
    pub fn compare(&self, other: &Numeric) -> (r: Ordering)
        ensures
            r == ordering_of(self@.order(other@)),
    {
        ordering(self.order(other))
    }

    fn order(&self, other: &Numeric) -> (r: Order)
        ensures
            r == self@.order(other@),
    {
        proof {
            use_type_invariant(self);
            use_type_invariant(other);
        }
        let (a, b) = self.aligned(other);
        if self.negative != other.negative {
            proof {
                let scale = max_nat(self@.scale, other@.scale);
                lemma_pow10_positive((scale - self@.scale) as nat);
                lemma_pow10_positive((scale - other@.scale) as nat);
                lemma_at_scale_sign(self@, scale);
                lemma_at_scale_sign(other@, scale);
            }
            if self.negative {
                Order::Less
            } else {
                Order::Greater
            }
        } else {
            let magnitudes = compare_magnitudes(a.as_slice(), b.as_slice());
            if self.negative {
                match magnitudes {
                    Order::Less => Order::Greater,
                    Order::Equal => Order::Equal,
                    Order::Greater => Order::Less,
                }
            } else {
                magnitudes
            }
        }
    }

    /// The two magnitudes at the larger of the two scales, equally long.
    fn aligned(&self, other: &Numeric) -> (r: (Vec<u8>, Vec<u8>))
        ensures
            is_digits(r.0@),
            is_digits(r.1@),
            r.0@.len() == r.1@.len(),
            r.0@.len() >= 1,
            ({
                let scale = max_nat(self@.scale, other@.scale);
                &&& self@.at_scale(scale) == if self.negative {
                    -value(r.0@)
                } else {
                    value(r.0@) as int
                }
                &&& other@.at_scale(scale) == if other.negative {
                    -value(r.1@)
                } else {
                    value(r.1@) as int
                }
            }),
    {
        proof {
            use_type_invariant(self);
            use_type_invariant(other);
        }
        let scale: usize = if self.scale >= other.scale {
            self.scale
        } else {
            other.scale
        };
        let mut a = self.scaled_digits(scale);
        let mut b = other.scaled_digits(scale);
        let len: usize = if a.len() >= b.len() {
            a.len()
        } else {
            b.len()
        };
        pad_front(&mut a, len);
        pad_front(&mut b, len);
        (a, b)
    }

    /// The magnitude's digits at `scale`.
    fn scaled_digits(&self, scale: usize) -> (r: Vec<u8>)
        requires
            scale >= self.scale,
        ensures
            is_digits(r@),
            r@.len() >= 1,
            self@.at_scale(scale as nat) == if self.negative {
                -value(r@)
            } else {
                value(r@) as int
            },
    {
        proof {
            use_type_invariant(self);
            let x = value(self.digits@) as int;
            let p = pow10((scale - self.scale) as nat) as int;
            assert((-x) * p == -(x * p)) by (nonlinear_arith);
        }
        append_zeros(self.digits.as_slice(), scale - self.scale)
    }

    /// Whether the value is zero.
    fn is_zero(&self) -> (r: bool)
        ensures
            r == (self@.unscaled == 0),
    {
        proof {
            use_type_invariant(self);
        }
        all_zero(self.digits.as_slice())
    }

    /// The power-of-ten position of the leading digit; zero for zero.
    fn decimal_exponent(&self) -> (r: i128)
        ensures
            r == self@.exponent(),
            -0x1_0000_0000_0000_0000 <= r <= 0x1_0000_0000_0000_0000,
    {
        proof {
            use_type_invariant(self);
            lemma_normal_text(self.digits@);
        }
        if self.is_zero() {
            0
        } else {
            self.digits.len() as i128 - self.scale as i128 - 1
        }
    }

    /// The index of the base-10000 digit group that holds the leading digit.
    fn nbase_weight(&self) -> (r: i128)
        ensures
            r == self@.group_weight(),
            -0x1_0000_0000_0000_0000 <= r <= 0x1_0000_0000_0000_0000,
    {
        let e = self.decimal_exponent();
        floor_div4(e)
    }

    /// The integer value of the leading base-10000 digit group.
    fn leading_nbase_digit(&self) -> (r: u32)
        ensures
            r == self@.leading_group(),
    {
        proof {
            use_type_invariant(self);
            lemma_normal_text(self.digits@);
        }
        if self.is_zero() {
            return 0;
        }
        let e = self.decimal_exponent();
        let w = floor_div4(e);
        let top: usize = (e - w * 4 + 1) as usize;
        let ghost s = self.digits@;
        let ghost n = value(s);
        let ghost shift = self@.scale + 4 * self@.group_weight();
        assert(shift == s.len() - top);
        let ghost all = s + zeros(top as nat);
        let mut acc: u32 = 0;
        proof {
            assert(all.take(0) =~= Seq::<u8>::empty());
            lemma_value_zeros(top as nat);
        }
        for i in 0..top
            invariant
                1 <= top <= 4,
                s == self.digits@,
                is_digits(all),
                all == s + zeros(top as nat),
                acc == value(all.take(i as int)),
                acc < pow10(i as nat),
        {
            let d: u8 = if i < self.digits.len() {
                self.digits[i]
            } else {
                0
            };
            proof {
                assert(d == all[i as int]);
                assert(all.take(i + 1).drop_last() =~= all.take(i as int));
                reveal_with_fuel(pow10, 6);
            }
            acc = acc * 10 + d as u32;
        }
        proof {
            if shift >= 0 {
                let head = s.take(top as int);
                let tail = s.skip(top as int);
                assert(s =~= head + tail);
                lemma_value_concat(head, tail);
                assert(all.take(top as int) =~= head);
                assert(is_digits(tail));
                lemma_value_bound(tail);
                vstd::arithmetic::div_mod::lemma_fundamental_div_mod_converse(
                    n as int,
                    pow10(tail.len()) as int,
                    value(head) as int,
                    value(tail) as int,
                );
            } else {
                let k = (-shift) as nat;
                assert(all.take(top as int) =~= s + zeros(k));
                lemma_value_concat(s, zeros(k));
                lemma_value_zeros(k);
            }
        }
        acc
    }

    /// Divides as Postgres `numeric` does, rounding half away from zero at the
    /// scale that [`Decimal::quotient_scale`] gives.
    pub fn div(&self, other: &Numeric) -> (r: Numeric)
        requires
            other@.unscaled != 0,
            self@.quotient_scale(other@) <= usize::MAX,
        ensures
            r@ == self@.quotient(other@),
    {
        proof {
            use_type_invariant(self);
            use_type_invariant(other);
        }
        let scale = select_div_scale(self, other);
        let raised = append_zeros(self.digits.as_slice(), other.scale);
        let dividend = append_zeros(raised.as_slice(), scale);
        let divisor = append_zeros(other.digits.as_slice(), self.scale);
        let ghost n = self@.quotient_numerator(other@) as int;
        let ghost d = self@.quotient_denominator(other@) as int;
        proof {
            let v = value(self.digits@) as int;
            let p = pow10(other.scale as nat) as int;
            let q = pow10(scale as nat) as int;
            lemma_pow10_sum(other.scale as nat, scale as nat);
            assert((v * p) * q == v * (p * q)) by (nonlinear_arith);
            assert(value(dividend@) == n);
            assert(value(divisor@) == d);
            lemma_pow10_positive(self.scale as nat);
            let o = value(other.digits@) as int;
            let t = pow10(self.scale as nat) as int;
            assert(o * t >= 1) by (nonlinear_arith)
                requires
                    o >= 1,
                    t >= 1,
            ;
        }
        let (mut quotient, remainder) = div_digits(dividend.as_slice(), divisor.as_slice());
        let doubled = mul_small(remainder.as_slice(), 2);
        let ghost q = value(quotient@) as int;
        let ghost rem = value(remainder@) as int;
        match compare_biguint(doubled.as_slice(), divisor.as_slice()) {
            Order::Less => {},
            Order::Equal | Order::Greater => {
                increment(&mut quotient);
            },
        }
        proof {
            lemma_rounded(n, d, q, rem);
        }
        strip_leading_zeros(&mut quotient);
        let zero = all_zero(quotient.as_slice());
        Numeric { negative: (self.negative != other.negative) && !zero, digits: quotient, scale }
    }

    /// The value in Postgres `numeric`'s own text form.
    #[verifier::spinoff_prover]
    #[verifier::rlimit(40)]
    pub fn to_string(&self) -> (r: String)
        ensures
            r@ == self@.text(),
    {
        proof {
            use_type_invariant(self);
        }
        let mut r = String::new();
        if self.negative {
            r.push('-');
        }
        let ghost sign = r@;
        let ghost s = self.digits@;
        let ghost n = value(s);
        let ghost scale = self.scale as nat;
        if self.scale == 0 {
            push_digit_text(&mut r, &self.digits, 0, self.digits.len());
            proof {
                assert(s.subrange(0, s.len() as int) =~= s);
                lemma_normal_text(s);
                assert(n / 1 == n);
                assert(r@ =~= self@.text());
            }
        } else if self.digits.len() <= self.scale {
            r.push('0');
            r.push('.');
            let missing: usize = self.scale - self.digits.len();
            let ghost before = r@;
            for i in 0..missing
                invariant
                    r@ == before + digit_text(zeros(i as nat)),
            {
                r.push('0');
                assert(r@ =~= before + digit_text(zeros((i + 1) as nat)));
            }
            push_digit_text(&mut r, &self.digits, 0, self.digits.len());
            proof {
                let padded = zeros(missing as nat) + s;
                assert(s.subrange(0, s.len() as int) =~= s);
                lemma_value_zeros(missing as nat);
                lemma_value_concat(zeros(missing as nat), s);
                assert(0 * pow10(s.len()) == 0);
                assert(value(padded) == n);
                lemma_fixed_text(padded);
                lemma_value_bound(padded);
                assert(n / pow10(scale) == 0 && n % pow10(scale) == n) by {
                    vstd::arithmetic::div_mod::lemma_fundamental_div_mod_converse(
                        n as int,
                        pow10(scale) as int,
                        0,
                        n as int,
                    );
                }
                assert(nat_text(0) =~= seq!['0']);
                assert(r@ =~= sign + nat_text(0) + (seq!['.'] + digit_text(padded)));
            }
        } else {
            let split: usize = self.digits.len() - self.scale;
            push_digit_text(&mut r, &self.digits, 0, split);
            r.push('.');
            push_digit_text(&mut r, &self.digits, split, self.digits.len());
            proof {
                let head = s.subrange(0, split as int);
                let tail = s.subrange(split as int, s.len() as int);
                assert(s =~= head + tail);
                lemma_value_concat(head, tail);
                lemma_normal_text(head);
                lemma_fixed_text(tail);
                lemma_value_bound(tail);
                vstd::arithmetic::div_mod::lemma_fundamental_div_mod_converse(
                    n as int,
                    pow10(scale) as int,
                    value(head) as int,
                    value(tail) as int,
                );
                assert(r@ =~= sign + nat_text(value(head)) + (seq!['.'] + fixed_text(value(tail), scale)));
            }
        }
        r
    }
}

/// How many digits after the point a quotient keeps.
fn select_div_scale(v1: &Numeric, v2: &Numeric) -> (r: usize)
    requires
        v1@.quotient_scale(v2@) <= usize::MAX,
    ensures
        r == v1@.quotient_scale(v2@),
{
    let w1 = v1.nbase_weight();
    let w2 = v2.nbase_weight();
    let correction: i128 = if v1.leading_nbase_digit() <= v2.leading_nbase_digit() {
        1
    } else {
        0
    };
    let weight: i128 = w1 - w2 - correction;
    let mut scale: i128 = 16 - 4 * weight;
    if scale < v1.scale as i128 {
        scale = v1.scale as i128;
    }
    if scale < v2.scale as i128 {
        scale = v2.scale as i128;
    }
    scale as usize
}

/// A quarter of `a`, rounded down.
fn floor_div4(a: i128) -> (r: i128)
    requires
        -0x1_0000_0000_0000_0000 <= a <= 0x1_0000_0000_0000_0000,
    ensures
        r == a as int / 4,
        a - 3 <= 4 * r <= a,
{
    if a >= 0 {
        a / 4
    } else {
        -((3 - a) / 4)
    }
}

/// Digits are the text of their value at their width.
proof fn lemma_fixed_text(s: Seq<u8>)
    requires
        is_digits(s),
    ensures
        digit_text(s) == fixed_text(value(s), s.len()),
    decreases s.len(),
{
    if s.len() == 0 {
        assert(digit_text(s) =~= seq![]);
    } else {
        let front = s.drop_last();
        let d = s.last();
        lemma_fixed_text(front);
        assert(value(s) / 10 == value(front));
        assert(value(s) % 10 == d);
        assert(digit_text(s) =~= digit_text(front).push(digit_char(d as int)));
    }
}

/// Rounding half up, from the quotient and the remainder.
proof fn lemma_rounded(n: int, d: int, q: int, rem: int)
    requires
        n >= 0,
        d > 0,
        q == n / d,
        rem == n % d,
    ensures
        (2 * n + d) / (2 * d) == if 2 * rem < d {
            q
        } else {
            q + 1
        },
{
    vstd::arithmetic::div_mod::lemma_fundamental_div_mod(n, d);
    assert(d * q == q * d) by (nonlinear_arith);
    if 2 * rem < d {
        assert(2 * n + d == q * (2 * d) + (2 * rem + d)) by (nonlinear_arith)
            requires
                n == d * q + rem,
        ;
        vstd::arithmetic::div_mod::lemma_fundamental_div_mod_converse(2 * n + d, 2 * d, q, 2 * rem + d);
    } else {
        assert(2 * n + d == (q + 1) * (2 * d) + (2 * rem - d)) by (nonlinear_arith)
            requires
                n == d * q + rem,
        ;
        vstd::arithmetic::div_mod::lemma_fundamental_div_mod_converse(2 * n + d, 2 * d, q + 1, 2 * rem - d);
    }
}

proof fn lemma_at_scale_sign(d: Decimal, scale: nat)
    requires
        scale >= d.scale,
    ensures
        d.unscaled < 0 <==> d.at_scale(scale) < 0,
        d.unscaled == 0 <==> d.at_scale(scale) == 0,
{
    let p = pow10((scale - d.scale) as nat) as int;
    lemma_pow10_positive((scale - d.scale) as nat);
    let u = d.unscaled;
    assert(u < 0 ==> u * p < 0) by (nonlinear_arith)
        requires
            p >= 1,
    ;
    assert(u > 0 ==> u * p > 0) by (nonlinear_arith)
        requires
            p >= 1,
    ;
    assert(0 * p == 0);
}

proof fn lemma_fixed_digits(n: nat, width: nat)
    requires
        n < pow10(width),
    ensures
        fixed_text(n, width).len() == width,
        all_digit_chars(fixed_text(n, width)),
        value(char_digits(fixed_text(n, width))) == n,
    decreases width,
{
    let t = fixed_text(n, width);
    if width == 0 {
        assert(char_digits(t) =~= Seq::<u8>::empty());
        assert(value(char_digits(t)) == 0);
    } else {
        lemma_fixed_digits(n / 10, (width - 1) as nat);
        let front = fixed_text(n / 10, (width - 1) as nat);
        assert(t =~= front.push(digit_char((n % 10) as int)));
        assert(char_digits(t).drop_last() =~= char_digits(front));
        assert(char_digits(t).last() == n % 10);
    }
}

/// The whole and fractional digits of a text without a sign.
proof fn lemma_unsigned_text(whole: Seq<char>, shown: Seq<char>)
    requires
        whole.len() > 0,
        all_digit_chars(whole),
        all_digit_chars(shown),
    ensures
        ({
            let rest = if shown.len() > 0 {
                whole + (seq!['.'] + shown)
            } else {
                whole
            };
            integer_part(rest) == whole && fraction_part(rest) == shown
        }),
{
    let rest = if shown.len() > 0 {
        whole + (seq!['.'] + shown)
    } else {
        whole
    };
    assert forall|j: int| 0 <= j < whole.len() implies rest[j] != '.' by {
        assert(rest[j] == whole[j]);
        assert(is_digit_char(whole[j]));
    }
    lemma_find_is(rest, '.', whole.len() as int);
    assert(integer_part(rest) =~= whole);
    assert(fraction_part(rest) =~= shown);
}

/// A text that begins and ends with a digit, but for a sign, is trimmed, and has
/// the rest behind the sign.
proof fn lemma_signed_text(rest: Seq<char>, negative: bool)
    requires
        rest.len() > 0,
        is_digit_char(rest[0]),
        is_digit_char(rest.last()),
    ensures
        ({
            let t = if negative {
                seq!['-'] + rest
            } else {
                rest
            };
            trimmed(t) == t && unsigned_part(t) == rest && (t[0] == '-' <==> negative)
        }),
{
    let t = if negative {
        seq!['-'] + rest
    } else {
        rest
    };
    assert(t.last() == rest.last());
    assert(trimmed(t) == t);
    if negative {
        assert(t.skip(1) =~= rest);
    }
}

/// Reading back what a value's text says gives that value, at its scale.
#[verifier::spinoff_prover]
pub proof fn law_text_round_trip(d: Decimal)
    ensures
        parsed(d.text()) == Some(d),
{
    let n = magnitude(d.unscaled);
    let p = pow10(d.scale);
    lemma_pow10_positive(d.scale);
    let k = n / p;
    let m = n % p;
    let t = d.text();
    let whole = nat_text(k);
    let shown = fixed_text(m, d.scale);
    lemma_nat_text(k);
    lemma_fixed_digits(m, d.scale);
    vstd::arithmetic::div_mod::lemma_fundamental_div_mod(n as int, p as int);
    let rest = if d.scale > 0 {
        whole + (seq!['.'] + shown)
    } else {
        whole
    };
    assert(rest[0] == whole[0]);
    assert(is_digit_char(whole[0]));
    assert(rest.last() == if d.scale > 0 {
        shown.last()
    } else {
        whole.last()
    });
    assert(is_digit_char(rest.last()));
    lemma_signed_text(rest, d.unscaled < 0);
    assert(t =~= if d.unscaled < 0 {
        seq!['-'] + rest
    } else {
        rest
    });
    lemma_unsigned_text(whole, shown);
    assert(char_digits(whole + shown) =~= char_digits(whole) + char_digits(shown));
    lemma_value_concat(char_digits(whole), char_digits(shown));
    assert(k * p == p * k) by (nonlinear_arith);
}

/// Different values have different texts; a value's text is its only one.
pub proof fn law_text_distinguishes(a: Decimal, b: Decimal)
    requires
        a.text() == b.text(),
    ensures
        a == b,
{
    law_text_round_trip(a);
    law_text_round_trip(b);
}

/// Raising the scale twice is raising it once.
proof fn lemma_at_scale_twice(d: Decimal, s: nat, t: nat)
    requires
        d.scale <= s <= t,
    ensures
        d.at_scale(t) == d.at_scale(s) * pow10((t - s) as nat),
{
    let p = pow10((s - d.scale) as nat) as int;
    let q = pow10((t - s) as nat) as int;
    lemma_pow10_sum((s - d.scale) as nat, (t - s) as nat);
    assert((t - d.scale) as nat == (s - d.scale) as nat + (t - s) as nat);
    let u = d.unscaled;
    assert((u * p) * q == u * (p * q)) by (nonlinear_arith);
}

proof fn lemma_sum_at_scale(a: Decimal, b: Decimal, t: nat)
    requires
        a.scale <= t,
        b.scale <= t,
    ensures
        a.sum(b).at_scale(t) == a.at_scale(t) + b.at_scale(t),
{
    let s = max_nat(a.scale, b.scale);
    lemma_at_scale_twice(a, s, t);
    lemma_at_scale_twice(b, s, t);
    let x = a.at_scale(s);
    let y = b.at_scale(s);
    let q = pow10((t - s) as nat) as int;
    assert((x + y) * q == x * q + y * q) by (nonlinear_arith);
}

/// Addition does not depend on the order of its operands.
pub proof fn law_add_commutes(a: Decimal, b: Decimal)
    ensures
        a.sum(b) == b.sum(a),
{
}

/// Addition does not depend on grouping.
pub proof fn law_add_associates(a: Decimal, b: Decimal, c: Decimal)
    ensures
        a.sum(b).sum(c) == a.sum(b.sum(c)),
{
    let t = max_nat(max_nat(a.scale, b.scale), c.scale);
    lemma_sum_at_scale(a, b, t);
    lemma_sum_at_scale(b, c, t);
}

/// Adding zero at scale zero changes nothing, the scale included.
pub proof fn law_add_zero(a: Decimal)
    ensures
        a.sum(Decimal { unscaled: 0, scale: 0 }) == a,
{
    let p = pow10(a.scale) as int;
    assert(0 * p == 0);
    assert(pow10(0) == 1);
    assert(a.unscaled * 1 == a.unscaled);
}

/// A value and its opposite add up to zero at their scale.
pub proof fn law_add_opposite(a: Decimal)
    ensures
        a.sum(Decimal { unscaled: -a.unscaled, scale: a.scale }) == (Decimal { unscaled: 0, scale: a.scale }),
{
    assert(pow10(0) == 1);
    assert(a.unscaled * 1 == a.unscaled);
    assert((-a.unscaled) * 1 == -a.unscaled);
}

/// The order at any common scale is the order of the values.
proof fn lemma_order_at_scale(a: Decimal, b: Decimal, t: nat)
    requires
        a.scale <= t,
        b.scale <= t,
    ensures
        a.order(b) == order_of(a.at_scale(t), b.at_scale(t)),
{
    let s = max_nat(a.scale, b.scale);
    lemma_at_scale_twice(a, s, t);
    lemma_at_scale_twice(b, s, t);
    lemma_pow10_positive((t - s) as nat);
    let x = a.at_scale(s);
    let y = b.at_scale(s);
    let q = pow10((t - s) as nat) as int;
    assert(x < y ==> x * q < y * q) by (nonlinear_arith)
        requires
            q >= 1,
    ;
    assert(y < x ==> y * q < x * q) by (nonlinear_arith)
        requires
            q >= 1,
    ;
}

/// Comparing the other way round turns the answer round.
pub proof fn law_compare_antisymmetric(a: Decimal, b: Decimal)
    ensures
        a.order(b) is Less <==> b.order(a) is Greater,
        a.order(b) is Equal <==> b.order(a) is Equal,
        a.order(b) is Greater <==> b.order(a) is Less,
{
}

/// The order of values is transitive.
pub proof fn law_compare_transitive(a: Decimal, b: Decimal, c: Decimal)
    requires
        !(a.order(b) is Greater),
        !(b.order(c) is Greater),
    ensures
        !(a.order(c) is Greater),
        a.order(c) is Equal <==> a.order(b) is Equal && b.order(c) is Equal,
{
    let t = max_nat(max_nat(a.scale, b.scale), c.scale);
    lemma_order_at_scale(a, b, t);
    lemma_order_at_scale(b, c, t);
    lemma_order_at_scale(a, c, t);
}

/// Values that compare equal at one scale are one value.
pub proof fn law_compare_equal_at_one_scale(a: Decimal, b: Decimal)
    requires
        a.scale == b.scale,
    ensures
        a.order(b) is Equal <==> a == b,
{
    assert(pow10(0) == 1);
    assert(a.unscaled * 1 == a.unscaled);
    assert(b.unscaled * 1 == b.unscaled);
}

/// Adding the same value on both sides keeps the order.
pub proof fn law_add_keeps_order(a: Decimal, b: Decimal, c: Decimal)
    ensures
        a.sum(c).order(b.sum(c)) == a.order(b),
{
    let t = max_nat(max_nat(a.scale, b.scale), c.scale);
    lemma_sum_at_scale(a, c, t);
    lemma_sum_at_scale(b, c, t);
    lemma_order_at_scale(a, b, t);
    lemma_order_at_scale(a.sum(c), b.sum(c), t);
}

/// A quotient keeps at least as many digits after the point as either operand.
pub proof fn law_div_keeps_operand_scales(a: Decimal, b: Decimal)
    ensures
        a.quotient(b).scale >= a.scale,
        a.quotient(b).scale >= b.scale,
{
}

/// A quotient is off by at most half a unit of its last digit.
pub proof fn law_div_is_nearest(a: Decimal, b: Decimal)
    requires
        b.unscaled != 0,
    ensures
        ({
            let q = magnitude(a.quotient(b).unscaled);
            let n = a.quotient_numerator(b);
            let d = a.quotient_denominator(b);
            d > 0 && -(d as int) <= 2 * (n - q * d) < d
        }),
{
    let n = a.quotient_numerator(b) as int;
    let d = a.quotient_denominator(b) as int;
    lemma_pow10_positive(a.scale);
    let x = magnitude(b.unscaled) as int;
    let p = pow10(a.scale) as int;
    assert(x * p >= 1) by (nonlinear_arith)
        requires
            x >= 1,
            p >= 1,
    ;
    let q = (2 * n + d) / (2 * d);
    let r = (2 * n + d) % (2 * d);
    vstd::arithmetic::div_mod::lemma_fundamental_div_mod(2 * n + d, 2 * d);
    vstd::arithmetic::div_mod::lemma_div_pos_is_pos(2 * n + d, 2 * d);
    assert((2 * d) * q == 2 * (q * d)) by (nonlinear_arith);
}

/// A quotient is negative only where the operands' signs differ.
pub proof fn law_div_sign(a: Decimal, b: Decimal)
    requires
        b.unscaled != 0,
    ensures
        a.quotient(b).unscaled < 0 ==> (a.unscaled < 0) != (b.unscaled < 0),
        a.quotient(b).unscaled > 0 ==> (a.unscaled < 0) == (b.unscaled < 0),
        a.unscaled == 0 ==> a.quotient(b).unscaled == 0,
{
    law_div_is_nearest(a, b);
    let n = a.quotient_numerator(b) as int;
    let d = a.quotient_denominator(b) as int;
    vstd::arithmetic::div_mod::lemma_div_pos_is_pos(2 * n + d, 2 * d);
    if a.unscaled == 0 {
        let p = pow10(b.scale + a.quotient_scale(b)) as int;
        assert(0 * p == 0) by (nonlinear_arith);
        vstd::arithmetic::div_mod::lemma_basic_div(d, 2 * d);
    }
}

proof fn lemma_length_bounds(n: nat)
    requires
        n > 0,
    ensures
        nat_text(n).len() >= 1,
        pow10((nat_text(n).len() - 1) as nat) <= n < pow10(nat_text(n).len()),
    decreases n,
{
    if n < 10 {
        assert(pow10(0) == 1);
        assert(pow10(1) == 10 * pow10(0));
    } else {
        lemma_length_bounds(n / 10);
        let k = nat_text(n / 10).len();
        assert(nat_text(n).len() == k + 1);
        assert(pow10(k) == 10 * pow10((k - 1) as nat));
        assert(pow10(k + 1) == 10 * pow10(k));
    }
}

proof fn lemma_length_at_least(n: nat, k: nat)
    requires
        n >= pow10(k),
    ensures
        nat_text(n).len() > k,
{
    lemma_pow10_positive(k);
    lemma_length_bounds(n);
    if nat_text(n).len() <= k {
        lemma_pow10_monotone(nat_text(n).len(), k);
    }
}

/// The part of an exponent above zero.
spec fn above(e: int) -> nat {
    if e > 0 {
        e as nat
    } else {
        0
    }
}

/// A number lies between its leading group and the next one, each at the
/// group's weight.
proof fn lemma_leading_group(d: Decimal)
    requires
        d.unscaled != 0,
    ensures
        ({
            let shift = d.scale + 4 * d.group_weight();
            let n = magnitude(d.unscaled) * pow10(above(-shift));
            let p = pow10(above(shift));
            &&& 1 <= d.leading_group() < pow10(4)
            &&& d.leading_group() * p <= n < (d.leading_group() + 1) * p
        }),
{
    let n = magnitude(d.unscaled);
    let shift = d.scale + 4 * d.group_weight();
    let len = nat_text(n).len() as int;
    let e = d.exponent();
    let g = d.leading_group() as int;
    lemma_length_bounds(n);
    assert(4 * d.group_weight() <= e <= 4 * d.group_weight() + 3);
    assert(pow10(0) == 1);
    if shift >= 0 {
        let p = pow10(shift as nat) as int;
        lemma_pow10_positive(shift as nat);
        lemma_pow10_monotone(shift as nat, (len - 1) as nat);
        lemma_pow10_monotone(len as nat, shift as nat + 4);
        lemma_pow10_sum(shift as nat, 4);
        vstd::arithmetic::div_mod::lemma_fundamental_div_mod(n as int, p);
        vstd::arithmetic::div_mod::lemma_mod_bound(n as int, p);
        assert(g * p <= n < (g + 1) * p) by (nonlinear_arith)
            requires
                n == p * g + n as int % p,
                0 <= n as int % p < p,
        ;
        assert(g >= 1) by (nonlinear_arith)
            requires
                n < (g + 1) * p,
                n >= p,
                p >= 1,
        ;
        let m = pow10(4) as int;
        assert(g < m) by (nonlinear_arith)
            requires
                g * p <= n,
                n < p * m,
                p >= 1,
        ;
        let one = pow10(above(-shift)) as int;
        assert(one == 1);
        assert(n * one == n) by (nonlinear_arith)
            requires
                one == 1,
        ;
    } else {
        let k = (-shift) as nat;
        let q = pow10(k) as int;
        lemma_pow10_positive(k);
        assert(g == n * q);
        assert(g >= 1) by (nonlinear_arith)
            requires
                g == n * q,
                n >= 1,
                q >= 1,
        ;
        lemma_pow10_sum(len as nat, k);
        lemma_pow10_monotone((len + k) as nat, 4);
        let l = pow10(len as nat) as int;
        assert(n * q < l * q) by (nonlinear_arith)
            requires
                n < l,
                q >= 1,
        ;
        let one = pow10(above(shift)) as int;
        assert(one == 1);
        assert(g * one == g && (g + 1) * one == g + 1) by (nonlinear_arith)
            requires
                one == 1,
        ;
    }
}

/// What holds at some powers of ten holds where their ratio is no smaller.
proof fn lemma_scaled_order(n: nat, m: nat, x: nat, y: nat, u: nat, v: nat)
    requires
        n * pow10(x) >= m * pow10(y),
        u + y >= x + v,
    ensures
        n * pow10(u) >= m * pow10(v),
{
    lemma_pow10_positive(y);
    lemma_pow10_sum(u, y);
    lemma_pow10_sum(x, v);
    lemma_pow10_monotone(x + v, u + y);
    let (px, py, pu, pv) = (pow10(x) as int, pow10(y) as int, pow10(u) as int, pow10(v) as int);
    lemma_pow10_positive(v);
    assert(n * pu >= m * pv) by (nonlinear_arith)
        requires
            n * px >= m * py,
            pu * py >= px * pv,
            py >= 1,
            pv >= 1,
            n >= 0,
    {
        assert((n * pu) * py == n * (pu * py));
        assert(n * (pu * py) >= n * (px * pv));
        assert(n * (px * pv) == (n * px) * pv);
        assert((n * px) * pv >= (m * py) * pv);
        assert((m * py) * pv == (m * pv) * py);
        assert((n * pu) * py >= (m * pv) * py);
    }
}

/// The quotient of a dividend that is not zero has at least sixteen significant
/// digits.
pub proof fn law_div_has_sixteen_digits(a: Decimal, b: Decimal)
    requires
        a.unscaled != 0,
        b.unscaled != 0,
    ensures
        magnitude(a.quotient(b).unscaled) >= pow10(16),
        nat_text(magnitude(a.quotient(b).unscaled)).len() >= 16,
{
    let na = magnitude(a.unscaled);
    let nb = magnitude(b.unscaled);
    let shift_a = a.scale + 4 * a.group_weight();
    let shift_b = b.scale + 4 * b.group_weight();
    lemma_leading_group(a);
    lemma_leading_group(b);
    let (ga, gb) = (a.leading_group() as int, b.leading_group() as int);
    let (pa, qa) = (pow10(above(shift_a)) as int, pow10(above(-shift_a)) as int);
    let (pb, qb) = (pow10(above(shift_b)) as int, pow10(above(-shift_b)) as int);
    lemma_pow10_positive(above(shift_a));
    lemma_pow10_positive(above(shift_b));
    let more: nat = if ga <= gb {
        4
    } else {
        0
    };
    let t = pow10(more) as int;
    assert(pow10(0) == 1);
    assert(ga * t >= gb + 1) by (nonlinear_arith)
        requires
            t == 1 && ga > gb || t > gb && ga >= 1,
            gb >= 1,
    ;
    assert(na * (qa * pb * t) >= nb * (qb * pa)) by (nonlinear_arith)
        requires
            ga * pa <= na * qa,
            nb * qb < (gb + 1) * pb,
            ga * t >= gb + 1,
            pa >= 1,
            pb >= 1,
            t >= 1,
    {
        assert(na * (qa * pb * t) == (na * qa) * (pb * t));
        assert(pb * t >= 1);
        assert((na * qa) * (pb * t) >= (ga * pa) * (pb * t));
        assert((ga * pa) * (pb * t) == (ga * t) * (pa * pb));
        assert(pa * pb >= 1);
        assert((ga * t) * (pa * pb) >= (gb + 1) * (pa * pb));
        assert((gb + 1) * (pa * pb) == ((gb + 1) * pb) * pa);
        assert(((gb + 1) * pb) * pa >= (nb * qb) * pa);
        assert((nb * qb) * pa == nb * (qb * pa));
    }
    let x = above(-shift_a) + above(shift_b) + more;
    let y = above(-shift_b) + above(shift_a);
    lemma_pow10_sum(above(-shift_a), above(shift_b));
    lemma_pow10_sum(above(-shift_a) + above(shift_b), more);
    lemma_pow10_sum(above(-shift_b), above(shift_a));
    let r = a.quotient_scale(b);
    lemma_scaled_order(na, nb, x, y, b.scale + r, 16 + a.scale);
    lemma_pow10_sum(16, a.scale);
    let n = a.quotient_numerator(b) as int;
    let d = a.quotient_denominator(b) as int;
    let k = pow10(16) as int;
    let ps = pow10(a.scale) as int;
    assert(n >= k * d) by (nonlinear_arith)
        requires
            n >= nb * (k * ps),
            d == nb * ps,
    ;
    law_div_is_nearest(a, b);
    let q = magnitude(a.quotient(b).unscaled) as int;
    assert(q >= k) by (nonlinear_arith)
        requires
            2 * (n - q * d) < d,
            n >= k * d,
            d > 0,
    ;
    lemma_length_at_least(q as nat, 16);
}

/// One value is less than another exactly where it is after both are multiplied by
/// the same powers of ten.
pub proof fn law_compare_goes_by_value(a: Decimal, b: Decimal)
    ensures
        a.order(b) is Less <==> a.unscaled * pow10(b.scale) < b.unscaled * pow10(a.scale),
        a.order(b) is Equal <==> a.unscaled * pow10(b.scale) == b.unscaled * pow10(a.scale),
        a.order(b) is Greater <==> a.unscaled * pow10(b.scale) > b.unscaled * pow10(a.scale),
{
    let t = a.scale + b.scale;
    lemma_order_at_scale(a, b, t);
    assert((t - a.scale) as nat == b.scale);
    assert((t - b.scale) as nat == a.scale);
}

/// A sum has the larger of the scales, and its value is the sum of the values.
pub proof fn law_add_goes_by_value(a: Decimal, b: Decimal)
    ensures
        a.sum(b).scale >= a.scale,
        a.sum(b).scale >= b.scale,
        a.sum(b).scale == a.scale || a.sum(b).scale == b.scale,
        a.sum(b).unscaled * pow10((a.scale + b.scale - a.sum(b).scale) as nat) == a.unscaled * pow10(b.scale)
            + b.unscaled * pow10(a.scale),
{
    let t = a.scale + b.scale;
    lemma_sum_at_scale(a, b, t);
    assert((t - a.scale) as nat == b.scale);
    assert((t - b.scale) as nat == a.scale);
}

/// A quotient, multiplied by the divisor, is off the dividend by at most half of a
/// unit of its last digit times the divisor.
pub proof fn law_div_undoes_multiplication(a: Decimal, b: Decimal)
    requires
        b.unscaled != 0,
    ensures
        ({
            let q = a.quotient(b);
            let exact = magnitude(a.unscaled) * pow10(b.scale + q.scale);
            let back = magnitude(q.unscaled) * (magnitude(b.unscaled) * pow10(a.scale));
            let unit = (magnitude(b.unscaled) * pow10(a.scale)) as int;
            unit > 0 && -unit <= 2 * (exact - back) < unit
        }),
{
    law_div_is_nearest(a, b);
}

/// Digits with a point among them, before them or behind them, are a number, with a
/// sign or without and whatever white space is around; its scale is the number of
/// digits behind the point.
pub proof fn law_decimals_are_numbers(
    before: Seq<char>,
    sign: Seq<char>,
    whole: Seq<char>,
    fraction: Seq<char>,
    after: Seq<char>,
)
    requires
        forall|i: int| 0 <= i < before.len() ==> is_white_space(#[trigger] before[i]),
        forall|i: int| 0 <= i < after.len() ==> is_white_space(#[trigger] after[i]),
        sign == Seq::<char>::empty() || sign == seq!['-'] || sign == seq!['+'],
        all_digit_chars(whole),
        all_digit_chars(fraction),
        whole.len() + fraction.len() > 0,
    ensures
        parsed(before + (sign + whole + seq!['.'] + fraction) + after) == Some(
            Decimal {
                unscaled: if sign == seq!['-'] {
                    -value(char_digits(whole + fraction))
                } else {
                    value(char_digits(whole + fraction)) as int
                },
                scale: fraction.len(),
            },
        ),
{
    let body = whole + seq!['.'] + fraction;
    let middle = sign + whole + seq!['.'] + fraction;
    assert(middle =~= sign + body);
    assert forall|i: int| 0 <= i < whole.len() implies whole[i] != '.' && whole[i] != '-' && whole[i] != '+'
        && !is_white_space(whole[i]) by {
        assert(is_digit_char(whole[i]));
    }
    assert forall|i: int| 0 <= i < fraction.len() implies !is_white_space(fraction[i]) by {
        assert(is_digit_char(fraction[i]));
    }
    assert(body[0] == if whole.len() > 0 {
        whole[0]
    } else {
        '.'
    });
    assert(middle[0] == if sign.len() > 0 {
        sign[0]
    } else {
        body[0]
    });
    assert(middle.last() == if fraction.len() > 0 {
        fraction.last()
    } else {
        '.'
    });
    law_trimming_leaves_the_middle(before, middle, after);
    if sign.len() > 0 {
        assert(middle.skip(1) =~= body);
    } else {
        assert(middle =~= body);
    }
    assert(unsigned_part(middle) == body);
    lemma_find_is(body, '.', whole.len() as int);
    assert(integer_part(body) =~= whole);
    assert(fraction_part(body) =~= fraction);
}

/// What is a number is a sign or none, digits, and, if anything follows, a point and
/// digits, with at least one digit.
pub proof fn law_numbers_are_decimals(text: Seq<char>)
    requires
        parsed(text) is Some,
    ensures
        ({
            let t = trimmed(text);
            let rest = if t.len() > 0 && (t[0] == '-' || t[0] == '+') {
                t.skip(1)
            } else {
                t
            };
            exists|whole: Seq<char>, fraction: Seq<char>|
                #![trigger whole + fraction]
                all_digit_chars(whole) && all_digit_chars(fraction) && whole.len() + fraction.len() > 0 && (rest
                    == whole + seq!['.'] + fraction || rest == whole && fraction.len() == 0)
        }),
{
    let t = trimmed(text);
    let rest = unsigned_part(t);
    let whole = integer_part(rest);
    let fraction = fraction_part(rest);
    lemma_find(rest, '.');
    if find(rest, '.') < rest.len() {
        assert(rest =~= whole + seq!['.'] + fraction);
    } else {
        assert(rest =~= whole);
    }
    assert((whole + fraction).len() == whole.len() + fraction.len());
}

/// The standard library's names for orders are those of the same meaning.
pub proof fn law_order_names(a: int, b: int)
    ensures
        ordering_of(order_of(a, b)) is Less <==> a < b,
        ordering_of(order_of(a, b)) is Equal <==> a == b,
        ordering_of(order_of(a, b)) is Greater <==> a > b,
{
}

} // verus!
