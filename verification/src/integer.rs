//! Postgres's exact integer types, `smallint`, `integer` and `bigint`, with
//! Postgres's own ranges, result widths and overflow errors.

use crate::digits::{
    all_digit_chars, char_digits, is_digits, is_normal, lemma_nat_text, lemma_normal_text, lemma_pow10_positive,
    digit_text, lemma_value_concat, pow10, push_digits, value,
};
use crate::text::{chars_of, int_text, nat_text, same};
use vstd::prelude::*;

verus! {

/// Which of Postgres's three exact integer widths a value has, narrowest first.
#[derive(Debug, Clone, Copy, PartialEq, Eq, PartialOrd, Ord, Hash, Structural)]
pub enum IntWidth {
    /// `smallint` / `int2`.
    Int2,
    /// `integer` / `int4`.
    Int4,
    /// `bigint` / `int8`.
    Int8,
}

/// Why an exact-integer operation failed.
#[derive(Debug, Clone, PartialEq, Eq)]
pub enum IntegerError {
    /// A result (or an ingested value) does not fit its type's range.
    OutOfRange {
        /// The type whose range was left.
        width: IntWidth,
    },
    /// Text that is not a canonical integer at all.
    Invalid {
        /// The text as it was given.
        text: String,
    },
}

impl IntWidth {
    /// Every width, narrowest first.
    pub const ALL: [IntWidth; 3] = [IntWidth::Int2, IntWidth::Int4, IntWidth::Int8];

    /// The Postgres name of a width.
    pub open spec fn name(self) -> Seq<char> {
        match self {
            IntWidth::Int2 => "smallint"@,
            IntWidth::Int4 => "integer"@,
            IntWidth::Int8 => "bigint"@,
        }
    }

    /// How many bits a value of the width has.
    pub open spec fn bits(self) -> nat {
        match self {
            IntWidth::Int2 => 16,
            IntWidth::Int4 => 32,
            IntWidth::Int8 => 64,
        }
    }

    /// Whether an integer is a value of the width.
    pub open spec fn holds(self, n: int) -> bool {
        match self {
            IntWidth::Int2 => i16::MIN <= n <= i16::MAX,
            IntWidth::Int4 => i32::MIN <= n <= i32::MAX,
            IntWidth::Int8 => i64::MIN <= n <= i64::MAX,
        }
    }

    /// The Postgres spelling of this width.
    pub fn pg_name(self) -> (r: &'static str)
        ensures
            r@ == self.name(),
    {
        match self {
            IntWidth::Int2 => "smallint",
            IntWidth::Int4 => "integer",
            IntWidth::Int8 => "bigint",
        }
    }

    /// The width that Postgres spells `text`, if there is one.
    pub fn from_pg_name(text: &str) -> (r: Option<IntWidth>)
        ensures
            forall|w: IntWidth| r == Some(w) <==> text@ == #[trigger] w.name(),
    {
        proof {
            lemma_names_differ();
        }
        if same(text, "smallint") {
            assert(text@ == IntWidth::Int2.name());
            Some(IntWidth::Int2)
        } else if same(text, "integer") {
            assert(text@ == IntWidth::Int4.name());
            Some(IntWidth::Int4)
        } else if same(text, "bigint") {
            assert(text@ == IntWidth::Int8.name());
            Some(IntWidth::Int8)
        } else {
            None
        }
    }

    /// The inclusive range of the width's values.
    pub fn range(self) -> (r: (i64, i64))
        ensures
            r.0 <= r.1,
            forall|n: int| #[trigger] self.holds(n) <==> r.0 <= n <= r.1,
            self is Int2 ==> r == (-32768i64, 32767i64),
            self is Int4 ==> r == (-2147483648i64, 2147483647i64),
            self is Int8 ==> r == (i64::MIN, i64::MAX),
    {
        match self {
            IntWidth::Int2 => (i16::MIN as i64, i16::MAX as i64),
            IntWidth::Int4 => (i32::MIN as i64, i32::MAX as i64),
            IntWidth::Int8 => (i64::MIN, i64::MAX),
        }
    }

    /// Whether `value` fits this width.
    pub fn fits(self, value: i64) -> (r: bool)
        ensures
            r == self.holds(value as int),
    {
        let (min, max) = self.range();
        value >= min && value <= max
    }

    /// The width Postgres gives an unadorned integer literal of this value:
    /// `integer` where it fits, else `bigint`.
    pub fn narrowest_for(value: i64) -> (r: IntWidth)
        ensures
            r == if IntWidth::Int4.holds(value as int) {
                IntWidth::Int4
            } else {
                IntWidth::Int8
            },
            r.holds(value as int),
            r is Int8 <==> value < -2147483648 || value > 2147483647,
            !(r is Int2),
    {
        if IntWidth::Int4.fits(value) {
            IntWidth::Int4
        } else {
            IntWidth::Int8
        }
    }

    /// The wider of two widths.
    pub open spec fn widest(self, other: IntWidth) -> IntWidth {
        if self.bits() >= other.bits() {
            self
        } else {
            other
        }
    }

    /// The wider of two widths: the result width of a mixed-width operation.
    pub fn wider(self, other: IntWidth) -> (r: IntWidth)
        ensures
            r == self.widest(other),
    {
        match (self, other) {
            (IntWidth::Int8, _) => IntWidth::Int8,
            (_, IntWidth::Int8) => IntWidth::Int8,
            (IntWidth::Int4, _) => IntWidth::Int4,
            (_, IntWidth::Int4) => IntWidth::Int4,
            (IntWidth::Int2, IntWidth::Int2) => IntWidth::Int2,
        }
    }

    /// The Postgres spelling of this width.
    pub fn to_string(&self) -> (r: String)
        ensures
            r@ == self.name(),
    {
        (*self).pg_name().to_owned()
    }
}

impl IntegerError {
    /// The error in Postgres's words.
    pub open spec fn message(self) -> Seq<char> {
        match self {
            IntegerError::OutOfRange { width } => width.name() + " out of range"@,
            IntegerError::Invalid { text } => "invalid input syntax for type integer: '"@ + text@ + "'"@,
        }
    }

    /// The error in Postgres's words.
    pub fn to_string(&self) -> (r: String)
        ensures
            r@ == self.message(),
    {
        let mut r = String::new();
        match self {
            IntegerError::OutOfRange { width } => {
                r.append(width.pg_name());
                r.append(" out of range");
            },
            IntegerError::Invalid { text } => {
                r.append("invalid input syntax for type integer: '");
                r.append(text.as_str());
                r.append("'");
            },
        }
        assert(r@ =~= self.message());
        r
    }
}

/// `text` without a leading minus sign.
pub open spec fn without_minus(text: Seq<char>) -> Seq<char> {
    if text.len() > 0 && text[0] == '-' {
        text.skip(1)
    } else {
        text
    }
}

/// The integer that `text` is the canonical rendering of: an optional minus
/// sign and digits, without a superfluous zero and without a negative zero.
pub open spec fn canonical_value(text: Seq<char>) -> Option<int> {
    let digits = without_minus(text);
    let negative = text.len() > 0 && text[0] == '-';
    let n = value(char_digits(digits));
    if digits.len() == 0 || !all_digit_chars(digits) {
        None
    } else if digits.len() > 1 && digits[0] == '0' {
        None
    } else if negative && n == 0 {
        None
    } else if negative {
        Some(-n)
    } else {
        Some(n as int)
    }
}

/// Parses Postgres's canonical text rendering of an exact integer.
pub fn parse(text: &str, width: IntWidth) -> (r: Result<i64, IntegerError>)
    ensures
        match canonical_value(text@) {
            None => r matches Err(IntegerError::Invalid { text: t }) && t@ == text@,
            Some(n) => if width.holds(n) {
                r matches Ok(v) && v == n
            } else {
                r matches Err(IntegerError::OutOfRange { width: w }) && w == width
            },
        },
{
    let chars = chars_of(text);
    let negative = chars.len() > 0 && chars[0] == '-';
    let start: usize = if negative {
        1
    } else {
        0
    };
    let ghost rest = without_minus(text@);
    assert(rest =~= chars@.subrange(start as int, chars@.len() as int));
    let mut digits: Vec<u8> = Vec::new();
    let valid = push_digits(&chars, start, chars.len(), &mut digits);
    if !valid || chars.len() == start {
        return Err(IntegerError::Invalid { text: text.to_owned() });
    }
    assert(digits@ =~= char_digits(rest));
    if digits.len() > 1 && chars[start] == '0' {
        return Err(IntegerError::Invalid { text: text.to_owned() });
    }
    let mut magnitude: i128 = 0;
    assert(digits@.take(0) =~= Seq::<u8>::empty());
    for i in 0..digits.len()
        invariant
            is_digits(digits@),
            digits@ == char_digits(rest),
            0 <= magnitude <= 0x1_0000_0000_0000_0000,
            magnitude == value(digits@.take(i as int)),
            canonical_value(text@) is Some || (negative && value(digits@) == 0),
            canonical_value(text@) matches Some(n) ==> n == if negative {
                -value(digits@)
            } else {
                value(digits@) as int
            },
    {
        assert(digits@.take(i + 1).drop_last() =~= digits@.take(i as int));
        magnitude = magnitude * 10 + digits[i] as i128;
        if magnitude > 0x1_0000_0000_0000_0000 {
            proof {
                lemma_value_prefix(digits@, i + 1);
            }
            return Err(IntegerError::OutOfRange { width });
        }
    }
    assert(digits@.take(digits@.len() as int) =~= digits@);
    if negative && magnitude == 0 {
        return Err(IntegerError::Invalid { text: text.to_owned() });
    }
    let number: i128 = if negative {
        -magnitude
    } else {
        magnitude
    };
    if number < i64::MIN as i128 || number > i64::MAX as i128 {
        return Err(IntegerError::OutOfRange { width });
    }
    let found: i64 = number as i64;
    if !width.fits(found) {
        return Err(IntegerError::OutOfRange { width });
    }
    Ok(found)
}

/// Adds exact integers as Postgres does: the result has the wider operand's
/// type, and a sum outside that type's range is an error.
pub fn checked_add(a: i64, a_width: IntWidth, b: i64, b_width: IntWidth) -> (r: Result<(i64, IntWidth), IntegerError>)
    ensures
        ({
            let width = a_width.widest(b_width);
            if width.holds(a + b) {
                r matches Ok((sum, w)) && sum == a + b && w == width
            } else {
                r matches Err(IntegerError::OutOfRange { width: w }) && w == width
            }
        }),
{
    let width = a_width.wider(b_width);
    match a.checked_add(b) {
        None => Err(IntegerError::OutOfRange { width }),
        Some(sum) => if width.fits(sum) {
            Ok((sum, width))
        } else {
            Err(IntegerError::OutOfRange { width })
        },
    }
}

proof fn lemma_names_differ()
    ensures
        "smallint"@.len() == 8,
        "integer"@.len() == 7,
        "bigint"@.len() == 6,
{
    reveal_strlit("smallint");
    reveal_strlit("integer");
    reveal_strlit("bigint");
}

proof fn lemma_value_prefix(s: Seq<u8>, k: int)
    requires
        0 <= k <= s.len(),
    ensures
        value(s.take(k)) <= value(s),
{
    let head = s.take(k);
    let tail = s.skip(k);
    assert(s =~= head + tail);
    lemma_value_concat(head, tail);
    lemma_pow10_positive(tail.len());
    let v = value(head) as int;
    let p = pow10(tail.len()) as int;
    assert(v * p >= v) by (nonlinear_arith)
        requires
            v >= 0,
            p >= 1,
    ;
}

/// Different widths have different names, so a name decodes to the width it encodes.
pub proof fn law_names_round_trip(a: IntWidth, b: IntWidth)
    ensures
        a.name() == b.name() <==> a == b,
{
    lemma_names_differ();
}

/// A value of a width is a value of every wider one.
pub proof fn law_wider_holds_both(a: IntWidth, b: IntWidth, n: int)
    ensures
        a.widest(b) == b.widest(a),
        a.holds(n) ==> a.widest(b).holds(n),
        b.holds(n) ==> a.widest(b).holds(n),
        a.widest(b) == a || a.widest(b) == b,
{
}

/// A sum does not depend on the order of its operands, nor does its width.
pub proof fn law_addition_commutes(a: int, a_width: IntWidth, b: int, b_width: IntWidth)
    ensures
        a_width.widest(b_width) == b_width.widest(a_width),
        a_width.widest(b_width).holds(a + b) == b_width.widest(a_width).holds(b + a),
{
}

/// The canonical text of an integer, and no other text, is read back as it.
pub proof fn law_canonical_text(text: Seq<char>, n: int)
    ensures
        canonical_value(text) == Some(n) <==> text == int_text(n),
{
    let m: nat = if n < 0 {
        (-n) as nat
    } else {
        n as nat
    };
    let shown = nat_text(m);
    lemma_nat_text(m);
    if text == int_text(n) {
        lemma_leading_zero(m);
        if n < 0 {
            assert(text =~= seq!['-'] + shown);
            assert(text.skip(1) =~= shown);
        } else {
            assert(text[0] == shown[0]);
            assert(all_digit_chars(shown));
        }
    }
    if canonical_value(text) == Some(n) {
        let digits = without_minus(text);
        let d = char_digits(digits);
        assert forall|i: int| 0 <= i < d.len() implies #[trigger] d[i] <= 9 by {
            assert(crate::digits::is_digit_char(digits[i]));
        }
        assert(is_normal(d)) by {
            if d.len() > 1 {
                assert(crate::digits::is_digit_char(digits[0]));
            }
        }
        lemma_normal_text(d);
        assert(digit_text(d) =~= digits) by {
            assert forall|i: int| 0 <= i < digits.len() implies digit_text(d)[i] == digits[i] by {
                assert(crate::digits::is_digit_char(digits[i]));
            }
        }
        if text[0] == '-' {
            assert(text =~= seq!['-'] + digits);
        }
    }
}

proof fn lemma_leading_zero(n: nat)
    ensures
        nat_text(n).len() > 1 ==> nat_text(n)[0] != '0',
        nat_text(n)[0] == '0' <==> n == 0,
    decreases n,
{
    if n >= 10 {
        lemma_leading_zero(n / 10);
        lemma_nat_text(n / 10);
    }
}

/// A width holds as many numbers as its bits have values, half of them negative.
pub proof fn law_widths_hold_their_bits(w: IntWidth, n: int)
    ensures
        w is Int2 ==> (w.holds(n) <==> -0x8000 <= n < 0x8000),
        w is Int4 ==> (w.holds(n) <==> -0x8000_0000 <= n < 0x8000_0000),
        w is Int8 ==> (w.holds(n) <==> -0x8000_0000_0000_0000 <= n < 0x8000_0000_0000_0000),
        IntWidth::Int2.widest(w) == w,
        IntWidth::Int8.widest(w) is Int8,
        IntWidth::Int4.widest(w) is Int4 <==> !(w is Int8),
        IntWidth::Int2.name() == "smallint"@,
        IntWidth::Int4.name() == "integer"@,
        IntWidth::Int8.name() == "bigint"@,
{
}

} // verus!
