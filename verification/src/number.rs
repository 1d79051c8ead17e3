//! Numbers of the language: IEEE 754 binary64 values held by their bit
//! pattern.
//!
//! What can be decided exactly on the bit pattern is decided here: sign
//! change, equality and ordering. What needs rounding (arithmetic, reading a
//! literal, writing decimal text) is asked of a [`Numerics`] implementation
//! supplied by the embedding program.

use vstd::prelude::*;

verus! {

/// The bit that holds the sign of a binary64 value.
pub const SIGN_BIT: u64 = 0x8000_0000_0000_0000;

/// The bit pattern of positive infinity; every larger magnitude is a NaN.
pub const INFINITY_BITS: u64 = 0x7FF0_0000_0000_0000;

/// A binary64 floating-point value, identified by its bit pattern.
///
/// The derived `==` compares bit patterns; the equality of the language is
/// [`Number::equals`].
#[derive(Clone, Copy, PartialEq, Eq, Structural, Debug)]
pub struct Number {
    pub bits: u64,
}

/// The four arithmetic operations whose results need rounding.
#[derive(Clone, Copy, PartialEq, Eq, Structural, Debug)]
pub enum ArithOp {
    Add,
    Subtract,
    Multiply,
    Divide,
}

/// The floating-point operations that round.
///
/// The interpreter is verified for every implementation: its contracts speak
/// of what an implementation's own contract allows it to return.
pub trait Numerics {
    /// The value of a numeric literal (`digits` or `digits.digits`).
    fn parse(&self, literal: &str) -> Number;

    /// The rounded result of `left op right`.
    fn arithmetic(&self, op: ArithOp, left: Number, right: Number) -> Number;

    /// The decimal text of a number.
    fn render(&self, number: Number) -> String;
}

/// `value` is a result that `numerics` may give for the literal `literal`.
pub open spec fn parses_as<N: Numerics>(numerics: &N, literal: Seq<char>, value: Number) -> bool {
    exists|s: &str| s@ == literal && #[trigger] call_ensures(N::parse, (numerics, s), value)
}

/// `value` is a result that `numerics` may give for `left op right`.
pub open spec fn computes<N: Numerics>(
    numerics: &N,
    op: ArithOp,
    left: Number,
    right: Number,
    value: Number,
) -> bool {
    call_ensures(N::arithmetic, (numerics, op, left, right), value)
}

/// `text` is a decimal text that `numerics` may give for `number`.
pub open spec fn renders_as<N: Numerics>(numerics: &N, number: Number, text: Seq<char>) -> bool {
    exists|s: String| s@ == text && #[trigger] call_ensures(N::render, (numerics, number), s)
}

impl Number {
    /// The bits without the sign: exponent and fraction.
    pub open spec fn magnitude(self) -> int {
        (self.bits % SIGN_BIT) as int
    }

    pub open spec fn is_negative(self) -> bool {
        self.bits >= SIGN_BIT
    }

    /// A NaN has all exponent bits set and a fraction that is not zero.
    pub open spec fn nan(self) -> bool {
        self.magnitude() > INFINITY_BITS
    }

    /// An integer that orders the values that are not NaN as IEEE 754 does:
    /// the magnitude, negated for negative values. Both zeros have key 0.
    pub open spec fn order_key(self) -> int {
        if self.is_negative() {
            -self.magnitude()
        } else {
            self.magnitude()
        }
    }

    /// IEEE 754 equality: no NaN equals anything, the two zeros are equal.
    pub open spec fn same_value(self, other: Number) -> bool {
        !self.nan() && !other.nan() && self.order_key() == other.order_key()
    }

    /// IEEE 754 `<`: false as soon as one side is a NaN.
    pub open spec fn precedes(self, other: Number) -> bool {
        !self.nan() && !other.nan() && self.order_key() < other.order_key()
    }

    /// The value with the other sign.
    pub open spec fn negated(self) -> Number {
        Number {
            bits: if self.bits >= SIGN_BIT {
                (self.bits - SIGN_BIT) as u64
            } else {
                (self.bits + SIGN_BIT) as u64
            },
        }
    }

    pub fn from_bits(bits: u64) -> (r: Number)
        ensures
            r.bits == bits,
    {
        Number { bits }
    }

    pub fn to_bits(&self) -> (r: u64)
        ensures
            r == self.bits,
    {
        self.bits
    }

    fn magnitude_bits(&self) -> (r: u64)
        ensures
            r == self.magnitude(),
            r < SIGN_BIT,
    {
        self.bits % SIGN_BIT
    }

    fn sign(&self) -> (r: bool)
        ensures
            r == self.is_negative(),
    {
        self.bits >= SIGN_BIT
    }

    pub fn is_nan(&self) -> (r: bool)
        ensures
            r == self.nan(),
    {
        self.magnitude_bits() > INFINITY_BITS
    }

    /// Unary minus: flips the sign bit, of a NaN too.
    pub fn negate(&self) -> (r: Number)
        ensures
            r == self.negated(),
            r.magnitude() == self.magnitude(),
            r.is_negative() == !self.is_negative(),
    {
        if self.bits >= SIGN_BIT {
            Number { bits: self.bits - SIGN_BIT }
        } else {
            Number { bits: self.bits + SIGN_BIT }
        }
    }

    /// The `==` of the language on two numbers.
    pub fn equals(&self, other: &Number) -> (r: bool)
        ensures
            r == self.same_value(*other),
    {
        if self.is_nan() || other.is_nan() {
            return false;
        }
        let a: u64 = self.magnitude_bits();
        let b: u64 = other.magnitude_bits();
        if self.sign() == other.sign() {
            a == b
        } else {
            a == 0 && b == 0
        }
    }

    /// The `<` of the language on two numbers.
    pub fn less(&self, other: &Number) -> (r: bool)
        ensures
            r == self.precedes(*other),
    {
        if self.is_nan() || other.is_nan() {
            return false;
        }
        let a: u64 = self.magnitude_bits();
        let b: u64 = other.magnitude_bits();
        if self.sign() {
            if other.sign() {
                a > b
            } else {
                a != 0 || b != 0
            }
        } else {
            if other.sign() {
                false
            } else {
                a < b
            }
        }
    }

    /// The `<=` of the language: less or equal, false on a NaN.
    pub fn less_equal(&self, other: &Number) -> (r: bool)
        ensures
            r == (self.precedes(*other) || self.same_value(*other)),
    {
        self.less(other) || self.equals(other)
    }

    /// The `>` of the language.
    pub fn greater(&self, other: &Number) -> (r: bool)
        ensures
            r == other.precedes(*self),
    {
        other.less(self)
    }

    /// The `>=` of the language: greater or equal, false on a NaN.
    pub fn greater_equal(&self, other: &Number) -> (r: bool)
        ensures
            r == (other.precedes(*self) || self.same_value(*other)),
    {
        other.less(self) || self.equals(other)
    }
}

/// Of two numbers that are not NaN exactly one of `<`, `==`, `>` holds, and
/// a NaN is neither less than, equal to nor greater than anything.
pub proof fn lemma_number_trichotomy(a: Number, b: Number)
    ensures
        !a.nan() && !b.nan() ==> (a.precedes(b) || a.same_value(b) || b.precedes(a)),
        !(a.precedes(b) && a.same_value(b)),
        !(a.precedes(b) && b.precedes(a)),
        a.nan() || b.nan() ==> !a.precedes(b) && !a.same_value(b) && !b.precedes(a),
        a.same_value(b) == b.same_value(a),
{
}

/// Negating twice gives the number back, and negation reverses the order.
pub proof fn lemma_negate_involution(a: Number, b: Number)
    ensures
        a.negated().negated() == a,
        a.negated().nan() == a.nan(),
        a.precedes(b) == b.negated().precedes(a.negated()),
{
}

} // verus!
