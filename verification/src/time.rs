//! Document times as order keys of IEEE-754 binary64 values.
//!
//! A time is held as the signed integer key of its bit pattern: non-negative
//! values keep their bits, negative values map to `-(magnitude bits) - 1`. The
//! key order is the total order of the bit patterns, two keys are equal exactly
//! when the bit patterns are, and the IEEE comparisons (`<`, `<=`, `==`) are
//! recovered from the key by treating NaN keys as unordered and the two zeros
//! as equal.
use vstd::prelude::*;

verus! {

/// Key of positive infinity; finite keys lie strictly between the infinities.
pub const INFINITY_KEY: i64 = 0x7FF0_0000_0000_0000i64;

/// Key of negative infinity.
pub const NEG_INFINITY_KEY: i64 = -0x7FF0_0000_0000_0001i64;

/// Magnitude mask: every bit but the sign bit.
pub const MAGNITUDE_MASK: u64 = 0x7FFF_FFFF_FFFF_FFFFu64;

/// A time in seconds, stored as the order key of its binary64 bit pattern.
#[derive(Clone, Copy, Debug, PartialEq, Eq, Structural, Hash)]
pub struct Time {
    /// Order key of the bit pattern.
    pub key: i64,
}

/// The key of a binary64 bit pattern.
pub open spec fn key_of_bits(bits: u64) -> int {
    if bits < 0x8000_0000_0000_0000u64 {
        bits as int
    } else {
        -((bits - 0x8000_0000_0000_0000u64) as int) - 1
    }
}

/// The binary64 bit pattern of a key.
pub open spec fn bits_of_key(key: int) -> int {
    if key >= 0 {
        key
    } else {
        (-key - 1) + 0x8000_0000_0000_0000int
    }
}

impl Time {
    /// The order key.
    pub open spec fn spec_key(self) -> int {
        self.key as int
    }

    /// NaN patterns lie beyond the infinities.
    pub open spec fn spec_is_nan(self) -> bool {
        self.key > INFINITY_KEY || self.key < NEG_INFINITY_KEY
    }

    /// Finite values lie strictly between the infinities.
    pub open spec fn spec_is_finite(self) -> bool {
        NEG_INFINITY_KEY < self.key && self.key < INFINITY_KEY
    }

    /// `+0.0` has key `0`, `-0.0` key `-1`.
    pub open spec fn spec_is_zero(self) -> bool {
        self.key == 0 || self.key == -1
    }

    /// IEEE `self < other`.
    pub open spec fn spec_lt(self, other: Time) -> bool {
        &&& !self.spec_is_nan()
        &&& !other.spec_is_nan()
        &&& self.key < other.key
        &&& !(self.spec_is_zero() && other.spec_is_zero())
    }

    /// IEEE `self == other`: equal patterns, or the two zeros.
    pub open spec fn spec_ieee_eq(self, other: Time) -> bool {
        &&& !self.spec_is_nan()
        &&& !other.spec_is_nan()
        &&& (self.key == other.key || (self.spec_is_zero() && other.spec_is_zero()))
    }

    /// IEEE `self <= other`.
    pub open spec fn spec_le(self, other: Time) -> bool {
        self.spec_lt(other) || self.spec_ieee_eq(other)
    }

    /// Builds a time from the bit pattern of a binary64 value.
    pub fn from_bits(bits: u64) -> (t: Time)
        ensures
            t.spec_key() == key_of_bits(bits),
            bits_of_key(t.spec_key()) == bits as int,
    {
        if bits < 0x8000_0000_0000_0000u64 {
            Time { key: bits as i64 }
        } else {
            let magnitude = bits - 0x8000_0000_0000_0000u64;
            Time { key: -(magnitude as i64) - 1 }
        }
    }

    /// The bit pattern of the binary64 value this time stands for.
    pub fn to_bits(self) -> (bits: u64)
        ensures
            bits as int == bits_of_key(self.spec_key()),
            key_of_bits(bits) == self.spec_key(),
    {
        if self.key >= 0 {
            self.key as u64
        } else {
            ((-(self.key + 1)) as u64) + 0x8000_0000_0000_0000u64
        }
    }

    /// The order key of this time.
    pub fn key(self) -> (k: i64)
        ensures
            k as int == self.spec_key(),
    {
        self.key
    }

    /// The time with order key `key`.
    pub fn from_key(key: i64) -> (t: Time)
        ensures
            t.spec_key() == key as int,
    {
        Time { key }
    }

    /// IEEE `is_finite`.
    pub fn is_finite(self) -> (b: bool)
        ensures
            b == self.spec_is_finite(),
    {
        NEG_INFINITY_KEY < self.key && self.key < INFINITY_KEY
    }

    /// IEEE `is_nan`.
    pub fn is_nan(self) -> (b: bool)
        ensures
            b == self.spec_is_nan(),
    {
        self.key > INFINITY_KEY || self.key < NEG_INFINITY_KEY
    }

    /// IEEE `self < other`.
    pub fn lt(self, other: Time) -> (b: bool)
        ensures
            b == self.spec_lt(other),
    {
        let zeros = (self.key == 0 || self.key == -1) && (other.key == 0 || other.key == -1);
        !self.is_nan() && !other.is_nan() && self.key < other.key && !zeros
    }

    /// IEEE `self <= other`.
    pub fn le(self, other: Time) -> (b: bool)
        ensures
            b == self.spec_le(other),
    {
        let zeros = (self.key == 0 || self.key == -1) && (other.key == 0 || other.key == -1);
        !self.is_nan() && !other.is_nan() && (self.key <= other.key || zeros)
    }

    /// IEEE `self == other`.
    pub fn ieee_eq(self, other: Time) -> (b: bool)
        ensures
            b == self.spec_ieee_eq(other),
    {
        let zeros = (self.key == 0 || self.key == -1) && (other.key == 0 || other.key == -1);
        !self.is_nan() && !other.is_nan() && (self.key == other.key || zeros)
    }

    /// Bit-pattern identity: the two times are the same binary64 value.
    pub fn same(self, other: Time) -> (b: bool)
        ensures
            b == (self == other),
    {
        self.key == other.key
    }
}

/// Converting a bit pattern to a time and back is the identity.
pub proof fn lemma_bits_round_trip(bits: u64)
    ensures
        bits_of_key(key_of_bits(bits)) == bits as int,
{
}

/// Converting a time to its bit pattern and back is the identity.
pub proof fn lemma_key_round_trip(t: Time)
    ensures
        0 <= bits_of_key(t.spec_key()) <= u64::MAX,
        key_of_bits(bits_of_key(t.spec_key()) as u64) == t.spec_key(),
{
}

/// IEEE `<` on times is a strict partial order.
pub proof fn lemma_lt_strict_order(a: Time, b: Time, c: Time)
    ensures
        !a.spec_lt(a),
        a.spec_lt(b) ==> !b.spec_lt(a),
        a.spec_lt(b) && b.spec_lt(c) ==> a.spec_lt(c),
        a.spec_le(b) && b.spec_lt(c) ==> a.spec_lt(c),
        a.spec_lt(b) && b.spec_le(c) ==> a.spec_lt(c),
{
}

} // verus!
