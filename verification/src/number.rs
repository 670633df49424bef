use vstd::prelude::*;

verus! {

/// The bit that holds the sign of a binary64 number.
pub const SIGN: u64 = 0x8000_0000_0000_0000;

/// The encoding of positive infinity; every greater magnitude is not a number.
pub const INFINITY: u64 = 0x7ff0_0000_0000_0000;

/// The encoding of negative infinity.
pub const NEGATIVE_INFINITY: u64 = 0xfff0_0000_0000_0000;

/// An encoding that is not a number.
pub const NOT_A_NUMBER: u64 = 0x7ff8_0000_0000_0000;

/// The encoding of zero.
pub const ZERO_BITS: u64 = 0;

/// A number in the binary64 format of IEEE 754, held by its encoding.
///
/// The sampler orders such numbers and hands them on; it does no arithmetic on them.
#[derive(Clone, Copy, Debug)]
pub struct Number {
    pub bits: u64,
}

impl Number {
    /// The encoding without its sign.
    pub open spec fn magnitude(self) -> int {
        if self.bits >= SIGN {
            self.bits - SIGN
        } else {
            self.bits as int
        }
    }

    /// An integer that orders numbers as their values do. Both zeros have the key 0.
    pub open spec fn key(self) -> int {
        if self.bits >= SIGN {
            -self.magnitude()
        } else {
            self.magnitude()
        }
    }

    /// Whether the encoding is that of a number, an infinity included.
    pub open spec fn ordered(self) -> bool {
        self.magnitude() <= INFINITY
    }

    /// Whether the encoding is that of a number other than an infinity.
    pub open spec fn finite(self) -> bool {
        self.magnitude() < INFINITY
    }

    /// `self < other`, which holds of numbers only.
    pub open spec fn less(self, other: Number) -> bool {
        self.ordered() && other.ordered() && self.key() < other.key()
    }

    /// `self <= other`, which holds of numbers only.
    pub open spec fn at_most(self, other: Number) -> bool {
        self.ordered() && other.ordered() && self.key() <= other.key()
    }

    /// `self == other`, which holds of numbers only.
    pub open spec fn equals(self, other: Number) -> bool {
        self.ordered() && other.ordered() && self.key() == other.key()
    }

    /// The number with the given encoding.
    pub fn from_bits(bits: u64) -> (number: Number)
        ensures
            number.bits == bits,
    {
        Number { bits }
    }

    /// The key by which numbers are ordered.
    pub fn order_key(self) -> (key: i64)
        ensures
            key == self.key(),
    {
        if self.bits >= SIGN {
            -((self.bits - SIGN) as i64)
        } else {
            self.bits as i64
        }
    }

    /// Whether this is a number.
    pub fn is_ordered(self) -> (yes: bool)
        ensures
            yes == self.ordered(),
    {
        if self.bits >= SIGN {
            self.bits - SIGN <= INFINITY
        } else {
            self.bits <= INFINITY
        }
    }

    /// Whether this is a number other than an infinity.
    pub fn is_finite(self) -> (yes: bool)
        ensures
            yes == self.finite(),
    {
        if self.bits >= SIGN {
            self.bits - SIGN < INFINITY
        } else {
            self.bits < INFINITY
        }
    }

    /// `self < other`.
    pub fn is_less(self, other: Number) -> (yes: bool)
        ensures
            yes == self.less(other),
    {
        self.is_ordered() && other.is_ordered() && self.order_key() < other.order_key()
    }

    /// `self <= other`.
    pub fn is_at_most(self, other: Number) -> (yes: bool)
        ensures
            yes == self.at_most(other),
    {
        self.is_ordered() && other.is_ordered() && self.order_key() <= other.order_key()
    }

    /// `self == other`.
    pub fn is_equal(self, other: Number) -> (yes: bool)
        ensures
            yes == self.equals(other),
    {
        self.is_ordered() && other.is_ordered() && self.order_key() == other.order_key()
    }
}

/// Numbers are ordered as binary64 encodings say: without a sign by their bits, with a sign the
/// other way round, and a negative number below every number without a sign but its own zero.
/// What lies beyond an infinity is not a number, and is not compared.
pub proof fn law_encodings_give_the_order(a: u64, b: u64)
    ensures
        ({
            let x = Number { bits: a };
            let y = Number { bits: b };
            let a_positive = a <= 0x7ff0_0000_0000_0000;
            let b_positive = b <= 0x7ff0_0000_0000_0000;
            let a_negative = 0x8000_0000_0000_0000 <= a <= 0xfff0_0000_0000_0000;
            let b_negative = 0x8000_0000_0000_0000 <= b <= 0xfff0_0000_0000_0000;
            let a_number = a_positive || a_negative;
            let b_number = b_positive || b_negative;
            &&& x.ordered() <==> a_number
            &&& x.finite() <==> a_number && a != 0x7ff0_0000_0000_0000 && a
                != 0xfff0_0000_0000_0000
            &&& a_positive && b_positive ==> (x.less(y) <==> a < b)
            &&& a_negative && b_negative ==> (x.less(y) <==> b < a)
            &&& a_negative && b_positive ==> (x.less(y) <==> !(a == 0x8000_0000_0000_0000 && b
                == 0))
            &&& a_positive && b_negative ==> !x.less(y)
            &&& !(a_number && b_number) ==> !x.less(y) && !x.at_most(y) && !x.equals(y)
            &&& a_number && b_number ==> {
                &&& x.at_most(y) <==> !y.less(x)
                &&& x.equals(y) <==> !x.less(y) && !y.less(x)
            }
        }),
{
}

} // verus!
