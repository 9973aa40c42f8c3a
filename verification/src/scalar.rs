use vstd::prelude::*;

verus! {

/// The bit that carries the sign of a binary64 number.
pub const SIGN_BIT: u64 = 0x8000_0000_0000_0000;

/// The bit pattern of positive infinity. A larger magnitude is a NaN.
pub const INFINITY_BITS: u64 = 0x7FF0_0000_0000_0000;

/// The bit pattern of one half.
pub const HALF_BITS: u64 = 0x3FE0_0000_0000_0000;

/// The bit pattern of one.
pub const ONE_BITS: u64 = 0x3FF0_0000_0000_0000;

/// The bit pattern of minus one.
pub const MINUS_ONE_BITS: u64 = 0xBFF0_0000_0000_0000;

/// A binary64 number, held by its bit pattern.
///
/// Two scalars are `==` when their bit patterns are the same, so `-0` and `+0`
/// differ and a NaN equals itself. The numeric comparisons are `lt`, `le`, `gt`
/// and `ge`; the total order is `total_le`.
#[derive(Clone, Copy, Debug, PartialEq, Eq, Structural)]
pub struct Scalar {
    pub bits: u64,
}

impl Scalar {
    /// Whether the sign bit is set.
    pub open spec fn is_negative(self) -> bool {
        self.bits >= SIGN_BIT
    }

    /// The bit pattern without its sign bit.
    pub open spec fn magnitude(self) -> int {
        if self.bits >= SIGN_BIT {
            self.bits - SIGN_BIT
        } else {
            self.bits as int
        }
    }

    /// Whether the pattern encodes no number.
    pub open spec fn spec_is_nan(self) -> bool {
        self.magnitude() > INFINITY_BITS
    }

    /// Whether the pattern encodes a number other than an infinity.
    pub open spec fn spec_is_finite(self) -> bool {
        self.magnitude() < INFINITY_BITS
    }

    /// Where a number stands on the number line: numbers compare as their places
    /// do, and the two zeros share place 0. Of a NaN the place means nothing.
    pub open spec fn place(self) -> int {
        if self.is_negative() {
            -self.magnitude()
        } else {
            self.magnitude()
        }
    }

    /// Where a pattern stands in the total order of binary64: negative NaNs,
    /// negative numbers, `-0`, `+0`, positive numbers, positive NaNs.
    pub open spec fn total_place(self) -> int {
        if self.is_negative() {
            -1 - self.magnitude()
        } else {
            self.magnitude()
        }
    }

    /// Numeric `<`: false as soon as either side is a NaN.
    pub open spec fn spec_lt(self, other: Scalar) -> bool {
        !self.spec_is_nan() && !other.spec_is_nan() && self.place() < other.place()
    }

    /// Numeric `<=`: false as soon as either side is a NaN.
    pub open spec fn spec_le(self, other: Scalar) -> bool {
        !self.spec_is_nan() && !other.spec_is_nan() && self.place() <= other.place()
    }

    /// Numeric `>`.
    pub open spec fn spec_gt(self, other: Scalar) -> bool {
        other.spec_lt(self)
    }

    /// Numeric `>=`.
    pub open spec fn spec_ge(self, other: Scalar) -> bool {
        other.spec_le(self)
    }

    /// `<=` in the total order.
    pub open spec fn spec_total_le(self, other: Scalar) -> bool {
        self.total_place() <= other.total_place()
    }

    /// The scalar with the given bit pattern.
    pub fn from_bits(bits: u64) -> (s: Scalar)
        ensures
            s.bits == bits,
    {
        Scalar { bits }
    }

    /// The bit pattern.
    pub fn to_bits(self) -> (bits: u64)
        ensures
            bits == self.bits,
    {
        self.bits
    }

    /// Positive zero.
    pub fn zero() -> (s: Scalar)
        ensures
            s.bits == 0,
    {
        Scalar { bits: 0 }
    }

    /// The bit pattern without its sign bit.
    fn magnitude_bits(self) -> (m: u64)
        ensures
            m == self.magnitude(),
    {
        if self.bits >= SIGN_BIT {
            self.bits - SIGN_BIT
        } else {
            self.bits
        }
    }

    /// The place on the number line.
    fn place_of(self) -> (p: i64)
        ensures
            p == self.place(),
    {
        let m: u64 = self.magnitude_bits();
        if self.bits >= SIGN_BIT {
            -(m as i64)
        } else {
            m as i64
        }
    }

    /// The place in the total order.
    fn total_place_of(self) -> (p: i64)
        ensures
            p == self.total_place(),
    {
        let m: u64 = self.magnitude_bits();
        if self.bits >= SIGN_BIT {
            -1 - (m as i64)
        } else {
            m as i64
        }
    }

    /// Whether the pattern encodes no number.
    #[verifier::when_used_as_spec(spec_is_nan)]
    pub fn is_nan(self) -> (r: bool)
        ensures
            r == self.spec_is_nan(),
    {
        self.magnitude_bits() > INFINITY_BITS
    }

    /// Whether the pattern encodes a number other than an infinity.
    #[verifier::when_used_as_spec(spec_is_finite)]
    pub fn is_finite(self) -> (r: bool)
        ensures
            r == self.spec_is_finite(),
    {
        self.magnitude_bits() < INFINITY_BITS
    }

    /// Numeric `<`.
    #[verifier::when_used_as_spec(spec_lt)]
    pub fn lt(self, other: Scalar) -> (r: bool)
        ensures
            r == self.spec_lt(other),
    {
        !self.is_nan() && !other.is_nan() && self.place_of() < other.place_of()
    }

    /// Numeric `<=`.
    #[verifier::when_used_as_spec(spec_le)]
    pub fn le(self, other: Scalar) -> (r: bool)
        ensures
            r == self.spec_le(other),
    {
        !self.is_nan() && !other.is_nan() && self.place_of() <= other.place_of()
    }

    /// Numeric `>`.
    #[verifier::when_used_as_spec(spec_gt)]
    pub fn gt(self, other: Scalar) -> (r: bool)
        ensures
            r == self.spec_gt(other),
    {
        other.lt(self)
    }

    /// Numeric `>=`.
    #[verifier::when_used_as_spec(spec_ge)]
    pub fn ge(self, other: Scalar) -> (r: bool)
        ensures
            r == self.spec_ge(other),
    {
        other.le(self)
    }

    /// `<=` in the total order.
    #[verifier::when_used_as_spec(spec_total_le)]
    pub fn total_le(self, other: Scalar) -> (r: bool)
        ensures
            r == self.spec_total_le(other),
    {
        self.total_place_of() <= other.total_place_of()
    }
}

/// Among numbers, `<=` is "not `>`": the two part ways only on a NaN.
pub proof fn lemma_le_is_not_gt(a: Scalar, b: Scalar)
    requires
        !a.is_nan(),
        !b.is_nan(),
    ensures
        a.le(b) <==> !a.gt(b),
{
}

/// On numbers the total order refines the numeric one: it agrees with `<` and
/// only adds that `-0` comes before `+0`.
pub proof fn lemma_total_order_refines_lt(a: Scalar, b: Scalar)
    requires
        a.lt(b),
    ensures
        a.total_le(b),
        !b.total_le(a),
{
}

/// The total order is one: of two patterns one comes first, and only a pattern
/// itself stands at its place.
pub proof fn lemma_total_order_is_total(a: Scalar, b: Scalar)
    ensures
        a.total_le(b) || b.total_le(a),
        a.total_le(b) && b.total_le(a) ==> a == b,
{
}

} // verus!
