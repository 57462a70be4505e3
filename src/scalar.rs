use vstd::prelude::*;

verus! {

/// The sign bit of an IEEE 754 double.
pub const SIGN_BIT: u64 = 0x8000_0000_0000_0000;

/// The bits of positive infinity: every larger pattern below the sign bit is a NaN.
pub const INFINITY_BITS: u64 = 0x7FF0_0000_0000_0000;

/// The bits of 1.0.
pub const ONE_BITS: u64 = 0x3FF0_0000_0000_0000;

/// True when the double with these bits is a NaN.
pub open spec fn is_nan_bits(bits: u64) -> bool {
    bits % SIGN_BIT > INFINITY_BITS
}

/// The bits below the sign bit, negated when the sign bit is set.
///
/// IEEE 754 orders the doubles that are not NaN exactly as this value orders their bits
/// (both zeros compare equal and get 0), so comparing these values compares the doubles.
pub open spec fn signed_magnitude(bits: u64) -> int {
    if bits >= SIGN_BIT {
        -((bits - SIGN_BIT) as int)
    } else {
        bits as int
    }
}

/// A double-precision value other than NaN, held as its rank in the order of doubles.
///
/// `rank` is the signed magnitude of the value's bit pattern: the library only ever
/// compares and selects coordinates and ray parameters, and on ranks those operations
/// agree with the ones on doubles.
#[derive(Clone, Copy, Debug, PartialEq, Eq, Structural)]
pub struct Scalar {
    pub rank: i64,
}

impl Scalar {
    /// The rank lies between those of the two infinities.
    pub open spec fn wf(self) -> bool {
        -(INFINITY_BITS as int) <= self.rank <= INFINITY_BITS as int
    }

    /// The value with the given bits, or `None` for a NaN.
    pub fn from_bits(bits: u64) -> (r: Option<Scalar>)
        ensures
            r is None <==> is_nan_bits(bits),
            r matches Some(s) ==> s.rank == signed_magnitude(bits) && s.wf(),
    {
        let magnitude: u64 = bits % SIGN_BIT;
        if magnitude > INFINITY_BITS {
            None
        } else if bits >= SIGN_BIT {
            Some(Scalar { rank: -(magnitude as i64) })
        } else {
            Some(Scalar { rank: magnitude as i64 })
        }
    }

    /// The bits of the value; zero comes out as positive zero.
    pub fn to_bits(self) -> (r: u64)
        requires
            self.wf(),
        ensures
            !is_nan_bits(r),
            signed_magnitude(r) == self.rank,
            self.rank == 0 ==> r == 0,
    {
        if self.rank >= 0 {
            self.rank as u64
        } else {
            SIGN_BIT + ((-self.rank) as u64)
        }
    }

    /// Positive zero (either zero: they have the same rank).
    pub fn zero() -> (r: Scalar)
        ensures
            r.rank == 0,
            r.wf(),
    {
        Scalar { rank: 0 }
    }

    /// 1.0.
    pub fn one() -> (r: Scalar)
        ensures
            r.rank == ONE_BITS,
            r.wf(),
    {
        Scalar { rank: ONE_BITS as i64 }
    }

    /// Positive infinity, the largest rank.
    pub fn infinity() -> (r: Scalar)
        ensures
            r.rank == INFINITY_BITS,
            r.wf(),
    {
        Scalar { rank: INFINITY_BITS as i64 }
    }

    /// Negative infinity, the smallest rank.
    pub fn neg_infinity() -> (r: Scalar)
        ensures
            r.rank == -(INFINITY_BITS as int),
            r.wf(),
    {
        Scalar { rank: -(INFINITY_BITS as i64) }
    }

    /// The smaller of the two values.
    pub fn min(self, other: Scalar) -> (r: Scalar)
        ensures
            r == min_scalar(self, other),
    {
        if other.rank < self.rank {
            other
        } else {
            self
        }
    }

    /// The larger of the two values.
    pub fn max(self, other: Scalar) -> (r: Scalar)
        ensures
            r == max_scalar(self, other),
    {
        if other.rank > self.rank {
            other
        } else {
            self
        }
    }
}

/// The smaller of two values (the first on a tie).
pub open spec fn min_scalar(a: Scalar, b: Scalar) -> Scalar {
    if b.rank < a.rank {
        b
    } else {
        a
    }
}

/// The larger of two values (the first on a tie).
pub open spec fn max_scalar(a: Scalar, b: Scalar) -> Scalar {
    if b.rank > a.rank {
        b
    } else {
        a
    }
}

/// `value` raised to at least `min`, then lowered to at most `max`.
///
/// When `min > max` the result is `max`, as the two steps in this order give.
pub fn clamp(value: Scalar, min: Scalar, max: Scalar) -> (r: Scalar)
    ensures
        r == min_scalar(max_scalar(value, min), max),
        min.rank <= max.rank ==> min.rank <= r.rank <= max.rank,
        min.rank <= value.rank <= max.rank ==> r == value,
{
    value.max(min).min(max)
}

} // verus!
