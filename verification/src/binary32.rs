//! IEEE 754 binary32 numbers, held as their 32-bit patterns.
//!
//! The library never computes with hardware floating point. A number is kept
//! as the pattern that the hardware would hold, and what the pattern means is
//! stated over the integers: the magnitude of a pattern is its absolute value
//! multiplied by two to the power 149, which is a whole number for every
//! finite pattern.

use vstd::arithmetic::power2::{
    lemma2_to64, lemma_pow2_adds, lemma_pow2_pos, lemma_pow2_strictly_increases, lemma_pow2_unfold,
    pow2,
};
use vstd::prelude::*;

verus! {

/// The pattern's top bit: set for negative numbers and for minus zero.
pub const SIGN_BIT: u32 = 0x8000_0000;

/// The pattern of positive infinity. Larger magnitudes are not numbers.
pub const INFINITY_BITS: u32 = 0x7f80_0000;

/// The pattern of plus zero.
pub const ZERO_BITS: u32 = 0;

/// The pattern of one hundred.
pub const HUNDRED_BITS: u32 = 0x42c8_0000;

/// A binary32 number: one sign bit, eight exponent bits, twenty-three
/// fraction bits.
#[derive(Clone, Copy, Debug, PartialEq, Eq, Structural)]
pub struct Binary32 {
    pub bits: u32,
}

impl Binary32 {
    /// Whether the sign bit is set.
    pub open spec fn sign(self) -> bool {
        self.bits >= SIGN_BIT
    }

    /// The biased exponent field, from 0 to 255.
    pub open spec fn exponent(self) -> nat {
        ((self.bits as nat) / 0x80_0000) % 0x100
    }

    /// The fraction field, below 2^23.
    pub open spec fn fraction(self) -> nat {
        (self.bits as nat) % 0x80_0000
    }

    /// Not a number: the exponent field is all ones and the fraction is not zero.
    pub open spec fn is_nan(self) -> bool {
        self.exponent() == 255 && self.fraction() != 0
    }

    /// Zero, subnormal or normal: neither an infinity nor a NaN.
    pub open spec fn is_finite(self) -> bool {
        self.exponent() < 255
    }

    /// The absolute value times 2^149. An infinity stands at 2^277, just above
    /// every finite magnitude, so that the order of magnitudes is the order of
    /// the extended reals.
    pub open spec fn magnitude(self) -> nat {
        if self.exponent() == 0 {
            self.fraction()
        } else {
            (0x80_0000 + self.fraction()) * pow2((self.exponent() - 1) as nat)
        }
    }

    /// The value times 2^149, for a pattern that is not a NaN.
    pub open spec fn scaled(self) -> int {
        if self.sign() {
            -(self.magnitude() as int)
        } else {
            self.magnitude() as int
        }
    }

    /// Plus zero.
    pub open spec fn zero() -> Binary32 {
        Binary32 { bits: ZERO_BITS }
    }

    /// One hundred.
    pub open spec fn hundred() -> Binary32 {
        Binary32 { bits: HUNDRED_BITS }
    }

    /// One hundred times 2^149: the magnitude of `hundred()`.
    pub open spec fn hundred_scaled() -> nat {
        100 * pow2(149)
    }

    /// Whether the number lies between zero and one hundred, both included,
    /// and is not minus zero.
    pub open spec fn is_percentage(self) -> bool {
        &&& !self.sign()
        &&& self.is_finite()
        &&& 0 <= self.scaled() <= Binary32::hundred_scaled()
    }

    /// The number with the given pattern.
    pub fn from_bits(bits: u32) -> (r: Binary32)
        ensures
            r.bits == bits,
    {
        Binary32 { bits }
    }

    /// The number's pattern.
    pub fn to_bits(self) -> (bits: u32)
        ensures
            bits == self.bits,
    {
        self.bits
    }
}

/// The number nearest to `x` between zero and one hundred. A NaN counts as
/// too large, and minus zero comes out as plus zero.
pub open spec fn clamped(x: Binary32) -> Binary32 {
    if x.is_nan() || x.scaled() >= Binary32::hundred_scaled() {
        Binary32::hundred()
    } else if x.scaled() <= 0 {
        Binary32::zero()
    } else {
        x
    }
}

/// Among patterns without the sign bit, the larger pattern has the larger
/// magnitude.
pub proof fn lemma_magnitude_strictly_increases(a: Binary32, b: Binary32)
    requires
        !b.sign(),
        a.bits < b.bits,
    ensures
        a.magnitude() < b.magnitude(),
{
    let ea = a.exponent();
    let eb = b.exponent();
    let fa = a.fraction();
    let fb = b.fraction();
    assert(a.bits == ea * 0x80_0000 + fa);
    assert(b.bits == eb * 0x80_0000 + fb);
    if ea == eb {
        if ea > 0 {
            let w = pow2((ea - 1) as nat);
            lemma_pow2_pos((ea - 1) as nat);
            assert((0x80_0000 + fa) * w < (0x80_0000 + fb) * w) by (nonlinear_arith)
                requires
                    fa < fb,
                    w > 0,
            ;
        }
    } else {
        assert(ea < eb);
        let wb = pow2((eb - 1) as nat);
        lemma_pow2_pos((eb - 1) as nat);
        assert(0x80_0000 * wb <= (0x80_0000 + fb) * wb) by (nonlinear_arith)
            requires
                fb >= 0,
                wb > 0,
        ;
        if ea == 0 {
            assert(0x80_0000 * 1 <= 0x80_0000 * wb) by (nonlinear_arith)
                requires
                    wb >= 1,
            ;
        } else {
            let wa = pow2((ea - 1) as nat);
            lemma_pow2_pos((ea - 1) as nat);
            assert(pow2(ea) == 2 * wa) by {
                lemma_pow2_unfold(ea);
            }
            if ea < eb - 1 {
                lemma_pow2_strictly_increases(ea, (eb - 1) as nat);
            }
            assert(2 * wa <= wb);
            assert((0x80_0000 + fa) * wa < 0x80_0000 * wb) by (nonlinear_arith)
                requires
                    fa < 0x80_0000,
                    2 * wa <= wb,
                    wa > 0,
            ;
        }
    }
}

/// Only the two zeros have magnitude zero.
pub proof fn lemma_magnitude_positive(a: Binary32)
    requires
        a.exponent() != 0 || a.fraction() != 0,
    ensures
        a.magnitude() > 0,
{
    if a.exponent() != 0 {
        let w = pow2((a.exponent() - 1) as nat);
        let f = a.fraction();
        lemma_pow2_pos((a.exponent() - 1) as nat);
        assert((0x80_0000 + f) * w > 0) by (nonlinear_arith)
            requires
                f >= 0,
                w > 0,
        ;
    }
}

/// The magnitude of one hundred is one hundred times 2^149.
pub proof fn lemma_hundred_magnitude()
    ensures
        Binary32::hundred().magnitude() == Binary32::hundred_scaled(),
        Binary32::hundred().scaled() == Binary32::hundred_scaled(),
        Binary32::hundred().is_finite(),
        !Binary32::hundred().sign(),
{
    let h = Binary32::hundred();
    assert(h.exponent() == 133);
    assert(h.fraction() == 0x48_0000);
    lemma_pow2_adds(17, 132);
    lemma2_to64();
    assert(pow2(17) == 0x2_0000);
    assert(h.magnitude() == 0xc8_0000 * pow2(132));
    assert(0xc8_0000 * pow2(132) == 100 * (0x2_0000 * pow2(132))) by (nonlinear_arith);
}

/// What `clamped` gives, told by the pattern alone: one hundred for a NaN
/// and for a pattern from that of one hundred upwards, zero for any other
/// pattern with the sign bit, and else the number itself.
pub proof fn lemma_clamped_by_pattern(x: Binary32)
    ensures
        clamped(x) == (if x.bits % SIGN_BIT > INFINITY_BITS {
            Binary32::hundred()
        } else if x.bits >= SIGN_BIT {
            Binary32::zero()
        } else if x.bits >= HUNDRED_BITS {
            Binary32::hundred()
        } else {
            x
        }),
{
    lemma_hundred_magnitude();
    lemma_pow2_pos(149);
    if x.exponent() != 0 || x.fraction() != 0 {
        lemma_magnitude_positive(x);
    }
    let low = x.bits % SIGN_BIT;
    assert(x.exponent() == low / 0x80_0000);
    assert(x.fraction() == low % 0x80_0000);
    if low <= INFINITY_BITS && x.bits < SIGN_BIT {
        if x.bits > HUNDRED_BITS {
            lemma_magnitude_strictly_increases(Binary32::hundred(), x);
        } else if x.bits < HUNDRED_BITS {
            lemma_magnitude_strictly_increases(x, Binary32::hundred());
        }
    }
}

/// Whatever the reading, the clamped reading is a percentage: the reading
/// itself where that is one, and for any number the nearest bound of the
/// range.
pub proof fn lemma_clamped_is_percentage(x: Binary32)
    ensures
        clamped(x).is_percentage(),
        x.is_percentage() ==> clamped(x) == x,
        !x.is_nan() && x.scaled() < 0 ==> clamped(x).scaled() == 0,
        !x.is_nan() && x.scaled() > Binary32::hundred_scaled() ==> clamped(x).scaled()
            == Binary32::hundred_scaled(),
        !x.is_nan() && 0 <= x.scaled() <= Binary32::hundred_scaled() ==> clamped(x).scaled()
            == x.scaled(),
{
    lemma_hundred_magnitude();
    lemma_clamped_by_pattern(x);
    lemma_pow2_pos(149);
    if x.bits < HUNDRED_BITS {
        lemma_magnitude_strictly_increases(x, Binary32::hundred());
    }
    if x.is_percentage() && x.bits > HUNDRED_BITS {
        lemma_magnitude_strictly_increases(Binary32::hundred(), x);
    }
}

/// Brings a percentage into the range from zero to one hundred.
///
/// A reading below zero becomes zero, one above one hundred becomes one
/// hundred, and so does a reading that is not a number.
pub fn clamp_percent(x: Binary32) -> (r: Binary32)
    ensures
        r == clamped(x),
        r.is_percentage(),
{
    proof {
        lemma_clamped_by_pattern(x);
        lemma_clamped_is_percentage(x);
    }
    let bits: u32 = x.bits;
    let low: u32 = if bits >= SIGN_BIT {
        bits - SIGN_BIT
    } else {
        bits
    };
    if low > INFINITY_BITS {
        Binary32 { bits: HUNDRED_BITS }
    } else if bits >= SIGN_BIT {
        Binary32 { bits: ZERO_BITS }
    } else if bits >= HUNDRED_BITS {
        Binary32 { bits: HUNDRED_BITS }
    } else {
        x
    }
}

} // verus!
