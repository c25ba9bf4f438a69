//! IEEE 754 binary64 numbers, read from their bit patterns.
//!
//! A pattern holds, from the top bit down, one sign bit, eleven bits of biased
//! exponent and fifty-two bits of fraction. A finite pattern denotes the
//! rational number `numerator / denominator` defined below.

use vstd::prelude::*;
use vstd::arithmetic::div_mod::{
    lemma_basic_div, lemma_div_multiples_vanish_quotient, lemma_div_nonincreasing,
};
use vstd::arithmetic::power2::{
    lemma2_to64, lemma2_to64_rest, lemma_pow2_pos, lemma_pow2_strictly_increases,
    lemma_pow2_unfold, pow2,
};
use vstd::bits::{lemma_u64_shl_is_mul, lemma_u64_shr_is_div};
use crate::rounding::{
    lemma_round_half_away_is_odd, lemma_round_half_away_is_unique,
    lemma_round_half_away_of_whole, round_half_away,
};

verus! {

/// Two to the power 52: the weight of the hidden bit of a normal number.
pub const HIDDEN_BIT: u64 = 0x10_0000_0000_0000;

/// The biased exponent that marks infinities and NaNs.
pub const EXPONENT_MAX: u64 = 0x7ff;

/// The biased exponent of the numbers whose last fraction bit weighs one.
pub const EXPONENT_OF_UNITS: u64 = 1075;

/// A binary64 number, given by its bit pattern.
#[derive(Clone, Copy, Debug, PartialEq, Eq, Structural)]
pub struct Binary64 {
    pub bits: u64,
}

impl Binary64 {
    /// The sign bit is set. This holds of negative zero too.
    pub open spec fn sign_negative(self) -> bool {
        self.bits >= 0x8000_0000_0000_0000
    }

    /// The eleven exponent bits, as a number.
    pub open spec fn biased_exponent(self) -> int {
        (self.bits as int / HIDDEN_BIT as int) % 0x800
    }

    /// The fifty-two fraction bits, as a number.
    pub open spec fn fraction(self) -> int {
        self.bits as int % HIDDEN_BIT as int
    }

    /// Neither an infinity nor a NaN.
    pub open spec fn finite(self) -> bool {
        self.biased_exponent() < EXPONENT_MAX
    }

    /// Positive or negative infinity.
    pub open spec fn infinite(self) -> bool {
        self.biased_exponent() == EXPONENT_MAX && self.fraction() == 0
    }

    /// Not a number.
    pub open spec fn nan(self) -> bool {
        self.biased_exponent() == EXPONENT_MAX && self.fraction() != 0
    }

    /// Positive or negative zero.
    pub open spec fn zero(self) -> bool {
        self.biased_exponent() == 0 && self.fraction() == 0
    }

    /// The significand of a finite number in units of its last place: the
    /// fraction, with the hidden bit in front where the number is normal.
    pub open spec fn significand(self) -> int {
        if self.biased_exponent() == 0 {
            self.fraction()
        } else {
            HIDDEN_BIT + self.fraction()
        }
    }

    /// The power of two that the last place of a finite number weighs.
    pub open spec fn scale(self) -> int {
        if self.biased_exponent() == 0 {
            1 - EXPONENT_OF_UNITS
        } else {
            self.biased_exponent() - EXPONENT_OF_UNITS
        }
    }

    /// The magnitude of a finite number is `magnitude_numerator / denominator`.
    pub open spec fn magnitude_numerator(self) -> int {
        if self.scale() >= 0 {
            self.significand() * pow2(self.scale() as nat)
        } else {
            self.significand()
        }
    }

    /// A finite number is `numerator / denominator`.
    pub open spec fn numerator(self) -> int {
        if self.sign_negative() {
            -self.magnitude_numerator()
        } else {
            self.magnitude_numerator()
        }
    }

    /// A finite number is `numerator / denominator`; the denominator is a
    /// positive power of two.
    pub open spec fn denominator(self) -> int {
        if self.scale() >= 0 {
            1
        } else {
            pow2((-self.scale()) as nat) as int
        }
    }

    /// The integer nearest to a finite number, a half going away from zero.
    pub open spec fn rounded(self) -> int {
        round_half_away(self.numerator(), self.denominator())
    }

    /// The number with the given bit pattern.
    pub fn from_bits(bits: u64) -> (number: Binary64)
        ensures
            number.bits == bits,
    {
        Binary64 { bits }
    }

    /// The bit pattern of the number.
    pub fn to_bits(&self) -> (bits: u64)
        ensures
            bits == self.bits,
    {
        self.bits
    }

    /// The exponent bits.
    fn exponent_bits(&self) -> (e: u64)
        ensures
            e == self.biased_exponent(),
            e <= EXPONENT_MAX,
    {
        let bits: u64 = self.bits;
        assert((bits >> 52) & 0x7ff == (bits / 0x10_0000_0000_0000) % 0x800) by (bit_vector);
        (bits >> 52) & 0x7ff
    }

    /// The fraction bits.
    fn fraction_bits(&self) -> (f: u64)
        ensures
            f == self.fraction(),
            f < HIDDEN_BIT,
    {
        let bits: u64 = self.bits;
        assert(bits & 0xf_ffff_ffff_ffff == bits % 0x10_0000_0000_0000) by (bit_vector);
        bits & 0xf_ffff_ffff_ffff
    }

    /// Whether the sign bit is set.
    pub fn is_sign_negative(&self) -> (negative: bool)
        ensures
            negative == self.sign_negative(),
    {
        self.bits >= 0x8000_0000_0000_0000
    }

    /// Whether the number is neither an infinity nor a NaN.
    pub fn is_finite(&self) -> (finite: bool)
        ensures
            finite == self.finite(),
    {
        self.exponent_bits() < EXPONENT_MAX
    }

    /// Whether the number is an infinity.
    pub fn is_infinite(&self) -> (infinite: bool)
        ensures
            infinite == self.infinite(),
    {
        self.exponent_bits() == EXPONENT_MAX && self.fraction_bits() == 0
    }

    /// Whether the pattern is a NaN.
    pub fn is_nan(&self) -> (nan: bool)
        ensures
            nan == self.nan(),
    {
        self.exponent_bits() == EXPONENT_MAX && self.fraction_bits() != 0
    }

    /// Whether the number is positive or negative zero.
    pub fn is_zero(&self) -> (zero: bool)
        ensures
            zero == self.zero(),
    {
        self.exponent_bits() == 0 && self.fraction_bits() == 0
    }

    /// The integer nearest to the number, a half going away from zero, where
    /// the number is finite and that integer fits.
    pub fn nearest_integer(&self) -> (nearest: Option<i64>)
        ensures
            nearest == if self.finite() && i64::MIN <= self.rounded() <= i64::MAX {
                Some(self.rounded() as i64)
            } else {
                None::<i64>
            },
    {
        let e: u64 = self.exponent_bits();
        let f: u64 = self.fraction_bits();
        let negative: bool = self.is_sign_negative();
        if e == EXPONENT_MAX {
            return None;
        }
        if e < EXPONENT_OF_UNITS - 53 {
            proof {
                self.lemma_below_half_rounds_to_zero();
            }
            return Some(0);
        }
        let significand: u64 = HIDDEN_BIT + f;
        if e > EXPONENT_OF_UNITS + 10 {
            proof {
                self.lemma_beyond_range();
            }
            if negative && e == EXPONENT_OF_UNITS + 11 && f == 0 {
                return Some(i64::MIN);
            }
            return None;
        }
        let magnitude: u64 = if e > EXPONENT_OF_UNITS {
            let up: u64 = e - EXPONENT_OF_UNITS;
            proof {
                self.lemma_whole_magnitude();
                lemma_u64_shl_is_mul(significand, up);
            }
            significand << up
        } else if e == EXPONENT_OF_UNITS {
            proof {
                self.lemma_whole_magnitude();
                lemma2_to64();
            }
            significand
        } else {
            let down: u64 = EXPONENT_OF_UNITS - e;
            let below: u64 = down - 1;
            proof {
                lemma2_to64_rest();
                lemma_pow2_strictly_increases(below as nat, 53);
                lemma_u64_shl_is_mul(1, below);
            }
            let half: u64 = 1u64 << below;
            let lifted: u64 = significand + half;
            proof {
                self.lemma_fractional_magnitude();
                lemma_u64_shr_is_div(lifted, down);
                lemma_pow2_pos(down as nat);
                lemma_div_nonincreasing(lifted as int, pow2(down as nat) as int);
            }
            lifted >> down
        };
        assert(magnitude == round_half_away(self.magnitude_numerator(), self.denominator()));
        proof {
            self.lemma_denominator_positive();
            lemma_round_half_away_is_odd(self.magnitude_numerator(), self.denominator());
        }
        if negative {
            Some(-(magnitude as i64))
        } else {
            Some(magnitude as i64)
        }
    }

    /// The denominator is positive.
    pub proof fn lemma_denominator_positive(self)
        ensures
            self.denominator() > 0,
    {
        if self.scale() < 0 {
            lemma_pow2_pos((-self.scale()) as nat);
        }
    }

    /// The magnitude is not negative.
    pub proof fn lemma_magnitude_not_negative(self)
        ensures
            self.magnitude_numerator() >= 0,
    {
        if self.scale() >= 0 {
            let sig: int = self.significand();
            let weight: int = pow2(self.scale() as nat) as int;
            assert(sig * weight >= 0) by (nonlinear_arith)
                requires
                    sig >= 0,
                    weight >= 0,
            ;
        }
    }

    /// A number that lies half way between two integers goes to the one
    /// further from zero: `whole + 1/2` rounds to `whole + 1`, and
    /// `-(whole + 1/2)` to `-(whole + 1)`.
    pub proof fn lemma_half_way_rounds_away(self, whole: int)
        requires
            whole >= 0,
            2 * self.magnitude_numerator() == (2 * whole + 1) * self.denominator(),
        ensures
            !self.sign_negative() ==> self.rounded() == whole + 1,
            self.sign_negative() ==> self.rounded() == -(whole + 1),
    {
        let num: int = self.magnitude_numerator();
        let den: int = self.denominator();
        self.lemma_denominator_positive();
        self.lemma_magnitude_not_negative();
        assert((2 * (whole + 1) - 1) * den == (2 * whole + 1) * den);
        assert((2 * (whole + 1) + 1) * den == (2 * whole + 1) * den + 2 * den) by (nonlinear_arith);
        lemma_round_half_away_is_unique(num, den, whole + 1);
        lemma_round_half_away_is_odd(num, den);
    }

    /// A finite number of magnitude below one half rounds to zero.
    proof fn lemma_below_half_rounds_to_zero(self)
        requires
            self.biased_exponent() < EXPONENT_OF_UNITS - 53,
        ensures
            self.rounded() == 0,
    {
        let down: nat = (-self.scale()) as nat;
        let den: int = self.denominator();
        lemma2_to64_rest();
        if down > 54 {
            lemma_pow2_strictly_increases(54, down);
        }
        assert(2 * self.significand() < den);
        lemma_basic_div(2 * self.significand() + den, 2 * den);
    }

    /// Where the last place weighs one or more, the number is an integer and
    /// rounds to itself.
    proof fn lemma_whole_magnitude(self)
        requires
            self.finite(),
            self.biased_exponent() >= EXPONENT_OF_UNITS,
        ensures
            self.denominator() == 1,
            self.magnitude_numerator() == self.significand() * pow2(
                (self.biased_exponent() - EXPONENT_OF_UNITS) as nat,
            ),
            self.magnitude_numerator() >= 0,
            round_half_away(self.magnitude_numerator(), self.denominator())
                == self.magnitude_numerator(),
            self.biased_exponent() <= EXPONENT_OF_UNITS + 10 ==> self.magnitude_numerator()
                < 0x8000_0000_0000_0000,
    {
        let up: nat = (self.biased_exponent() - EXPONENT_OF_UNITS) as nat;
        let sig: int = self.significand();
        let weight: int = pow2(up) as int;
        lemma_pow2_pos(up);
        lemma2_to64();
        assert(sig * weight >= 0) by (nonlinear_arith)
            requires
                sig >= 0,
                weight > 0,
        ;
        lemma_round_half_away_of_whole(sig * weight, 1);
        if up <= 10 {
            if up < 10 {
                lemma_pow2_strictly_increases(up, 10);
            }
            assert(sig * weight < 0x8000_0000_0000_0000) by (nonlinear_arith)
                requires
                    0 <= sig < 0x20_0000_0000_0000,
                    0 < weight <= 0x400,
            ;
        }
    }

    /// Where the last place weighs less than one but the magnitude is at least
    /// one half, rounding adds half a unit and drops the places below one.
    proof fn lemma_fractional_magnitude(self)
        requires
            EXPONENT_OF_UNITS - 53 <= self.biased_exponent() < EXPONENT_OF_UNITS,
        ensures
            self.magnitude_numerator() == self.significand(),
            round_half_away(self.magnitude_numerator(), self.denominator()) == (self.significand()
                + pow2((EXPONENT_OF_UNITS - self.biased_exponent() - 1) as nat)) / (pow2(
                (EXPONENT_OF_UNITS - self.biased_exponent()) as nat,
            ) as int),
    {
        let down: nat = (EXPONENT_OF_UNITS - self.biased_exponent()) as nat;
        let half: int = pow2((down - 1) as nat) as int;
        lemma_pow2_unfold(down);
        lemma_pow2_pos((down - 1) as nat);
        lemma_pow2_pos(down);
        lemma_div_multiples_vanish_quotient(2, self.significand() + half, pow2(down) as int);
    }

    /// A finite number whose exponent passes that of two to the power 62 has a
    /// magnitude of at least two to the power 63, reached only by the pattern
    /// with no fraction bit set.
    proof fn lemma_beyond_range(self)
        requires
            self.finite(),
            self.biased_exponent() > EXPONENT_OF_UNITS + 10,
        ensures
            self.denominator() == 1,
            self.rounded() == self.numerator(),
            self.magnitude_numerator() >= 0x8000_0000_0000_0000,
            self.magnitude_numerator() == 0x8000_0000_0000_0000 <==> self.biased_exponent()
                == EXPONENT_OF_UNITS + 11 && self.fraction() == 0,
    {
        let up: nat = (self.biased_exponent() - EXPONENT_OF_UNITS) as nat;
        let sig: int = self.significand();
        let weight: int = pow2(up) as int;
        self.lemma_whole_magnitude();
        lemma2_to64();
        if up > 11 {
            lemma_pow2_strictly_increases(11, up);
            lemma_pow2_unfold(up);
            lemma_pow2_unfold(12);
            if up > 12 {
                lemma_pow2_strictly_increases(12, up);
            }
            assert(sig * weight > 0x8000_0000_0000_0000) by (nonlinear_arith)
                requires
                    sig >= 0x10_0000_0000_0000,
                    weight >= 0x1000,
            ;
        } else {
            assert(sig * weight == sig * 0x800);
        }
    }
}

} // verus!
