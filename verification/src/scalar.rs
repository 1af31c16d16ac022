//! Single-precision numbers held by their IEEE-754 bit pattern, with the
//! comparisons that the renderer's decisions rest on.

use vstd::prelude::*;
use vstd::arithmetic::div_mod::{
    lemma_basic_div,
    lemma_div_is_ordered,
    lemma_div_multiples_vanish,
    lemma_div_multiples_vanish_quotient,
};
use vstd::arithmetic::power2::{
    lemma2_to64,
    lemma_pow2_adds,
    lemma_pow2_pos,
    lemma_pow2_strictly_increases,
    pow2,
};
use vstd::bits::lemma_u64_shr_is_div;

verus! {

/// Two to the power 23: the weight of the hidden bit of a significand.
pub const HIDDEN_BIT: u32 = 0x80_0000;

/// The least exponent field of a magnitude of 256 or more.
pub const EXPONENT_OF_256: u32 = 135;

/// The sign bit of a binary32 pattern.
pub const SIGN_BIT: u32 = 0x8000_0000;

/// The bit pattern of positive infinity; every larger magnitude is a NaN.
pub const INFINITY_BITS: u32 = 0x7f80_0000;

/// The bit pattern of negative infinity.
pub const NEG_INFINITY_BITS: u32 = 0xff80_0000;

/// A binary32 value, kept as the 32 bits that encode it.
#[derive(Clone, Copy, Debug, PartialEq, Eq, Structural)]
pub struct Scalar {
    pub bits: u32,
}

/// Three binary32 values: a point, a direction or a linear colour.
#[derive(Clone, Copy, Debug, PartialEq, Eq, Structural)]
pub struct Vec3 {
    pub x: Scalar,
    pub y: Scalar,
    pub z: Scalar,
}

impl Scalar {
    /// The pattern without its sign bit.
    pub open spec fn magnitude(self) -> int {
        if self.bits >= SIGN_BIT {
            self.bits - SIGN_BIT
        } else {
            self.bits as int
        }
    }

    /// Whether the pattern encodes a NaN.
    pub open spec fn nan(self) -> bool {
        self.magnitude() > INFINITY_BITS
    }

    /// Position of the value on the number line: patterns of numbers compare
    /// as their ranks do, and both zeros share rank 0.
    pub open spec fn rank(self) -> int {
        if self.bits >= SIGN_BIT {
            -self.magnitude()
        } else {
            self.magnitude()
        }
    }

    /// The eight bits that hold the exponent.
    pub open spec fn exponent_field(self) -> int {
        self.magnitude() / (HIDDEN_BIT as int)
    }

    /// The twenty-three bits that hold the fraction.
    pub open spec fn fraction_field(self) -> int {
        self.magnitude() % (HIDDEN_BIT as int)
    }

    /// The absolute value of a finite pattern, times two to the power 149:
    /// an integer for every such pattern. For an infinity the same formula
    /// gives two to the power 277, beyond every finite value.
    pub open spec fn scaled(self) -> int {
        if self.exponent_field() == 0 {
            self.fraction_field()
        } else {
            (HIDDEN_BIT + self.fraction_field()) * pow2((self.exponent_field() - 1) as nat)
        }
    }

    /// The value times two to the power 149, with its sign.
    pub open spec fn value_scaled(self) -> int {
        if self.bits >= SIGN_BIT {
            -self.scaled()
        } else {
            self.scaled()
        }
    }

    /// The whole part of `factor` times the absolute value.
    pub open spec fn floor_times(self, factor: int) -> int {
        (factor * self.scaled()) / (pow2(149) as int)
    }

    /// `self < other` as IEEE-754 decides it: false when either is a NaN.
    pub open spec fn below(self, other: Scalar) -> bool {
        !self.nan() && !other.nan() && self.rank() < other.rank()
    }

    /// `self <= other` as IEEE-754 decides it: false when either is a NaN.
    pub open spec fn at_most(self, other: Scalar) -> bool {
        !self.nan() && !other.nan() && self.rank() <= other.rank()
    }

    /// Positive zero.
    pub open spec fn spec_zero() -> Scalar {
        Scalar { bits: 0 }
    }

    /// Positive infinity.
    pub open spec fn spec_infinity() -> Scalar {
        Scalar { bits: INFINITY_BITS }
    }

    /// Negative infinity.
    pub open spec fn spec_neg_infinity() -> Scalar {
        Scalar { bits: NEG_INFINITY_BITS }
    }

    /// Positive zero.
    #[verifier::when_used_as_spec(spec_zero)]
    pub fn zero() -> (s: Scalar)
        ensures
            s == Self::spec_zero(),
    {
        Scalar { bits: 0 }
    }

    /// Positive infinity.
    #[verifier::when_used_as_spec(spec_infinity)]
    pub fn infinity() -> (s: Scalar)
        ensures
            s == Self::spec_infinity(),
    {
        Scalar { bits: INFINITY_BITS }
    }

    /// Negative infinity.
    #[verifier::when_used_as_spec(spec_neg_infinity)]
    pub fn neg_infinity() -> (s: Scalar)
        ensures
            s == Self::spec_neg_infinity(),
    {
        Scalar { bits: NEG_INFINITY_BITS }
    }

    /// The value that `bits` encode.
    pub fn from_bits(bits: u32) -> (s: Scalar)
        ensures
            s.bits == bits,
    {
        Scalar { bits }
    }

    /// The bits that encode the value.
    pub fn to_bits(self) -> (bits: u32)
        ensures
            bits == self.bits,
    {
        self.bits
    }

    /// Whether the value is a NaN.
    pub fn is_nan(self) -> (r: bool)
        ensures
            r == self.nan(),
    {
        let magnitude: u32 = if self.bits >= SIGN_BIT {
            self.bits - SIGN_BIT
        } else {
            self.bits
        };
        magnitude > INFINITY_BITS
    }

    /// The rank as a machine integer.
    fn key(self) -> (k: i64)
        ensures
            k == self.rank(),
    {
        if self.bits >= SIGN_BIT {
            let magnitude: u32 = self.bits - SIGN_BIT;
            let m: i64 = magnitude as i64;
            -m
        } else {
            self.bits as i64
        }
    }

    /// `self < other`.
    pub fn lt(self, other: Scalar) -> (r: bool)
        ensures
            r == self.below(other),
    {
        !self.is_nan() && !other.is_nan() && self.key() < other.key()
    }

    /// `self <= other`.
    pub fn le(self, other: Scalar) -> (r: bool)
        ensures
            r == self.at_most(other),
    {
        !self.is_nan() && !other.is_nan() && self.key() <= other.key()
    }

    /// The whole part of `factor` times the absolute value, or nothing when
    /// the absolute value is 256 or more, an infinity or a NaN.
    pub fn floor_of_multiple(self, factor: u8) -> (whole: Option<u32>)
        ensures
            match whole {
                Some(q) => self.exponent_field() < EXPONENT_OF_256 && q == self.floor_times(
                    factor as int,
                ),
                None => self.exponent_field() >= EXPONENT_OF_256 && self.floor_times(1) >= 256,
            },
    {
        let magnitude: u32 = if self.bits >= SIGN_BIT {
            self.bits - SIGN_BIT
        } else {
            self.bits
        };
        let exponent: u32 = magnitude / HIDDEN_BIT;
        let fraction: u32 = magnitude % HIDDEN_BIT;
        if exponent >= EXPONENT_OF_256 {
            proof {
                lemma_large_magnitude(self);
            }
            return None;
        }
        let significand: u32 = if exponent == 0 {
            fraction
        } else {
            HIDDEN_BIT + fraction
        };
        assert(factor * significand < 0x1_0000_0000) by (nonlinear_arith)
            requires
                factor <= 255,
                significand < 0x100_0000,
        ;
        let numerator: u64 = factor as u64 * significand as u64;
        let shift: u32 = if exponent == 0 {
            149
        } else {
            150 - exponent
        };
        proof {
            lemma_floor_is_shift(self, factor as int);
            lemma2_to64();
        }
        if shift >= 32 {
            proof {
                if shift > 32 {
                    lemma_pow2_strictly_increases(32, shift as nat);
                }
                lemma_basic_div(numerator as int, pow2(shift as nat) as int);
            }
            return Some(0);
        }
        let quotient: u64 = numerator >> (shift as u64);
        proof {
            lemma_u64_shr_is_div(numerator, shift as u64);
            lemma_pow2_pos(shift as nat);
            assert(quotient <= numerator) by (nonlinear_arith)
                requires
                    quotient == numerator as nat / pow2(shift as nat),
                    pow2(shift as nat) > 0,
            ;
        }
        Some(quotient as u32)
    }
}

/// For a magnitude below 256, the whole part of a multiple is the multiple of
/// the significand with its low bits dropped.
proof fn lemma_floor_is_shift(x: Scalar, factor: int)
    requires
        x.exponent_field() < EXPONENT_OF_256,
        0 <= factor,
    ensures
        x.exponent_field() == 0 ==> x.floor_times(factor) == (factor * x.fraction_field()) / (
        pow2(149) as int),
        x.exponent_field() > 0 ==> x.floor_times(factor) == (factor * (HIDDEN_BIT
            + x.fraction_field())) / (pow2((150 - x.exponent_field()) as nat) as int),
{
    let e = x.exponent_field();
    if e > 0 {
        let low = (e - 1) as nat;
        let high = (150 - e) as nat;
        let m = HIDDEN_BIT + x.fraction_field();
        lemma_pow2_adds(low, high);
        lemma_pow2_pos(low);
        lemma_pow2_pos(high);
        let a = factor * m;
        assert(0 <= a) by (nonlinear_arith)
            requires
                a == factor * m,
                0 <= factor,
                0 <= m,
        ;
        assert(factor * x.scaled() == pow2(low) * a) by (nonlinear_arith)
            requires
                x.scaled() == m * pow2(low),
                a == factor * m,
        ;
        lemma_div_multiples_vanish_quotient(pow2(low) as int, a, pow2(high) as int);
    }
}

/// A magnitude whose exponent field is 135 or more is at least 256.
proof fn lemma_large_magnitude(x: Scalar)
    requires
        x.exponent_field() >= EXPONENT_OF_256,
    ensures
        x.floor_times(1) >= 256,
{
    let e = x.exponent_field();
    let low = (e - 1) as nat;
    let m = HIDDEN_BIT + x.fraction_field();
    lemma2_to64();
    lemma_pow2_adds(8, 149);
    lemma_pow2_adds(23, 134);
    lemma_pow2_pos(149);
    if low > 134 {
        lemma_pow2_strictly_increases(134, low);
    }
    assert(x.scaled() >= 256 * pow2(149)) by (nonlinear_arith)
        requires
            x.scaled() == m * pow2(low),
            m >= 0x80_0000,
            pow2(low) >= pow2(134),
            0x80_0000 * pow2(134) == 256 * pow2(149),
    ;
    lemma_div_is_ordered(256 * (pow2(149) as int), x.scaled(), pow2(149) as int);
    lemma_div_multiples_vanish(256, pow2(149) as int);
    assert(256 * pow2(149) == pow2(149) * 256) by (nonlinear_arith);
}

/// A greater magnitude encodes a greater absolute value, and no absolute
/// value is negative.
pub proof fn lemma_scaled_monotone(x: Scalar, y: Scalar)
    ensures
        0 <= x.scaled(),
        x.magnitude() <= y.magnitude() ==> x.scaled() <= y.scaled(),
        x.magnitude() < y.magnitude() ==> x.scaled() < y.scaled(),
{
    let ex = x.exponent_field();
    let ey = y.exponent_field();
    let mx = x.fraction_field();
    let my = y.fraction_field();
    if ex > 0 {
        lemma_pow2_pos((ex - 1) as nat);
        assert(0 <= (HIDDEN_BIT + mx) * pow2((ex - 1) as nat)) by (nonlinear_arith)
            requires
                0 <= mx,
                pow2((ex - 1) as nat) > 0,
        ;
    }
    if x.magnitude() <= y.magnitude() {
        assert(ex <= ey);
        if ex == ey {
            if ex > 0 {
                let low = (ex - 1) as nat;
                assert((HIDDEN_BIT + mx) * pow2(low) <= (HIDDEN_BIT + my) * pow2(low))
                    by (nonlinear_arith)
                    requires
                        0 <= mx <= my,
                        pow2(low) > 0,
                ;
                if mx < my {
                    assert((HIDDEN_BIT + mx) * pow2(low) < (HIDDEN_BIT + my) * pow2(low))
                        by (nonlinear_arith)
                        requires
                            0 <= mx < my,
                            pow2(low) > 0,
                    ;
                }
            }
        } else {
            let high = (ey - 1) as nat;
            lemma_pow2_pos(high);
            assert((HIDDEN_BIT + my) * pow2(high) >= HIDDEN_BIT * pow2(high)) by (nonlinear_arith)
                requires
                    my >= 0,
                    pow2(high) > 0,
            ;
            if ex == 0 {
                assert(HIDDEN_BIT * pow2(high) >= HIDDEN_BIT) by (nonlinear_arith)
                    requires
                        pow2(high) >= 1,
                ;
            } else {
                let low = (ex - 1) as nat;
                lemma_pow2_adds(low, 1);
                lemma2_to64();
                if low + 1 < high {
                    lemma_pow2_strictly_increases(low + 1, high);
                }
                assert((HIDDEN_BIT + mx) * pow2(low) < HIDDEN_BIT * pow2(high))
                    by (nonlinear_arith)
                    requires
                        0 <= mx < HIDDEN_BIT,
                        pow2(low) > 0,
                        pow2(low) * 2 <= pow2(high),
                ;
            }
        }
    }
}

/// The comparisons are those of the values encoded: among numbers, `below`
/// holds exactly where the value is less and `at_most` where it is less or
/// equal. The two zeros have the same value, and an infinity lies beyond
/// every finite number.
pub proof fn lemma_order_is_numeric(a: Scalar, b: Scalar)
    requires
        !a.nan(),
        !b.nan(),
    ensures
        a.below(b) <==> a.value_scaled() < b.value_scaled(),
        a.at_most(b) <==> a.value_scaled() <= b.value_scaled(),
{
    lemma_scaled_monotone(a, b);
    lemma_scaled_monotone(b, a);
    let zero = Scalar { bits: 0 };
    assert(zero.scaled() == 0);
    lemma_scaled_monotone(zero, a);
    lemma_scaled_monotone(zero, b);
}

/// The comparisons order the patterns that are numbers: any two of them
/// compare one way or the other, `below` is `at_most` without equality of
/// value, and both carry over a middle term.
pub proof fn lemma_numbers_are_ordered(a: Scalar, b: Scalar, c: Scalar)
    requires
        !a.nan(),
        !b.nan(),
        !c.nan(),
    ensures
        a.at_most(a),
        a.at_most(b) || b.at_most(a),
        a.below(b) <==> !b.at_most(a),
        a.below(b) <==> a.at_most(b) && !(a.at_most(b) && b.at_most(a)),
        a.at_most(b) && b.at_most(c) ==> a.at_most(c),
        a.below(b) && b.at_most(c) ==> a.below(c),
        a.at_most(b) && b.below(c) ==> a.below(c),
{
}

/// A NaN is neither below nor above anything, itself included.
pub proof fn lemma_nan_is_unordered(a: Scalar, b: Scalar)
    requires
        a.nan(),
    ensures
        !a.below(b),
        !b.below(a),
        !a.at_most(b),
        !b.at_most(a),
{
}

} // verus!
