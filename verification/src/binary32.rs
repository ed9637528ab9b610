//! IEEE 754 binary32 numbers, carried as their 32-bit encodings and
//! computed on with integer arithmetic alone.
//!
//! Every result is a function of the operand bits, so a computation gives
//! the same answer wherever it runs. Arithmetic rounds to nearest, ties to
//! even. Every operation that has no number to give answers with the one
//! quiet NaN `NAN_BITS`.
use vstd::prelude::*;
use vstd::arithmetic::power2::*;
use vstd::arithmetic::mul::*;
use vstd::bits::*;
use crate::rounding::{
    round_bits, round_pack, normal_code, lemma_round_bits_shift, lemma_round_absorbs_excess,
    lemma_round_absorbs_deficit, lemma_pow2_monotonic, INFINITY_BITS,
};

verus! {

/// The sign bit of an encoding.
pub const SIGN_BIT: u32 = 0x8000_0000;

/// The quiet NaN that operations answer with.
pub const NAN_BITS: u32 = 0x7fc0_0000;

/// Weight of the hidden bit of a normal significand, 2^23.
pub const HIDDEN_BIT: u32 = 0x80_0000;

/// A binary32 number, held as its encoding: one sign bit, eight exponent
/// bits, twenty-three fraction bits.
#[derive(Clone, Copy)]
pub struct Binary32 {
    pub bits: u32,
}

impl Binary32 {
    /// The encoding with the sign bit cleared.
    pub open spec fn magnitude_bits(self) -> u32 {
        (self.bits % SIGN_BIT) as u32
    }

    pub open spec fn spec_is_negative(self) -> bool {
        self.bits >= SIGN_BIT
    }

    pub open spec fn spec_is_nan(self) -> bool {
        self.magnitude_bits() > INFINITY_BITS
    }

    pub open spec fn spec_is_infinite(self) -> bool {
        self.magnitude_bits() == INFINITY_BITS
    }

    pub open spec fn spec_is_finite(self) -> bool {
        self.magnitude_bits() < INFINITY_BITS
    }

    /// The biased exponent, 0 to 255.
    pub open spec fn exponent_field(self) -> nat {
        (self.magnitude_bits() / HIDDEN_BIT) as nat
    }

    /// The 23 stored bits of the significand.
    pub open spec fn fraction_field(self) -> nat {
        (self.magnitude_bits() % HIDDEN_BIT) as nat
    }

    /// The significand as an integer below 2^24, the hidden bit included
    /// unless the number is zero or subnormal.
    pub open spec fn significand(self) -> nat {
        if self.exponent_field() == 0 {
            self.fraction_field()
        } else {
            (self.fraction_field() + HIDDEN_BIT) as nat
        }
    }

    /// The power of two that one unit of the significand stands for,
    /// counted from 2^-149.
    pub open spec fn scale(self) -> nat {
        if self.exponent_field() == 0 {
            0
        } else {
            (self.exponent_field() - 1) as nat
        }
    }

    /// The absolute value in units of 2^-149. Infinity comes out as 2^277,
    /// just above every finite magnitude.
    pub open spec fn magnitude(self) -> nat {
        self.significand() * pow2(self.scale())
    }

    /// The value in units of 2^-149; meaningful unless the number is a NaN.
    pub open spec fn value(self) -> int {
        if self.spec_is_negative() {
            -(self.magnitude() as int)
        } else {
            self.magnitude() as int
        }
    }

    /// The number with the given sign and sign-free encoding.
    pub open spec fn signed(negative: bool, magnitude_bits: u32) -> Binary32 {
        Binary32 {
            bits: if negative {
                (magnitude_bits + SIGN_BIT) as u32
            } else {
                magnitude_bits
            },
        }
    }

    /// The product, correctly rounded. Infinity times zero is a NaN.
    pub open spec fn spec_mul(self, rhs: Binary32) -> Binary32 {
        let negative = self.spec_is_negative() != rhs.spec_is_negative();
        if self.spec_is_nan() || rhs.spec_is_nan() {
            Binary32 { bits: NAN_BITS }
        } else if self.spec_is_infinite() || rhs.spec_is_infinite() {
            if self.magnitude_bits() == 0 || rhs.magnitude_bits() == 0 {
                Binary32 { bits: NAN_BITS }
            } else {
                Self::signed(negative, INFINITY_BITS)
            }
        } else {
            Self::signed(negative, round_bits(self.magnitude() * rhs.magnitude(), -149))
        }
    }

    /// Whether `self` is greater than `rhs`. A NaN is not comparable, and
    /// the two zeros are equal.
    pub open spec fn spec_gt(self, rhs: Binary32) -> bool {
        !self.spec_is_nan() && !rhs.spec_is_nan() && self.value() > rhs.value()
    }

    /// The number with the opposite sign.
    pub open spec fn spec_neg(self) -> Binary32 {
        Self::signed(!self.spec_is_negative(), self.magnitude_bits())
    }

    /// The sum, correctly rounded. Infinities of opposite sign add to a NaN;
    /// an exact zero is negative only where both terms are.
    pub open spec fn spec_add(self, rhs: Binary32) -> Binary32 {
        if self.spec_is_nan() || rhs.spec_is_nan() {
            Binary32 { bits: NAN_BITS }
        } else if self.spec_is_infinite() {
            if rhs.spec_is_infinite() && self.spec_is_negative() != rhs.spec_is_negative() {
                Binary32 { bits: NAN_BITS }
            } else {
                self
            }
        } else if rhs.spec_is_infinite() {
            rhs
        } else {
            let sum = self.value() + rhs.value();
            if sum == 0 {
                Self::signed(self.spec_is_negative() && rhs.spec_is_negative(), 0)
            } else if sum < 0 {
                Self::signed(true, round_bits((-sum) as nat, 0))
            } else {
                Self::signed(false, round_bits(sum as nat, 0))
            }
        }
    }

    /// The difference: the sum of `self` and the negated `rhs`.
    pub open spec fn spec_sub(self, rhs: Binary32) -> Binary32 {
        self.spec_add(rhs.spec_neg())
    }

    /// The sign-magnitude encoding read as a signed integer, which orders
    /// all numbers but the NaNs as their values do.
    pub open spec fn order_key(self) -> int {
        if self.spec_is_negative() {
            -(self.magnitude_bits() as int)
        } else {
            self.magnitude_bits() as int
        }
    }

    /// A number's magnitude is that of its sign-free encoding.
    pub proof fn lemma_magnitude_by_fields(self)
        ensures
            self.magnitude_bits() == self.exponent_field() * HIDDEN_BIT + self.fraction_field(),
            self.fraction_field() < HIDDEN_BIT,
            self.exponent_field() <= 255,
            self.significand() < 0x100_0000,
            self.exponent_field() > 0 ==> self.significand() >= HIDDEN_BIT,
            self.scale() <= 254,
    {
    }

    /// Among sign-free encodings, the larger one stands for the larger magnitude.
    pub proof fn lemma_magnitude_monotonic(self, other: Binary32)
        requires
            self.magnitude_bits() < other.magnitude_bits(),
        ensures
            self.magnitude() < other.magnitude(),
    {
        self.lemma_magnitude_by_fields();
        other.lemma_magnitude_by_fields();
        let i = self.scale();
        let j = other.scale();
        lemma_pow2_pos(i);
        lemma_pow2_pos(j);
        if self.exponent_field() == other.exponent_field() {
            lemma_mul_strict_inequality(
                self.significand() as int,
                other.significand() as int,
                pow2(i) as int,
            );
        } else {
            assert(self.exponent_field() < other.exponent_field());
            if self.exponent_field() == 0 {
                lemma2_to64();
                lemma_mul_inequality(1, pow2(j) as int, other.significand() as int);
                lemma_mul_is_commutative(pow2(j) as int, other.significand() as int);
            } else {
                lemma_pow2_unfold(i + 1);
                lemma_pow2_monotonic(i + 1, j);
                assert(self.significand() * pow2(i) < other.significand() * pow2(j))
                    by (nonlinear_arith)
                    requires
                        self.significand() < 0x100_0000,
                        other.significand() >= 0x80_0000,
                        2 * pow2(i) <= pow2(j),
                        pow2(i) > 0,
                ;
            }
        }
    }

    /// The order of the keys is the order of the values.
    pub proof fn lemma_order_key(self, other: Binary32)
        ensures
            self.order_key() < other.order_key() <==> self.value() < other.value(),
            self.order_key() == other.order_key() <==> self.value() == other.value(),
    {
        let zero = Binary32 { bits: 0 };
        assert(zero.magnitude() == 0) by {
            assert(zero.significand() == 0);
            lemma_mul_basics(pow2(zero.scale()) as int);
        }
        if self.magnitude_bits() < other.magnitude_bits() {
            self.lemma_magnitude_monotonic(other);
        } else if self.magnitude_bits() > other.magnitude_bits() {
            other.lemma_magnitude_monotonic(self);
        }
        if 0 < self.magnitude_bits() {
            zero.lemma_magnitude_monotonic(self);
        }
        if 0 < other.magnitude_bits() {
            zero.lemma_magnitude_monotonic(other);
        }
    }

    pub fn from_bits(bits: u32) -> (r: Binary32)
        ensures
            r.bits == bits,
    {
        Binary32 { bits }
    }

    pub fn to_bits(self) -> (bits: u32)
        ensures
            bits == self.bits,
    {
        self.bits
    }

    #[verifier::when_used_as_spec(spec_is_negative)]
    pub fn is_negative(self) -> (r: bool)
        ensures
            r == self.spec_is_negative(),
    {
        self.bits >= SIGN_BIT
    }

    #[verifier::when_used_as_spec(spec_is_nan)]
    pub fn is_nan(self) -> (r: bool)
        ensures
            r == self.spec_is_nan(),
    {
        self.bits % SIGN_BIT > INFINITY_BITS
    }

    #[verifier::when_used_as_spec(spec_is_infinite)]
    pub fn is_infinite(self) -> (r: bool)
        ensures
            r == self.spec_is_infinite(),
    {
        self.bits % SIGN_BIT == INFINITY_BITS
    }

    #[verifier::when_used_as_spec(spec_is_finite)]
    pub fn is_finite(self) -> (r: bool)
        ensures
            r == self.spec_is_finite(),
    {
        self.bits % SIGN_BIT < INFINITY_BITS
    }

    fn with_sign(negative: bool, magnitude_bits: u32) -> (r: Binary32)
        requires
            magnitude_bits < SIGN_BIT,
        ensures
            r == Self::signed(negative, magnitude_bits),
    {
        Binary32 {
            bits: if negative {
                magnitude_bits + SIGN_BIT
            } else {
                magnitude_bits
            },
        }
    }

    fn unpack_significand(self) -> (s: u32)
        ensures
            s == self.significand(),
            s < 0x100_0000,
    {
        let magnitude: u32 = self.bits % SIGN_BIT;
        if magnitude / HIDDEN_BIT == 0 {
            magnitude % HIDDEN_BIT
        } else {
            magnitude % HIDDEN_BIT + HIDDEN_BIT
        }
    }

    fn unpack_scale(self) -> (s: u32)
        ensures
            s == self.scale(),
            s <= 254,
    {
        let exponent: u32 = self.bits % SIGN_BIT / HIDDEN_BIT;
        if exponent == 0 {
            0
        } else {
            exponent - 1
        }
    }

    /// Multiplies two numbers.
    pub fn mul(self, rhs: Binary32) -> (r: Binary32)
        ensures
            r == self.spec_mul(rhs),
    {
        let negative: bool = self.is_negative() != rhs.is_negative();
        if self.is_nan() || rhs.is_nan() {
            return Binary32 { bits: NAN_BITS };
        }
        if self.is_infinite() || rhs.is_infinite() {
            if self.bits % SIGN_BIT == 0 || rhs.bits % SIGN_BIT == 0 {
                return Binary32 { bits: NAN_BITS };
            }
            return Self::with_sign(negative, INFINITY_BITS);
        }
        let a: u32 = self.unpack_significand();
        let b: u32 = rhs.unpack_significand();
        let i: u32 = self.unpack_scale();
        let j: u32 = rhs.unpack_scale();
        proof {
            lemma_mul_upper_bound(a as int, 0xff_ffff, b as int, 0xff_ffff);
            lemma_pow2_adds(i as nat, j as nat);
            assert(self.magnitude() * rhs.magnitude() == (a * b) * pow2((i + j) as nat))
                by (nonlinear_arith)
                requires
                    self.magnitude() == a * pow2(i as nat),
                    rhs.magnitude() == b * pow2(j as nat),
                    pow2((i + j) as nat) == pow2(i as nat) * pow2(j as nat),
            ;
            lemma_round_bits_shift((a * b) as nat, (i + j) as nat, -149);
        }
        let product: u64 = a as u64 * b as u64;
        let exponent: i32 = i as i32 + j as i32 - 149;
        Self::with_sign(negative, round_pack(product, exponent))
    }

    /// Flips the sign.
    pub fn neg(self) -> (r: Binary32)
        ensures
            r == self.spec_neg(),
    {
        Self::with_sign(!self.is_negative(), self.bits % SIGN_BIT)
    }

    /// Adds two numbers.
    pub fn add(self, rhs: Binary32) -> (r: Binary32)
        ensures
            r == self.spec_add(rhs),
    {
        if self.is_nan() || rhs.is_nan() {
            return Binary32 { bits: NAN_BITS };
        }
        if self.is_infinite() {
            if rhs.is_infinite() && self.is_negative() != rhs.is_negative() {
                return Binary32 { bits: NAN_BITS };
            }
            return self;
        }
        if rhs.is_infinite() {
            return rhs;
        }
        if self.unpack_scale() >= rhs.unpack_scale() {
            Self::add_aligned(self, rhs)
        } else {
            Self::add_aligned(rhs, self)
        }
    }

    /// Adds two finite numbers, the first on a scale no finer than the second's.
    fn add_aligned(hi: Binary32, lo: Binary32) -> (r: Binary32)
        requires
            hi.spec_is_finite(),
            lo.spec_is_finite(),
            hi.scale() >= lo.scale(),
        ensures
            r == hi.spec_add(lo),
            r == lo.spec_add(hi),
    {
        let a: u64 = hi.unpack_significand() as u64;
        let b: u64 = lo.unpack_significand() as u64;
        let i: u32 = hi.unpack_scale();
        let j: u32 = lo.unpack_scale();
        let gap: u64 = (i - j) as u64;
        proof {
            hi.lemma_magnitude_by_fields();
            lo.lemma_magnitude_by_fields();
            lemma2_to64();
            lemma_pow2_pos(j as nat);
            lemma_pow2_adds(gap as nat, j as nat);
        }
        if gap > 32 {
            proof {
                // lo lies below a quarter of hi's unit in the last place
                lemma_pow2_adds(24, j as nat);
                lemma_pow2_monotonic((24 + j) as nat, (i - 2) as nat);
                lemma_pow2_monotonic((i - 2) as nat, (i - 1) as nat);
                assert(b * pow2(j as nat) < pow2(24) * pow2(j as nat)) by (nonlinear_arith)
                    requires
                        b < pow2(24),
                        pow2(j as nat) > 0,
                ;
                assert(normal_code(a as nat, i as nat) == hi.magnitude_bits());
                if lo.magnitude() == 0 || hi.spec_is_negative() == lo.spec_is_negative() {
                    lemma_round_absorbs_excess(a as nat, i as nat, lo.magnitude());
                } else {
                    lemma_round_absorbs_deficit(a as nat, i as nat, lo.magnitude());
                }
            }
            return hi;
        }
        proof {
            lemma_pow2_monotonic(gap as nat, 32);
            assert(a * pow2(gap as nat) <= 0xff_ffff * 0x1_0000_0000) by (nonlinear_arith)
                requires
                    a <= 0xff_ffff,
                    pow2(gap as nat) <= 0x1_0000_0000,
            ;
            lemma_u64_shl_is_mul(a, gap);
            lemma_mul_is_associative(a as int, pow2(gap as nat) as int, pow2(j as nat) as int);
        }
        let wide: u64 = a << gap;
        proof {
            assert(hi.magnitude() == wide * pow2(j as nat));
            assert((wide + b) * pow2(j as nat) == hi.magnitude() + lo.magnitude()) by (nonlinear_arith)
                requires
                    hi.magnitude() == wide * pow2(j as nat),
                    lo.magnitude() == b * pow2(j as nat),
            ;
            assert((wide - b) * pow2(j as nat) == hi.magnitude() - lo.magnitude()) by (nonlinear_arith)
                requires
                    hi.magnitude() == wide * pow2(j as nat),
                    lo.magnitude() == b * pow2(j as nat),
            ;
            assert((wide > b) == (hi.magnitude() > lo.magnitude()) && (wide == b) == (hi.magnitude()
                == lo.magnitude())) by (nonlinear_arith)
                requires
                    hi.magnitude() == wide * pow2(j as nat),
                    lo.magnitude() == b * pow2(j as nat),
                    pow2(j as nat) > 0,
            ;
        }
        if hi.is_negative() == lo.is_negative() {
            let total: u64 = wide + b;
            proof {
                lemma_round_bits_shift(total as nat, j as nat, 0);
                if total > 0 {
                    lemma_mul_strictly_positive(total as int, pow2(j as nat) as int);
                }
            }
            Self::with_sign(hi.is_negative(), round_pack(total, j as i32))
        } else if wide > b {
            proof {
                lemma_round_bits_shift((wide - b) as nat, j as nat, 0);
            }
            Self::with_sign(hi.is_negative(), round_pack(wide - b, j as i32))
        } else if wide < b {
            proof {
                lemma_round_bits_shift((b - wide) as nat, j as nat, 0);
                assert((b - wide) * pow2(j as nat) == lo.magnitude() - hi.magnitude())
                    by (nonlinear_arith)
                    requires
                        (wide - b) * pow2(j as nat) == hi.magnitude() - lo.magnitude(),
                ;
            }
            Self::with_sign(lo.is_negative(), round_pack(b - wide, j as i32))
        } else {
            Binary32 { bits: 0 }
        }
    }

    /// Subtracts `rhs` from `self`.
    pub fn sub(self, rhs: Binary32) -> (r: Binary32)
        ensures
            r == self.spec_sub(rhs),
    {
        self.add(rhs.neg())
    }

    /// Tells whether `self` is greater than `rhs`.
    pub fn gt(self, rhs: Binary32) -> (r: bool)
        ensures
            r == self.spec_gt(rhs),
    {
        if self.is_nan() || rhs.is_nan() {
            return false;
        }
        proof {
            self.lemma_order_key(rhs);
        }
        let a: i64 = self.unpack_order_key();
        let b: i64 = rhs.unpack_order_key();
        a > b
    }

    fn unpack_order_key(self) -> (k: i64)
        ensures
            k == self.order_key(),
    {
        let magnitude: i64 = (self.bits % SIGN_BIT) as i64;
        if self.is_negative() {
            -magnitude
        } else {
            magnitude
        }
    }
}

} // verus!
