//! Rounding of exact dyadic magnitudes to the binary32 grid.
//!
//! Magnitudes are measured in units of 2^-149, the smallest positive
//! binary32 value, so every finite binary32 magnitude is a natural number.
//! An exact intermediate result is given as `n * 2^e` units, with `e` of
//! either sign; `round_bits` names the binary32 magnitude nearest to it,
//! ties going to the even significand.
use vstd::prelude::*;
use vstd::arithmetic::power2::*;
use vstd::arithmetic::div_mod::*;
use vstd::arithmetic::mul::*;
use vstd::bits::*;
use vstd::std_specs::bits::*;

verus! {

/// Encoding of positive infinity, one past the largest finite magnitude.
pub const INFINITY_BITS: u32 = 0x7f80_0000;

/// Index of the highest set bit of `n`, and 0 for `n == 0`.
pub open spec fn floor_log2(n: nat) -> nat
    decreases n,
{
    if n < 2 {
        0
    } else {
        1 + floor_log2(n / 2)
    }
}

/// `n / d` rounded to the nearest integer, a tie going to the even neighbour.
pub open spec fn round_half_even(n: nat, d: nat) -> nat {
    let q = n / d;
    let r = n % d;
    if 2 * r > d || (2 * r == d && q % 2 == 1) {
        q + 1
    } else {
        q
    }
}

/// Exponent of the unit in the last place that binary32 offers for the
/// magnitude `n * 2^e`: 24 significant bits, but never finer than one unit.
pub open spec fn ulp_exponent(n: nat, e: int) -> int {
    let fine = floor_log2(n) + e - 23;
    if fine > 0 {
        fine
    } else {
        0
    }
}

/// `n * 2^e` counted in units in the last place and rounded to an integer.
pub open spec fn round_significand(n: nat, e: int) -> nat {
    let q = ulp_exponent(n, e);
    if q <= e {
        n * pow2((e - q) as nat)
    } else {
        round_half_even(n, pow2((q - e) as nat))
    }
}

/// The binary32 encoding, sign bit clear, of `n * 2^e` units rounded to
/// nearest, ties to even. A magnitude that rounds past the largest finite
/// value gives infinity.
///
/// The encoding of a significand `s` at ulp exponent `q` is `q * 2^23 + s`:
/// below 2^23 the value is subnormal (`q` is 0), from 2^23 on the hidden bit
/// raises the exponent field to `q + 1`, and at 2^24 the carry moves on to
/// the next binade.
pub open spec fn round_bits(n: nat, e: int) -> u32 {
    if n == 0 {
        0
    } else {
        let code = ulp_exponent(n, e) * 0x80_0000 + round_significand(n, e);
        if code >= INFINITY_BITS {
            INFINITY_BITS
        } else {
            code as u32
        }
    }
}

/// `floor_log2(n)` is the exponent of the largest power of two that is at most `n`.
pub proof fn lemma_floor_log2_bounds(n: nat)
    requires
        n > 0,
    ensures
        pow2(floor_log2(n)) <= n < pow2(floor_log2(n) + 1),
    decreases n,
{
    if n < 2 {
        lemma2_to64();
    } else {
        lemma_floor_log2_bounds(n / 2);
        lemma_pow2_unfold(floor_log2(n));
        lemma_pow2_unfold(floor_log2(n) + 1);
    }
}

/// Powers of two grow with their exponent.
pub proof fn lemma_pow2_monotonic(a: nat, b: nat)
    requires
        a <= b,
    ensures
        pow2(a) <= pow2(b),
{
    if a < b {
        lemma_pow2_strictly_increases(a, b);
    }
}

/// The binade that holds `n` determines `floor_log2(n)`.
pub proof fn lemma_floor_log2_unique(n: nat, k: nat)
    requires
        pow2(k) <= n < pow2(k + 1),
    ensures
        floor_log2(n) == k,
{
    lemma_pow2_pos(k);
    lemma_floor_log2_bounds(n);
    let f = floor_log2(n);
    if f < k {
        lemma_pow2_monotonic(f + 1, k);
    } else if f > k {
        lemma_pow2_monotonic(k + 1, f);
    }
}

/// Scaling by a power of two shifts the highest set bit by that much.
pub proof fn lemma_floor_log2_shift(n: nat, k: nat)
    requires
        n > 0,
    ensures
        floor_log2(n * pow2(k)) == floor_log2(n) + k,
{
    let f = floor_log2(n);
    lemma_floor_log2_bounds(n);
    lemma_pow2_adds(f, k);
    lemma_pow2_adds(f + 1, k);
    lemma_pow2_pos(k);
    lemma_mul_inequality(pow2(f) as int, n as int, pow2(k) as int);
    lemma_mul_strict_inequality(n as int, pow2(f + 1) as int, pow2(k) as int);
    lemma_floor_log2_unique(n * pow2(k), f + k);
}

/// A multiple of the divisor is its own rounding.
pub proof fn lemma_round_half_even_exact(c: nat, d: nat)
    requires
        d > 0,
    ensures
        round_half_even(c * d, d) == c,
{
    lemma_fundamental_div_mod_converse((c * d) as int, d as int, c as int, 0);
}

/// Scaling dividend and divisor alike leaves the rounding unchanged.
pub proof fn lemma_round_half_even_scale(n: nat, d: nat, k: nat)
    requires
        d > 0,
        k > 0,
    ensures
        round_half_even(n * k, d * k) == round_half_even(n, d),
{
    let q = n / d;
    let r = n % d;
    lemma_fundamental_div_mod(n as int, d as int);
    lemma_mod_bound(n as int, d as int);
    assert(n * k == q * (d * k) + r * k && 0 <= r * k < d * k && d * k > 0) by (nonlinear_arith)
        requires
            n == d * q + r,
            0 <= r < d,
            k > 0,
    ;
    lemma_fundamental_div_mod_converse((n * k) as int, (d * k) as int, q as int, (r * k) as int);
    assert((2 * (r * k) > d * k) == (2 * r > d) && (2 * (r * k) == d * k) == (2 * r == d))
        by (nonlinear_arith)
        requires
            k > 0,
    ;
}

/// The rounding depends on the magnitude alone, not on how it is split
/// into a count and a power of two.
pub proof fn lemma_round_bits_shift(n: nat, k: nat, e: int)
    ensures
        round_bits(n * pow2(k), e) == round_bits(n, e + k),
{
    lemma_pow2_pos(k);
    if n == 0 {
        assert(n * pow2(k) == 0);
    } else {
        let m = n * pow2(k);
        lemma_mul_strictly_positive(n as int, pow2(k) as int);
        lemma_floor_log2_shift(n, k);
        let q = ulp_exponent(n, e + k);
        assert(ulp_exponent(m, e) == q);
        if q <= e {
            let up = (e - q) as nat;
            lemma_pow2_adds(k, up);
            lemma_mul_is_associative(n as int, pow2(k) as int, pow2(up) as int);
            assert(round_significand(m, e) == round_significand(n, e + k));
        } else if q <= e + k {
            let up = (e + k - q) as nat;
            let down = (q - e) as nat;
            lemma_pow2_adds(up, down);
            lemma_pow2_pos(down);
            lemma_mul_is_associative(n as int, pow2(up) as int, pow2(down) as int);
            lemma_round_half_even_exact(n * pow2(up), pow2(down));
            assert(round_significand(m, e) == round_significand(n, e + k));
        } else {
            let down = (q - e - k) as nat;
            lemma_pow2_adds(down, k);
            lemma_pow2_pos(down);
            lemma_round_half_even_scale(n, pow2(down), pow2(k));
            assert(round_significand(m, e) == round_significand(n, e + k));
        }
    }
}

/// The encoding of a normal significand `a` at ulp exponent `i`, as a natural number.
pub open spec fn normal_code(a: nat, i: nat) -> nat {
    i * 0x80_0000 + a
}

/// Adding less than half a unit in the last place to a normal magnitude
/// does not change what it rounds to.
pub proof fn lemma_round_absorbs_excess(a: nat, i: nat, b: nat)
    requires
        0x80_0000 <= a < 0x100_0000,
        i >= 1,
        b < pow2((i - 1) as nat),
        normal_code(a, i) < INFINITY_BITS,
    ensures
        round_bits(a * pow2(i) + b, 0) == normal_code(a, i),
{
    let n = a * pow2(i) + b;
    let d = pow2(i);
    lemma2_to64();
    lemma_pow2_pos(i);
    lemma_pow2_unfold(i);
    lemma_pow2_adds(23, i);
    lemma_pow2_adds(24, i);
    assert(pow2(23) * d <= a * d && (a + 1) * d <= pow2(24) * d) by (nonlinear_arith)
        requires
            pow2(23) <= a,
            a + 1 <= pow2(24),
            d > 0,
    ;
    assert((a + 1) * d == a * d + d) by (nonlinear_arith);
    lemma_floor_log2_unique(n, 23 + i);
    lemma_fundamental_div_mod_converse(n as int, d as int, a as int, b as int);
}

/// Taking less than a quarter of a unit in the last place from a normal
/// magnitude does not change what it rounds to, even where the magnitude
/// is a power of two and the grid below it is twice as fine.
pub proof fn lemma_round_absorbs_deficit(a: nat, i: nat, b: nat)
    requires
        0x80_0000 <= a < 0x100_0000,
        i >= 2,
        0 < b < pow2((i - 2) as nat),
        normal_code(a, i) < INFINITY_BITS,
    ensures
        a * pow2(i) > b,
        round_bits((a * pow2(i) - b) as nat, 0) == normal_code(a, i),
{
    let d = pow2(i);
    let h = pow2((i - 1) as nat);
    let quarter = pow2((i - 2) as nat);
    lemma2_to64();
    lemma_pow2_pos((i - 2) as nat);
    lemma_pow2_unfold(i);
    lemma_pow2_unfold((i - 1) as nat);
    lemma_pow2_adds(23, i);
    lemma_pow2_adds(22, i);
    lemma_pow2_adds(24, i);
    lemma_pow2_adds(23, (i - 1) as nat);
    assert(pow2(23) * d <= a * d && a * d < pow2(24) * d) by (nonlinear_arith)
        requires
            pow2(23) <= a < pow2(24),
            d > 0,
    ;
    let n = (a * d - b) as nat;
    if a > 0x80_0000 {
        assert((a - 1) * d == a * d - d && pow2(23) * d <= (a - 1) * d) by (nonlinear_arith)
            requires
                pow2(23) <= a - 1,
                d > 0,
        ;
        lemma_floor_log2_unique(n, 23 + i);
        lemma_fundamental_div_mod_converse(n as int, d as int, a - 1, d - b);
    } else {
        assert(pow2(23) * d == pow2(22) * d + pow2(22) * d) by (nonlinear_arith)
            requires
                pow2(23) == 2 * pow2(22),
        ;
        assert(pow2(22) * d >= d) by (nonlinear_arith)
            requires
                pow2(22) >= 1,
                d > 0,
        ;
        lemma_floor_log2_unique(n, 22 + i);
        assert(a * d == 0xff_ffff * h + h) by (nonlinear_arith)
            requires
                a == 0x80_0000,
                d == 2 * h,
        ;
        lemma_fundamental_div_mod_converse(n as int, h as int, 0xff_ffff, h - b);
        assert(round_significand(n, 0) == 0x100_0000);
    }
}

/// Index of the highest set bit of a nonzero word.
pub fn highest_bit(n: u64) -> (k: u32)
    requires
        n > 0,
    ensures
        k == floor_log2(n as nat),
        k < 64,
{
    let zeros: u32 = n.leading_zeros();
    proof {
        axiom_u64_leading_zeros(n);
        let z: u64 = zeros as u64;
        let low: u64 = (63 - z) as u64;
        assert(n >> low != 0) by (bit_vector)
            requires
                (n >> low) & 1u64 != 0u64,
        ;
        lemma_u64_shr_is_div(n, low);
        lemma_pow2_pos(low as nat);
        if n < pow2(low as nat) {
            lemma_basic_div(n as int, pow2(low as nat) as int);
        }
        if z == 0 {
            lemma2_to64();
        } else {
            let high: u64 = (64 - z) as u64;
            lemma_u64_shr_is_div(n, high);
            lemma_pow2_pos(high as nat);
            lemma_fundamental_div_mod(n as int, pow2(high as nat) as int);
            lemma_mod_bound(n as int, pow2(high as nat) as int);
        }
        lemma_floor_log2_unique(n as nat, low as nat);
    }
    63 - zeros
}

/// Rounds the magnitude `n * 2^e` units to binary32 and encodes it.
pub fn round_pack(n: u64, e: i32) -> (bits: u32)
    requires
        n < 0x4000_0000_0000_0000,
        -1024 <= e <= 1024,
    ensures
        bits == round_bits(n as nat, e as int),
{
    if n == 0 {
        return 0;
    }
    let top: u32 = highest_bit(n);
    let fine: i32 = top as i32 + e - 23;
    let q: i32 = if fine > 0 {
        fine
    } else {
        0
    };
    proof {
        lemma_floor_log2_bounds(n as nat);
        lemma2_to64();
        lemma2_to64_rest();
    }
    if q >= 255 {
        return INFINITY_BITS;
    }
    let sig: u64;
    if q <= e {
        let up: u64 = (e - q) as u64;
        proof {
            lemma_pow2_adds((top + 1) as nat, up as nat);
            lemma_pow2_monotonic((top + 1 + up) as nat, 24);
            lemma_pow2_pos(up as nat);
            lemma_mul_strict_inequality(n as int, pow2((top + 1) as nat) as int, pow2(up as nat) as int);
            lemma_u64_shl_is_mul(n, up);
        }
        sig = n << up;
    } else if q - e >= 64 {
        proof {
            let d = pow2((q - e) as nat);
            lemma_pow2_monotonic(64, (q - e) as nat);
            lemma_basic_div(n as int, d as int);
            lemma_small_mod(n as nat, d);
        }
        sig = 0;
    } else {
        let down: u64 = (q - e) as u64;
        let quotient: u64 = n >> down;
        proof {
            let d = pow2(down as nat);
            lemma_pow2_pos(down as nat);
            lemma_u64_shr_is_div(n, down);
            lemma_fundamental_div_mod(n as int, d as int);
            lemma_mod_bound(n as int, d as int);
            lemma_mul_is_commutative(d as int, quotient as int);
            lemma_u64_pow2_no_overflow(down as nat);
            lemma_u64_shl_is_mul(quotient, down);
            lemma_u64_shl_is_mul(1, (down - 1) as u64);
            lemma_pow2_unfold(down as nat);
            // the quotient keeps at most 24 bits
            lemma_pow2_adds(24, down as nat);
            lemma_pow2_monotonic((top + 1) as nat, (24 + down) as nat);
            if quotient >= 0x100_0000 {
                lemma_mul_inequality(0x100_0000, quotient as int, d as int);
            }
        }
        let remainder: u64 = n - (quotient << down);
        let half: u64 = 1u64 << (down - 1);
        sig = if remainder > half || (remainder == half && quotient % 2 == 1) {
            quotient + 1
        } else {
            quotient
        };
    }
    let code: u64 = q as u64 * 0x80_0000 + sig;
    if code >= 0x7f80_0000 {
        INFINITY_BITS
    } else {
        code as u32
    }
}

} // verus!
