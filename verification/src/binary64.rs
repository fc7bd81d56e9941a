//! Binary64 arithmetic on bit patterns, carried out in integers.
//!
//! A real key reaches the library as the bit pattern of an IEEE 754 binary64
//! number, and every operation here works on such patterns and rounds to
//! nearest, ties to even, as the standard prescribes. A result is therefore
//! the same on every machine, bit for bit.
//!
//! A finite number that is not negative is `significand * 2^scale` units,
//! the unit being the smallest positive binary64 number, two to the power
//! of -1074. The patterns of such numbers ascend with the numbers, and all
//! lie below the pattern of infinity; the patterns above it stand for what
//! is not a number and for what carries a sign, and no operation here takes
//! them.

pub mod bounds;

use vstd::prelude::*;
use vstd::arithmetic::power2::{
    pow2,
    lemma_pow2_adds,
    lemma_pow2_pos,
    lemma_pow2_strictly_increases,
    lemma_pow2_unfold,
    lemma2_to64,
    lemma2_to64_rest,
};
use vstd::arithmetic::div_mod::{
    lemma_div_denominator,
    lemma_div_multiples_vanish_quotient,
    lemma_fundamental_div_mod,
    lemma_fundamental_div_mod_converse,
    lemma_truncate_middle,
};
use vstd::arithmetic::div_mod::{lemma_mod_bound, lemma_mul_mod_noop_general, lemma_small_mod};
use vstd::arithmetic::mul::{lemma_mul_inequality, lemma_mul_strict_inequality};

verus! {

/// Two to the power of 52: the hidden bit of a significand, and the weight
/// of the exponent field in a pattern.
pub const HIDDEN_BIT: u64 = 0x0010_0000_0000_0000;

/// Two to the power of 53: no significand exceeds it.
pub const SIGNIFICAND_LIMIT: u64 = 0x0020_0000_0000_0000;

/// The pattern of positive infinity; the finite numbers that are not
/// negative have the patterns below it.
pub const INFINITY_BITS: u64 = 0x7ff0_0000_0000_0000;

/// The pattern of the number one.
pub const ONE_BITS: u64 = 0x3ff0_0000_0000_0000;

/// The bit of a pattern that holds the sign: a pattern from here on stands
/// for the number of the pattern without it, taken negative.
pub const SIGN_BIT: u64 = 0x8000_0000_0000_0000;

/// The number of a unit's binary places: one is two to this power of units.
pub const UNIT_PLACES: i64 = 1074;

/// The significand of the number with pattern `bits`.
pub open spec fn significand(bits: u64) -> nat {
    if bits / HIDDEN_BIT == 0 {
        (bits % HIDDEN_BIT) as nat
    } else {
        (HIDDEN_BIT + bits % HIDDEN_BIT) as nat
    }
}

/// The power of two by which the significand of `bits` is scaled.
pub open spec fn scale(bits: u64) -> int {
    if bits / HIDDEN_BIT == 0 {
        0
    } else {
        bits / HIDDEN_BIT - 1
    }
}

/// The number with pattern `bits`, in units.
pub open spec fn value(bits: u64) -> nat {
    significand(bits) * pow2(scale(bits) as nat)
}

/// The number of binary digits of `n`, none for zero.
pub open spec fn bit_length(n: nat) -> nat
    decreases n,
{
    if n == 0 {
        0
    } else {
        1 + bit_length(n / 2)
    }
}

/// `n / d` rounded to the nearest integer, a tie to the even one.
pub open spec fn round_nearest_even(n: nat, d: nat) -> nat {
    let q = n / d;
    let r = n % d;
    if 2 * r < d || (2 * r == d && q % 2 == 0) {
        q
    } else {
        q + 1
    }
}

/// `n * 2^e` rounded down to an integer.
pub open spec fn scaled_floor(n: nat, e: int) -> nat {
    if e >= 0 {
        n * pow2(e as nat)
    } else {
        n / pow2((-e) as nat)
    }
}

/// `n * 2^e` rounded to the nearest integer, a tie to the even one.
pub open spec fn scaled_round(n: nat, e: int) -> nat {
    if e >= 0 {
        n * pow2(e as nat)
    } else {
        round_nearest_even(n, pow2((-e) as nat))
    }
}

/// The power of two of which a binary64 number near `n * 2^e` units is a
/// multiple: the numbers of 53 digits or fewer are whole units, and every
/// further digit doubles the step.
pub open spec fn quantum(n: nat, e: int) -> nat {
    let len = bit_length(scaled_floor(n, e));
    if len > 53 {
        (len - 53) as nat
    } else {
        0
    }
}

/// The pattern of the binary64 number nearest to `n * 2^e` units, a tie
/// going to the even significand, and what is too large to infinity.
///
/// With `q` the quantum, the number is `m * 2^q` units for the rounded
/// significand `m`, and its pattern is `q * 2^52 + m`: below `2^52` the
/// significand stands alone, from there on its hidden bit raises the
/// exponent field to `q + 1`, and a significand rounded up to `2^53` is
/// `2^52` at the next quantum.
pub open spec fn round_to_binary64(n: nat, e: int) -> u64 {
    let q = quantum(n, e);
    let pattern = q * HIDDEN_BIT + scaled_round(n, e - q);
    if pattern >= INFINITY_BITS {
        INFINITY_BITS
    } else {
        pattern as u64
    }
}

/// A positive number lies between the powers of two that its length names.
pub proof fn lemma_bit_length_bounds(n: nat)
    requires
        n > 0,
    ensures
        bit_length(n) >= 1,
        pow2((bit_length(n) - 1) as nat) <= n < pow2(bit_length(n)),
    decreases n,
{
    lemma2_to64();
    if n == 1 {
        assert(bit_length(1) == 1 + bit_length(0));
    } else {
        lemma_bit_length_bounds(n / 2);
        let half = bit_length(n / 2);
        lemma_pow2_unfold(half);
        lemma_pow2_unfold((half + 1) as nat);
    }
}

/// The length of a number between two neighbouring powers of two.
pub proof fn lemma_bit_length_unique(n: nat, len: nat)
    requires
        len >= 1,
        pow2((len - 1) as nat) <= n < pow2(len),
    ensures
        bit_length(n) == len,
{
    lemma_pow2_pos((len - 1) as nat);
    lemma_bit_length_bounds(n);
    let actual = bit_length(n);
    if actual < len {
        if actual < len - 1 {
            lemma_pow2_strictly_increases(actual, (len - 1) as nat);
        }
    } else if actual > len {
        if actual - 1 > len {
            lemma_pow2_strictly_increases(len, (actual - 1) as nat);
        }
    }
}

/// Dropping `k` digits that leave a positive number shortens it by `k`.
pub proof fn lemma_bit_length_shift(n: nat, k: nat)
    requires
        n / pow2(k) > 0,
    ensures
        bit_length(n) == k + bit_length(n / pow2(k)),
    decreases k,
{
    lemma2_to64();
    if k == 0 {
        assert(n / pow2(0) == n);
    } else {
        let rest = (k - 1) as nat;
        lemma_pow2_unfold(k);
        lemma_pow2_pos(rest);
        lemma_div_denominator(n as int, 2, pow2(rest) as int);
        assert(2 * pow2(rest) == pow2(k));
        assert((n / 2) / pow2(rest) == n / pow2(k));
        assert(n > 0);
        lemma_bit_length_shift(n / 2, rest);
        assert(bit_length(n) == 1 + bit_length(n / 2));
        assert(bit_length(n / 2) == rest + bit_length((n / 2) / pow2(rest)));
    }
}

/// The length of `n * 2^e` rounded down is that of `n` moved by `e`.
pub proof fn lemma_scaled_length(n: nat, e: int)
    requires
        n > 0,
    ensures
        bit_length(scaled_floor(n, e)) == if bit_length(n) + e > 0 {
            bit_length(n) + e
        } else {
            0
        },
{
    let len = bit_length(n);
    lemma_bit_length_bounds(n);
    if e >= 0 {
        let p = pow2(e as nat);
        lemma_pow2_pos(e as nat);
        lemma_pow2_adds((len - 1) as nat, e as nat);
        lemma_pow2_adds(len, e as nat);
        lemma_mul_inequality(pow2((len - 1) as nat) as int, n as int, p as int);
        lemma_mul_strict_inequality(n as int, pow2(len) as int, p as int);
        lemma_bit_length_unique(n * p, (len + e) as nat);
    } else {
        let k = (-e) as nat;
        let p = pow2(k);
        lemma_pow2_pos(k);
        lemma_fundamental_div_mod(n as int, p as int);
        if len <= k {
            if len < k {
                lemma_pow2_strictly_increases(len, k);
            }
            assert(n / p == 0) by (nonlinear_arith)
                requires
                    0 <= n < p,
            ;
        } else {
            let rest = (len - k) as nat;
            lemma_pow2_adds((rest - 1) as nat, k);
            lemma_pow2_adds(rest, k);
            let lower = pow2((rest - 1) as nat);
            let upper = pow2(rest);
            assert(lower <= n / p < upper) by (nonlinear_arith)
                requires
                    lower * p <= n < upper * p,
                    p > 0,
                    n == p * (n / p) + n % p,
                    0 <= n % p < p,
            ;
            lemma_bit_length_unique(n / p, rest);
        }
    }
}

/// A factor of two to the power of `j` may pass from the exponent into the
/// number without a change to what is rounded.
pub proof fn lemma_scaled_shift(n: nat, j: nat, e: int)
    ensures
        scaled_floor(n * pow2(j), e - j) == scaled_floor(n, e),
        scaled_round(n * pow2(j), e - j) == scaled_round(n, e),
{
    let p = pow2(j);
    lemma_pow2_pos(j);
    if e - j >= 0 {
        let rest = pow2((e - j) as nat);
        lemma_pow2_adds(j, (e - j) as nat);
        assert(n * p * rest == n * pow2(e as nat)) by (nonlinear_arith)
            requires
                pow2(e as nat) == p * rest,
        ;
    } else if e >= 0 {
        let up = pow2(e as nat);
        let down = pow2((j - e) as nat);
        lemma_pow2_pos((j - e) as nat);
        lemma_pow2_adds(e as nat, (j - e) as nat);
        assert(n * p == (n * up) * down + 0) by (nonlinear_arith)
            requires
                p == up * down,
        ;
        lemma_fundamental_div_mod_converse((n * p) as int, down as int, (n * up) as int, 0);
    } else {
        let down = pow2((-e) as nat);
        lemma_pow2_pos((-e) as nat);
        lemma_pow2_adds(j, (-e) as nat);
        let wide = pow2((j - e) as nat);
        assert(wide == p * down);
        lemma_div_multiples_vanish_quotient(p as int, n as int, down as int);
        lemma_truncate_middle(n as int, p as int, down as int);
        assert(p * n == n * p) by (nonlinear_arith);
        let q = n / down;
        let r = n % down;
        assert((n * p) / wide == q);
        assert((n * p) % wide == p * r);
        assert((2 * (p * r) < wide) == (2 * r < down) && (2 * (p * r) == wide) == (2 * r == down))
            by (nonlinear_arith)
            requires
                wide == p * down,
                p > 0,
        ;
    }
}

/// A factor of two to the power of `j` may pass from the exponent into the
/// number without a change to the pattern that the number rounds to.
pub proof fn lemma_round_shift(n: nat, j: nat, e: int)
    ensures
        round_to_binary64(n * pow2(j), e - j) == round_to_binary64(n, e),
{
    lemma_scaled_shift(n, j, e);
    lemma_scaled_shift(n, j, e - quantum(n, e));
}

/// Shifting one to the left by `k` places gives two to the power of `k`.
proof fn lemma_shift_is_pow2(k: u128)
    requires
        k < 128,
    ensures
        1u128 << k == pow2(k as nat),
    decreases k,
{
    lemma2_to64();
    if k == 0 {
        assert(1u128 << 0u128 == 1u128) by (bit_vector);
    } else {
        let j: u128 = (k - 1) as u128;
        lemma_shift_is_pow2(j);
        lemma_pow2_unfold(k as nat);
        assert(1u128 << k == 2 * (1u128 << j)) by (bit_vector)
            requires
                0 < k < 128,
                j == k - 1,
        ;
    }
}

/// Two to the power of `k`.
fn power_of_two(k: u32) -> (p: u128)
    requires
        k < 128,
    ensures
        p == pow2(k as nat),
        p > 0,
{
    proof {
        lemma_shift_is_pow2(k as u128);
        lemma_pow2_pos(k as nat);
    }
    1u128 << (k as u128)
}

/// Drops `k` digits of `v` where that leaves a positive number.
fn drop_digits(v: u128, len: u32, k: u32, Ghost(n): Ghost<nat>) -> (r: (u128, u32))
    requires
        0 < k <= 64,
        len + 2 * k <= 128,
        v == n / pow2(len as nat),
        v < pow2((2 * k) as nat),
        len > 0 ==> v > 0,
    ensures
        r.0 == n / pow2(r.1 as nat),
        r.1 == len || r.1 == len + k,
        r.0 < pow2(k as nat),
        r.1 > 0 ==> r.0 > 0,
{
    let p: u128 = power_of_two(k);
    if v >= p {
        proof {
            lemma_pow2_pos(len as nat);
            lemma_pow2_adds(len as nat, k as nat);
            lemma_pow2_adds(k as nat, k as nat);
            lemma_div_denominator(n as int, pow2(len as nat) as int, p as int);
            lemma_fundamental_div_mod(v as int, p as int);
            assert(0 < v / p < p) by (nonlinear_arith)
                requires
                    p <= v < p * p,
                    p > 0,
                    v == p * (v / p) + v % p,
                    0 <= v % p < p,
            ;
        }
        (v / p, len + k)
    } else {
        (v, len)
    }
}

/// The number of binary digits of `n`.
fn bit_length_of(n: u128) -> (len: u32)
    ensures
        len == bit_length(n as nat),
        len <= 128,
{
    proof {
        lemma2_to64();
        lemma_pow2_adds(64, 64);
        assert(pow2(128) == 0x1_0000_0000_0000_0000_0000_0000_0000_0000) by (nonlinear_arith)
            requires
                pow2(128) == pow2(64) * pow2(64),
                pow2(64) == 0x1_0000_0000_0000_0000,
        ;
    }
    let step64: (u128, u32) = drop_digits(n, 0, 64, Ghost(n as nat));
    let step32: (u128, u32) = drop_digits(step64.0, step64.1, 32, Ghost(n as nat));
    let step16: (u128, u32) = drop_digits(step32.0, step32.1, 16, Ghost(n as nat));
    let step8: (u128, u32) = drop_digits(step16.0, step16.1, 8, Ghost(n as nat));
    let step4: (u128, u32) = drop_digits(step8.0, step8.1, 4, Ghost(n as nat));
    let step2: (u128, u32) = drop_digits(step4.0, step4.1, 2, Ghost(n as nat));
    let step1: (u128, u32) = drop_digits(step2.0, step2.1, 1, Ghost(n as nat));
    proof {
        if step1.0 == 1 {
            lemma_bit_length_shift(n as nat, step1.1 as nat);
            assert(bit_length(1) == 1 + bit_length(0));
        }
    }
    if step1.0 == 1 {
        step1.1 + 1
    } else {
        0
    }
}

/// Two to the power of 128 exceeds every number of 128 digits.
proof fn lemma_pow2_128()
    ensures
        pow2(128) == 0x1_0000_0000_0000_0000_0000_0000_0000_0000,
        pow2(127) == 0x8000_0000_0000_0000_0000_0000_0000_0000,
{
    lemma2_to64();
    lemma2_to64_rest();
    lemma_pow2_adds(64, 64);
    lemma_pow2_adds(64, 63);
    assert(pow2(127) == 0x8000_0000_0000_0000_0000_0000_0000_0000) by (nonlinear_arith)
        requires
            pow2(127) == pow2(64) * pow2(63),
            pow2(64) == 0x1_0000_0000_0000_0000,
            pow2(63) == 0x8000_0000_0000_0000,
    ;
    assert(pow2(128) == 0x1_0000_0000_0000_0000_0000_0000_0000_0000) by (nonlinear_arith)
        requires
            pow2(128) == pow2(64) * pow2(64),
            pow2(64) == 0x1_0000_0000_0000_0000,
    ;
}

/// `n * 2^d` rounded to the nearest integer, where that has no more than
/// 53 digits before it is rounded.
fn round_scaled(n: u128, d: i64) -> (m: u64)
    requires
        0 < n < 0x8000_0000_0000_0000_0000_0000_0000_0000,
        -0x4000 <= d,
        bit_length(n as nat) + d <= 53,
    ensures
        m == scaled_round(n as nat, d as int),
        m <= SIGNIFICAND_LIMIT,
{
    let ghost len = bit_length(n as nat);
    proof {
        lemma_bit_length_bounds(n as nat);
        lemma2_to64();
        lemma2_to64_rest();
    }
    if d >= 0 {
        let p: u128 = power_of_two(d as u32);
        proof {
            lemma_pow2_adds(len, d as nat);
            lemma_mul_strict_inequality(n as int, pow2(len) as int, p as int);
            if len + d < 53 {
                lemma_pow2_strictly_increases((len + d) as nat, 53);
            }
        }
        (n * p) as u64
    } else if d <= -128 {
        proof {
            let k = (-d) as nat;
            lemma_pow2_128();
            if k > 128 {
                lemma_pow2_strictly_increases(128, k);
            }
            lemma_fundamental_div_mod_converse(n as int, pow2(k) as int, 0, n as int);
        }
        0
    } else {
        let k: u32 = (-d) as u32;
        let p: u128 = power_of_two(k);
        let floor: u128 = n / p;
        let rest: u128 = n % p;
        let half: u128 = p / 2;
        proof {
            lemma_pow2_unfold(k as nat);
            lemma_pow2_adds(53, k as nat);
            if len < 53 + k {
                lemma_pow2_strictly_increases(len, (53 + k) as nat);
            }
            lemma_fundamental_div_mod(n as int, p as int);
            let limit = pow2(53);
            assert(floor < limit) by (nonlinear_arith)
                requires
                    n < limit * p,
                    p > 0,
                    n == p * floor + rest,
                    0 <= rest < p,
            ;
        }
        if rest > half || (rest == half && floor % 2 == 1) {
            (floor + 1) as u64
        } else {
            floor as u64
        }
    }
}

/// The pattern of the binary64 number nearest to `n * 2^e` units.
fn pack_rounded(n: u128, e: i64) -> (bits: u64)
    requires
        n < 0x8000_0000_0000_0000_0000_0000_0000_0000,
        -0x2000 <= e <= 0x2000,
    ensures
        bits == round_to_binary64(n as nat, e as int),
        bits <= INFINITY_BITS,
        bits <= (quantum(n as nat, e as int) + 2) * HIDDEN_BIT,
{
    if n == 0 {
        proof {
            lemma_zero_rounds_to_zero(e as int);
            assert(bit_length(0) == 0);
            lemma_zero_rounds_to_zero(e - 0);
        }
        return 0;
    }
    let len: i64 = bit_length_of(n) as i64;
    let top: i64 = len + e;
    let q: i64 = if top > 53 {
        top - 53
    } else {
        0
    };
    proof {
        lemma_scaled_length(n as nat, e as int);
        assert(quantum(n as nat, e as int) == q);
    }
    if q >= 2047 {
        proof {
            assert(q * HIDDEN_BIT >= 2047 * HIDDEN_BIT) by (nonlinear_arith)
                requires
                    q >= 2047,
            ;
        }
        return INFINITY_BITS;
    }
    proof {
        assert((q + 2) * HIDDEN_BIT == q * HIDDEN_BIT + 2 * HIDDEN_BIT) by (nonlinear_arith);
    }
    let m: u64 = round_scaled(n, e - q);
    proof {
        assert(q * HIDDEN_BIT <= 2046 * HIDDEN_BIT) by (nonlinear_arith)
            requires
                0 <= q <= 2046,
        ;
    }
    let pattern: u64 = (q as u64) * HIDDEN_BIT + m;
    if pattern >= INFINITY_BITS {
        INFINITY_BITS
    } else {
        pattern
    }
}

/// The significand and the scale of a pattern without a sign.
fn unpack(bits: u64) -> (r: (u64, i64))
    requires
        bits < 0x8000_0000_0000_0000,
    ensures
        r.0 == significand(bits),
        r.1 == scale(bits),
        r.0 < SIGNIFICAND_LIMIT,
        0 <= r.1 <= 2046,
        bits < INFINITY_BITS ==> r.1 <= 2045,
{
    let field: u64 = bits / HIDDEN_BIT;
    let fraction: u64 = bits % HIDDEN_BIT;
    if field == 0 {
        (fraction, 0)
    } else {
        (HIDDEN_BIT + fraction, (field - 1) as i64)
    }
}

/// A bound on the quantum of a product, from the scales of its factors.
pub open spec fn magnitude_limit(a: u64, b: u64) -> int {
    if scale(a) + scale(b) > 1021 {
        scale(a) + scale(b) - 1021
    } else {
        0
    }
}

/// A number below two to the power of `digits` has a quantum no larger than
/// its scale allows.
pub proof fn lemma_quantum_bound(n: nat, e: int, digits: nat)
    requires
        n < pow2(digits),
    ensures
        quantum(n, e) <= if digits + e > 53 {
            digits + e - 53
        } else {
            0
        },
{
    if n == 0 {
        lemma_zero_rounds_to_zero(e);
        assert(bit_length(0) == 0);
    } else {
        lemma_bit_length_bounds(n);
        if bit_length(n) > digits {
            if bit_length(n) - 1 > digits {
                lemma_pow2_strictly_increases(digits, (bit_length(n) - 1) as nat);
            }
        }
        lemma_scaled_length(n, e);
    }
}

/// The pattern of the product of two finite numbers that are not negative,
/// rounded once: the product of two numbers of units is a number of units
/// times two to the power of -1074.
pub open spec fn product(a: u64, b: u64) -> u64 {
    round_to_binary64(value(a) * value(b), -UNIT_PLACES)
}

/// Multiplies two finite numbers that are not negative.
pub fn multiply(a: u64, b: u64) -> (bits: u64)
    requires
        a < INFINITY_BITS,
        b < INFINITY_BITS,
    ensures
        bits == product(a, b),
        bits <= INFINITY_BITS,
        bits <= (magnitude_limit(a, b) + 2) * HIDDEN_BIT,
{
    let (ma, sa) = unpack(a);
    let (mb, sb) = unpack(b);
    proof {
        lemma2_to64();
        lemma2_to64_rest();
        lemma_pow2_adds(53, 53);
        assert(ma * mb < 0x0020_0000_0000_0000 * 0x0020_0000_0000_0000) by (nonlinear_arith)
            requires
                0 <= ma < 0x0020_0000_0000_0000,
                0 <= mb < 0x0020_0000_0000_0000,
        ;
        lemma_quantum_bound((ma * mb) as nat, sa + sb - UNIT_PLACES, 106);
    }
    let n: u128 = (ma as u128) * (mb as u128);
    proof {
        let q = quantum(n as nat, sa + sb - UNIT_PLACES);
        let limit = magnitude_limit(a, b);
        assert((q + 2) * HIDDEN_BIT <= (limit + 2) * HIDDEN_BIT) by (nonlinear_arith)
            requires
                0 <= q <= limit,
        ;
        let up = (sa + sb) as nat;
        lemma_round_shift(n as nat, up, sa + sb - UNIT_PLACES);
        lemma_pow2_adds(sa as nat, sb as nat);
        let pa = pow2(sa as nat);
        let pb = pow2(sb as nat);
        assert(value(a) * value(b) == n * pow2(up)) by (nonlinear_arith)
            requires
                value(a) == ma * pa,
                value(b) == mb * pb,
                pow2(up) == pa * pb,
                n == ma * mb,
        ;
    }
    pack_rounded(n, sa + sb - UNIT_PLACES)
}

/// The pattern of the number that `n` is, rounded where it has more than 53
/// digits.
pub open spec fn from_integer(n: u64) -> u64 {
    round_to_binary64(n as nat, UNIT_PLACES as int)
}

/// Converts an integer to the nearest binary64 number.
pub fn convert_integer(n: u64) -> (bits: u64)
    ensures
        bits == from_integer(n),
        bits <= 1087 * HIDDEN_BIT,
{
    proof {
        lemma2_to64();
        lemma_quantum_bound(n as nat, UNIT_PLACES as int, 64);
        assert((quantum(n as nat, UNIT_PLACES as int) + 2) * HIDDEN_BIT <= 1087 * HIDDEN_BIT)
            by (nonlinear_arith)
            requires
                quantum(n as nat, UNIT_PLACES as int) <= 1085,
        ;
    }
    pack_rounded(n as u128, UNIT_PLACES)
}

/// The pattern of one less the number `x`, which is no larger than one,
/// rounded once.
pub open spec fn complement(x: u64) -> u64 {
    round_to_binary64((pow2(UNIT_PLACES as nat) - value(x)) as nat, 0)
}

/// One less `x` at the scale of `x`, where one is `2^(1074 - scale)`.
proof fn lemma_complement_at_scale(x: u64)
    requires
        x <= ONE_BITS,
    ensures
        pow2((UNIT_PLACES - scale(x)) as nat) >= significand(x),
        complement(x) == round_to_binary64(
            (pow2((UNIT_PLACES - scale(x)) as nat) - significand(x)) as nat,
            scale(x),
        ),
{
    let m = significand(x);
    let s = scale(x) as nat;
    let g = (UNIT_PLACES - s) as nat;
    let whole = pow2(g);
    let p = pow2(s);
    lemma2_to64_rest();
    if g > 53 {
        lemma_pow2_strictly_increases(53, g);
    }
    lemma_pow2_adds(g, s);
    lemma_round_shift((whole - m) as nat, s, s as int);
    assert((whole - m) * p == pow2(UNIT_PLACES as nat) - m * p) by (nonlinear_arith)
        requires
            pow2(UNIT_PLACES as nat) == whole * p,
    ;
}

/// One less a number so small that the difference rounds to one.
proof fn lemma_complement_of_small(x: u64)
    requires
        x <= ONE_BITS,
        UNIT_PLACES - scale(x) > 120,
    ensures
        complement(x) == ONE_BITS,
{
    lemma_complement_at_scale(x);
    let m = significand(x);
    let s = scale(x);
    let g = (UNIT_PLACES - s) as nat;
    let whole = pow2(g);
    let n = (whole - m) as nat;
    lemma2_to64();
    lemma2_to64_rest();
    lemma_pow2_strictly_increases(54, (g - 53) as nat);
    lemma_pow2_strictly_increases(54, (g - 1) as nat);
    lemma_pow2_unfold(g);
    lemma_pow2_unfold((g + 1) as nat);
    if m == 0 {
        lemma_bit_length_unique(n, g + 1);
        lemma_scaled_length(n, s);
        assert(quantum(n, s) == 1022);
        let k = (g - 52) as nat;
        lemma_pow2_adds(52, k);
        lemma_pow2_pos(k);
        lemma_fundamental_div_mod_converse(n as int, pow2(k) as int, pow2(52) as int, 0);
        assert(scaled_round(n, s - 1022) == pow2(52));
    } else {
        lemma_bit_length_unique(n, g);
        lemma_scaled_length(n, s);
        assert(quantum(n, s) == 1021);
        let k = (g - 53) as nat;
        let step = pow2(k);
        lemma_pow2_adds(53, k);
        lemma_pow2_pos(k);
        assert(n == (pow2(53) - 1) * step + (step - m)) by (nonlinear_arith)
            requires
                n == whole - m,
                whole == pow2(53) * step,
        ;
        lemma_fundamental_div_mod_converse(
            n as int,
            step as int,
            pow2(53) - 1,
            step - m,
        );
        assert(scaled_round(n, s - 1021) == pow2(53));
    }
}

/// Subtracts from one a number that is not negative and no larger than one.
pub fn subtract_from_one(x: u64) -> (bits: u64)
    requires
        x <= ONE_BITS,
    ensures
        bits == complement(x),
        bits <= ONE_BITS,
{
    let (m, s) = unpack(x);
    let g: i64 = UNIT_PLACES - s;
    proof {
        lemma_complement_at_scale(x);
    }
    if g > 120 {
        proof {
            lemma_complement_of_small(x);
        }
        ONE_BITS
    } else {
        let whole: u128 = power_of_two(g as u32);
        proof {
            lemma_pow2_128();
            lemma_pow2_strictly_increases(g as nat, 127);
            lemma_quantum_bound((whole - m) as nat, s as int, g as nat);
            assert((quantum((whole - m) as nat, s as int) + 2) * HIDDEN_BIT <= 1023 * HIDDEN_BIT)
                by (nonlinear_arith)
                requires
                    quantum((whole - m) as nat, s as int) <= 1021,
            ;
        }
        pack_rounded(whole - m as u128, s)
    }
}

/// The integer nearest to a finite number that is not negative, a tie going
/// to the even one.
pub open spec fn nearest_integer(bits: u64) -> nat {
    scaled_round(value(bits), -UNIT_PLACES)
}

/// Two to the power of `d`, reduced modulo `count`.
fn power_of_two_modulo(d: i64, count: u64) -> (r: u64)
    requires
        d >= 0,
        count > 0,
    ensures
        r == pow2(d as nat) % (count as nat),
{
    proof {
        lemma2_to64();
    }
    let mut r: u64 = 1 % count;
    let mut i: i64 = 0;
    while i < d
        invariant
            0 <= i <= d,
            count > 0,
            r == pow2(i as nat) % (count as nat),
        decreases d - i,
    {
        proof {
            lemma_pow2_unfold((i + 1) as nat);
            lemma_mul_mod_noop_general(2, pow2(i as nat) as int, count as int);
            lemma_mod_bound(pow2(i as nat) as int, count as int);
        }
        r = ((2 * (r as u128)) % (count as u128)) as u64;
        i += 1;
    }
    r
}

/// Rounds a finite number that is not negative to the nearest integer, a
/// tie to the even one, and gives the remainder of that integer by `count`.
/// The integer itself may have more than a thousand digits; its remainder
/// is that of the product of the remainders of its significand and of its
/// power of two.
pub fn round_to_remainder(bits: u64, count: u64) -> (r: u64)
    requires
        bits < INFINITY_BITS,
        count > 0,
    ensures
        r == nearest_integer(bits) % (count as nat),
{
    let (m, s) = unpack(bits);
    let d: i64 = s - UNIT_PLACES;
    proof {
        lemma_scaled_shift(m as nat, s as nat, d as int);
    }
    if m == 0 {
        proof {
            lemma_zero_rounds_to_zero(d as int);
            lemma_small_mod(0, count as nat);
        }
        0
    } else if d >= 0 {
        let power: u64 = power_of_two_modulo(d, count);
        let held: u64 = m % count;
        proof {
            lemma_mul_mod_noop_general(m as int, pow2(d as nat) as int, count as int);
            lemma_mod_bound(pow2(d as nat) as int, count as int);
            assert(held * power < 0x1_0000_0000_0000_0000 * 0x1_0000_0000_0000_0000)
                by (nonlinear_arith)
                requires
                    0 <= held < 0x1_0000_0000_0000_0000,
                    0 <= power < 0x1_0000_0000_0000_0000,
            ;
        }
        (((held as u128) * (power as u128)) % (count as u128)) as u64
    } else {
        proof {
            lemma_significand_length(m as nat);
        }
        round_scaled(m as u128, d) % count
    }
}

/// Zero stays zero at every scale.
pub proof fn lemma_zero_rounds_to_zero(e: int)
    ensures
        scaled_round(0, e) == 0,
        scaled_floor(0, e) == 0,
{
    if e >= 0 {
        assert(0 * pow2(e as nat) == 0);
    } else {
        let p = pow2((-e) as nat);
        lemma_pow2_pos((-e) as nat);
        lemma_fundamental_div_mod_converse(0, p as int, 0, 0);
    }
}

/// A significand has no more than 53 digits.
proof fn lemma_significand_length(m: nat)
    requires
        0 < m < SIGNIFICAND_LIMIT,
    ensures
        bit_length(m) <= 53,
{
    lemma_bit_length_bounds(m);
    lemma2_to64_rest();
    if bit_length(m) > 53 {
        if bit_length(m) - 1 > 53 {
            lemma_pow2_strictly_increases(53, (bit_length(m) - 1) as nat);
        }
    }
}

/// Zero rounds to the pattern of zero at every scale.
pub proof fn lemma_round_zero(e: int)
    ensures
        round_to_binary64(0, e) == 0,
{
    lemma_zero_rounds_to_zero(e);
    assert(bit_length(0) == 0);
    lemma_zero_rounds_to_zero(e - 0);
}

/// The product of a number and zero is zero, and the integer nearest to
/// zero is zero.
pub proof fn lemma_product_with_zero(a: u64)
    ensures
        product(a, 0) == 0,
        nearest_integer(0) == 0,
{
    assert(value(0) == 0) by {
        assert(0 * pow2(0) == 0);
    }
    assert(value(a) * 0 == 0);
    lemma_round_zero(-UNIT_PLACES);
    lemma_zero_rounds_to_zero(-UNIT_PLACES);
}

} // verus!
