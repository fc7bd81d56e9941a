//! The laws of rounding: a number is rounded to the nearest binary64 number,
//! a binary64 number to itself, and how far rounding moves a number.

use vstd::prelude::*;
use vstd::arithmetic::power2::{
    pow2,
    lemma_pow2_adds,
    lemma_pow2_pos,
    lemma_pow2_strictly_increases,
    lemma_pow2_unfold,
    lemma2_to64,
    lemma2_to64_rest,
};
use vstd::arithmetic::div_mod::{lemma_fundamental_div_mod, lemma_fundamental_div_mod_converse};
use crate::binary64::{
    bit_length,
    lemma_bit_length_bounds,
    lemma_bit_length_unique,
    lemma_quantum_bound,
    lemma_round_shift,
    lemma_scaled_length,
    lemma_zero_rounds_to_zero,
    quantum,
    round_nearest_even,
    round_to_binary64,
    scale,
    scaled_floor,
    scaled_round,
    significand,
    value,
    HIDDEN_BIT,
    INFINITY_BITS,
    ONE_BITS,
    SIGNIFICAND_LIMIT,
    UNIT_PLACES,
};

verus! {

/// Rounding to the nearest integer moves a number by half a step at most.
pub proof fn lemma_nearest_error(n: nat, d: nat)
    requires
        d > 0,
    ensures
        2 * (round_nearest_even(n, d) * d) <= 2 * n + d,
        2 * n <= 2 * (round_nearest_even(n, d) * d) + d,
        n / d <= round_nearest_even(n, d) <= n / d + 1,
{
    lemma_fundamental_div_mod(n as int, d as int);
    let q = n / d;
    let r = n % d;
    assert((q + 1) * d == q * d + d && q * d == d * q) by (nonlinear_arith);
}

/// What is rounded lies between the number rounded down and one more.
pub proof fn lemma_round_near_floor(n: nat, e: int)
    ensures
        scaled_floor(n, e) <= scaled_round(n, e) <= scaled_floor(n, e) + 1,
{
    if e < 0 {
        lemma_pow2_pos((-e) as nat);
        lemma_nearest_error(n, pow2((-e) as nat));
    }
}

/// The rounded significand does not exceed two to the power of 53, and
/// above the quantum zero it has its hidden bit.
pub proof fn lemma_rounded_significand(n: nat, e: int)
    ensures
        scaled_round(n, e - quantum(n, e)) <= SIGNIFICAND_LIMIT,
        quantum(n, e) > 0 ==> scaled_round(n, e - quantum(n, e)) >= HIDDEN_BIT,
{
    let q = quantum(n, e);
    lemma2_to64_rest();
    if n == 0 {
        lemma_zero_rounds_to_zero(e);
        assert(bit_length(0) == 0);
        lemma_zero_rounds_to_zero(e - q);
    } else {
        lemma_scaled_length(n, e);
        lemma_scaled_length(n, e - q);
        lemma_round_near_floor(n, e - q);
        let floor = scaled_floor(n, e - q);
        if floor > 0 {
            lemma_bit_length_bounds(floor);
            if bit_length(floor) < 53 {
                lemma_pow2_strictly_increases(bit_length(floor), 53);
            }
        }
    }
}

/// The number that a rounded pattern stands for: the rounded significand at
/// the quantum.
pub proof fn lemma_value_of_rounded(n: nat, e: int)
    requires
        round_to_binary64(n, e) < INFINITY_BITS,
    ensures
        value(round_to_binary64(n, e)) == scaled_round(n, e - quantum(n, e)) * pow2(quantum(n, e)),
        round_to_binary64(n, e) == quantum(n, e) * HIDDEN_BIT + scaled_round(
            n,
            e - quantum(n, e),
        ),
{
    let q = quantum(n, e);
    let m = scaled_round(n, e - q);
    let r = round_to_binary64(n, e);
    lemma_rounded_significand(n, e);
    lemma2_to64();
    assert(r == q * HIDDEN_BIT + m);
    if m < HIDDEN_BIT {
        assert(q == 0);
        assert(r == m);
        assert(m * pow2(0) == m);
    } else if m < SIGNIFICAND_LIMIT {
        assert(r == (q + 1) * HIDDEN_BIT + (m - HIDDEN_BIT)) by (nonlinear_arith)
            requires
                r == q * HIDDEN_BIT + m,
        ;
        lemma_fundamental_div_mod_converse(r as int, HIDDEN_BIT as int, (q + 1) as int, m - HIDDEN_BIT);
    } else {
        assert(r == (q + 2) * HIDDEN_BIT + 0) by (nonlinear_arith)
            requires
                r == q * HIDDEN_BIT + m,
                m == 2 * HIDDEN_BIT,
        ;
        lemma_fundamental_div_mod_converse(r as int, HIDDEN_BIT as int, (q + 2) as int, 0);
        lemma_pow2_unfold(q + 1);
        assert(HIDDEN_BIT * pow2(q + 1) == m * pow2(q)) by (nonlinear_arith)
            requires
                pow2(q + 1) == 2 * pow2(q),
                m == 2 * HIDDEN_BIT,
        ;
    }
}

/// A pattern is bounded by its quantum.
pub proof fn lemma_pattern_bound(n: nat, e: int)
    ensures
        round_to_binary64(n, e) <= (quantum(n, e) + 2) * HIDDEN_BIT,
{
    lemma_rounded_significand(n, e);
    let q = quantum(n, e);
    assert((q + 2) * HIDDEN_BIT == q * HIDDEN_BIT + 2 * HIDDEN_BIT) by (nonlinear_arith);
}

/// Rounding `n * 2^-k` units moves it by half a step of the quantum at most,
/// and above the quantum zero a step is no more than `2^-52` of the number.
pub proof fn lemma_rounding_error(n: nat, k: nat)
    requires
        round_to_binary64(n, -k) < INFINITY_BITS,
    ensures
        ({
            let v = value(round_to_binary64(n, -k));
            let step = pow2(quantum(n, -k) + k);
            &&& 2 * (v * pow2(k)) <= 2 * n + step
            &&& 2 * n <= 2 * (v * pow2(k)) + step
            &&& quantum(n, -k) > 0 ==> step * HIDDEN_BIT <= n
            &&& quantum(n, -k) == 0 ==> v <= SIGNIFICAND_LIMIT && v >= n / pow2(k)
        }),
{
    let q = quantum(n, -k);
    let m = scaled_round(n, -k - q);
    let v = value(round_to_binary64(n, -k));
    let step = pow2(q + k);
    let unit = pow2(k);
    lemma_value_of_rounded(n, -k);
    lemma_rounded_significand(n, -k);
    lemma_pow2_adds(q, k);
    lemma_pow2_pos(k);
    lemma_pow2_pos(q + k);
    lemma2_to64();
    assert(v * unit == m * step) by (nonlinear_arith)
        requires
            v == m * pow2(q),
            step == pow2(q) * unit,
    ;
    if q + k == 0 {
        assert(m == n * pow2(0));
        assert(n / 1 == n);
    } else {
        lemma_nearest_error(n, step);
    }
    if q > 0 {
        let floor = scaled_floor(n, -(k as int));
        assert(bit_length(floor) == q + 53);
        assert(floor > 0) by {
            assert(bit_length(0) == 0);
        }
        lemma_bit_length_bounds(floor);
        lemma_pow2_adds(52, q);
        lemma2_to64_rest();
        if k > 0 {
            lemma_fundamental_div_mod(n as int, unit as int);
        } else {
            assert(floor == n * pow2(0));
        }
        assert(step * HIDDEN_BIT <= n) by (nonlinear_arith)
            requires
                HIDDEN_BIT * pow2(q) <= floor,
                floor * unit <= n,
                step == pow2(q) * unit,
                unit > 0,
        ;
    } else {
        if k > 0 {
            assert(m == round_nearest_even(n, unit));
            assert(m * pow2(0) == m);
        }
    }
}

/// The numbers up to one have the patterns up to the pattern of one.
pub proof fn lemma_value_up_to_one(x: u64)
    requires
        x <= ONE_BITS,
    ensures
        value(x) <= pow2(UNIT_PLACES as nat),
        x < ONE_BITS ==> value(x) + pow2(1021) <= pow2(UNIT_PLACES as nat),
        x > 0 ==> value(x) >= 1,
        x == 0 ==> value(x) == 0,
{
    let m = significand(x);
    let s = scale(x) as nat;
    lemma2_to64();
    lemma2_to64_rest();
    lemma_pow2_pos(s);
    lemma_pow2_adds(53, 1021);
    lemma_pow2_adds(52, 1022);
    if s < 1021 {
        lemma_pow2_strictly_increases(s, 1021);
    }
    if x == ONE_BITS {
        assert(m == pow2(52) && s == 1022);
    } else {
        assert(s <= 1021);
        assert(m <= pow2(53) - 1);
        assert(m * pow2(s) + pow2(1021) <= pow2(53) * pow2(1021)) by (nonlinear_arith)
            requires
                m <= pow2(53) - 1,
                pow2(s) <= pow2(1021),
        ;
    }
    if x > 0 {
        assert(m >= 1);
        assert(m * pow2(s) >= 1) by (nonlinear_arith)
            requires
                m >= 1,
                pow2(s) >= 1,
        ;
    } else {
        assert(0 * pow2(0) == 0);
    }
}

/// A product whose factors give less than `(2^53 - 2^27) * 2^1021` units
/// rounds to a number below one.
pub proof fn lemma_rounds_below_one(n: nat)
    requires
        n < (SIGNIFICAND_LIMIT - 0x0800_0000) * (pow2(1021) * pow2(UNIT_PLACES as nat)),
    ensures
        round_to_binary64(n, -UNIT_PLACES) < ONE_BITS,
{
    let limit = (SIGNIFICAND_LIMIT - 0x0800_0000) as int;
    let step = pow2(1021) * pow2(UNIT_PLACES as nat);
    lemma2_to64_rest();
    lemma_pow2_adds(1021, UNIT_PLACES as nat);
    lemma_pow2_adds(53, 2095);
    lemma_pow2_pos(2095);
    assert(n < pow2(2148)) by (nonlinear_arith)
        requires
            n < limit * step,
            limit < pow2(53),
            pow2(2148) == pow2(53) * step,
            step > 0,
    ;
    lemma_quantum_bound(n, -UNIT_PLACES, 2148);
    lemma_pattern_bound(n, -UNIT_PLACES);
    let q = quantum(n, -UNIT_PLACES);
    if q < 1021 {
        assert((q + 2) * HIDDEN_BIT <= 1022 * HIDDEN_BIT) by (nonlinear_arith)
            requires
                q <= 1020,
        ;
    } else {
        assert((q + 2) * HIDDEN_BIT == 1023 * HIDDEN_BIT);
        lemma_value_of_rounded(n, -UNIT_PLACES);
        lemma_nearest_error(n, step);
        lemma_fundamental_div_mod(n as int, step as int);
        assert(n / step < limit) by (nonlinear_arith)
            requires
                n < limit * step,
                step > 0,
                n == step * (n / step) + n % step,
                0 <= n % step,
        ;
    }
}

/// A product whose factors give one unit or more does not round to zero.
pub proof fn lemma_rounds_above_zero(n: nat)
    requires
        n >= pow2(UNIT_PLACES as nat),
    ensures
        round_to_binary64(n, -UNIT_PLACES) > 0,
{
    let unit = pow2(UNIT_PLACES as nat);
    lemma_pow2_pos(UNIT_PLACES as nat);
    lemma_round_near_floor(n, -UNIT_PLACES);
    lemma_fundamental_div_mod(n as int, unit as int);
    assert(n / unit >= 1) by (nonlinear_arith)
        requires
            n >= unit,
            unit > 0,
            n == unit * (n / unit) + n % unit,
            n % unit < unit,
    ;
    let q = quantum(n, -UNIT_PLACES);
    if q > 0 {
        assert(q * HIDDEN_BIT >= HIDDEN_BIT) by (nonlinear_arith)
            requires
                q >= 1,
        ;
    }
}

/// How far two numbers are apart.
pub open spec fn distance(a: int, b: int) -> int {
    if a >= b {
        a - b
    } else {
        b - a
    }
}

/// A number halfway between two integers is rounded to the even one.
pub proof fn lemma_tie_goes_to_even(n: nat, d: nat)
    requires
        d > 0,
        2 * (n % d) == d,
    ensures
        round_nearest_even(n, d) % 2 == 0,
{
}

/// No multiple of `d` is nearer to `n` than the one it is rounded to.
pub proof fn lemma_nearest_multiple(n: nat, d: nat, c: int)
    requires
        d > 0,
    ensures
        distance((round_nearest_even(n, d) * d) as int, n as int) <= distance(c * d, n as int),
{
    let m = round_nearest_even(n, d) as int;
    lemma_nearest_error(n, d);
    if c > m {
        assert(c * d >= m * d + d) by (nonlinear_arith)
            requires
                c >= m + 1,
                d > 0,
        ;
    } else if c < m {
        assert(c * d <= m * d - d) by (nonlinear_arith)
            requires
                c <= m - 1,
                d > 0,
        ;
    }
}

/// Rounding gives the nearest binary64 number: no finite binary64 number
/// that is not negative is nearer to `n * 2^-k` units than the one that
/// `round_to_binary64` gives.
pub proof fn lemma_rounds_to_nearest(n: nat, k: nat, b: u64)
    requires
        round_to_binary64(n, -k) < INFINITY_BITS,
        b < INFINITY_BITS,
    ensures
        distance((value(round_to_binary64(n, -k)) * pow2(k)) as int, n as int) <= distance(
            (value(b) * pow2(k)) as int,
            n as int,
        ),
{
    let q = quantum(n, -k);
    let m = scaled_round(n, -k - q);
    let v = value(round_to_binary64(n, -k));
    let step = pow2(q + k);
    let unit = pow2(k);
    let held = significand(b);
    let at = scale(b) as nat;
    let other = value(b);
    lemma_value_of_rounded(n, -k);
    lemma_rounding_error(n, k);
    lemma_pow2_adds(q, k);
    lemma_pow2_pos(k);
    lemma_pow2_pos(q);
    lemma_pow2_pos(q + k);
    lemma2_to64();
    lemma2_to64_rest();
    assert(v * unit == m * step) by (nonlinear_arith)
        requires
            v == m * pow2(q),
            step == pow2(q) * unit,
    ;
    if q + k == 0 {
        assert(m == n * pow2(0));
        assert(v * unit == n);
    } else if at >= q {
        // The other number is a multiple of the quantum as well.
        let c = held * pow2((at - q) as nat);
        lemma_pow2_adds((at - q) as nat, q);
        assert(other * unit == c * step) by (nonlinear_arith)
            requires
                other == held * pow2(at),
                pow2(at) == pow2((at - q) as nat) * pow2(q),
                c == held * pow2((at - q) as nat),
                step == pow2(q) * unit,
        ;
        lemma_nearest_multiple(n, step, c as int);
    } else {
        // The other number lies below the least number of this quantum,
        // which is a multiple of the quantum and not above what is rounded.
        if at < q - 1 {
            lemma_pow2_strictly_increases(at, (q - 1) as nat);
        }
        lemma_pow2_unfold(q);
        assert(held < SIGNIFICAND_LIMIT);
        assert(other * unit <= HIDDEN_BIT * step) by (nonlinear_arith)
            requires
                other == held * pow2(at),
                held < 2 * HIDDEN_BIT,
                pow2(at) <= pow2((q - 1) as nat),
                pow2(q) == 2 * pow2((q - 1) as nat),
                step == pow2(q) * unit,
                unit > 0,
        ;
        lemma_nearest_multiple(n, step, HIDDEN_BIT as int);
        assert(step * HIDDEN_BIT == HIDDEN_BIT * step) by (nonlinear_arith);
    }
}

/// A binary64 number is rounded to itself.
pub proof fn lemma_rounds_to_itself(b: u64)
    requires
        b < INFINITY_BITS,
    ensures
        round_to_binary64(value(b), 0) == b,
{
    let held = significand(b);
    let at = scale(b) as nat;
    lemma_round_shift(held, at, at as int);
    lemma2_to64();
    lemma2_to64_rest();
    if held == 0 {
        lemma_zero_rounds_to_zero(at as int);
        assert(bit_length(0) == 0);
        lemma_zero_rounds_to_zero(at as int - 0);
    } else {
        lemma_scaled_length(held, at as int);
        if b / HIDDEN_BIT == 0 {
            lemma_bit_length_bounds(held);
            if bit_length(held) > 52 {
                if bit_length(held) - 1 > 52 {
                    lemma_pow2_strictly_increases(52, (bit_length(held) - 1) as nat);
                }
            }
            assert(quantum(held, at as int) == 0);
            assert(held * pow2(0) == held);
        } else {
            lemma_bit_length_unique(held, 53);
            assert(quantum(held, at as int) == at);
            assert(held * pow2(0) == held);
            assert(b == (b / HIDDEN_BIT) * HIDDEN_BIT + b % HIDDEN_BIT) by {
                lemma_fundamental_div_mod(b as int, HIDDEN_BIT as int);
            }
            assert(at * HIDDEN_BIT + held == b) by (nonlinear_arith)
                requires
                    at == b / HIDDEN_BIT - 1,
                    held == HIDDEN_BIT + b % HIDDEN_BIT,
                    b == (b / HIDDEN_BIT) * HIDDEN_BIT + b % HIDDEN_BIT,
            ;
        }
    }
}

} // verus!
