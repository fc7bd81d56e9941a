//! Position arrays from the logistic map: the order of a chaotic sequence.
//!
//! A sequence starts at a seed and goes on by the map `x -> r * x * (1 - x)`
//! with `r = 3.9999999`, in binary64 arithmetic: the product of `r` and `x`
//! is rounded, then one less `x`, then the product of the two. The position
//! array that a seed gives over `0..n` is the ranking of the first `n`
//! samples. A sample is held as the bit pattern of its number; of numbers
//! that are not negative the patterns ascend as the numbers do, so samples
//! are ranked as patterns.

use vstd::prelude::*;
use vstd::arithmetic::power2::{
    pow2,
    lemma_pow2_adds,
    lemma_pow2_pos,
    lemma_pow2_strictly_increases,
    lemma_pow2_unfold,
    lemma2_to64,
    lemma2_to64_rest,
};
use crate::binary64::bounds::{
    lemma_pattern_bound,
    lemma_rounding_error,
    lemma_rounds_above_zero,
    lemma_rounds_below_one,
    lemma_value_up_to_one,
};
use crate::binary64::{
    complement,
    lemma_quantum_bound,
    multiply,
    product,
    quantum,
    significand,
    subtract_from_one,
    value,
    HIDDEN_BIT,
    INFINITY_BITS,
    ONE_BITS,
    SIGNIFICAND_LIMIT,
    UNIT_PLACES,
};
use crate::permutation::is_permutation;
use crate::utils::ranking::{lemma_ranking_exists, rank_samples, ranking};

verus! {

/// The pattern of the growth rate of the map, 3.9999999.
pub const GROWTH_BITS: u64 = 0x400f_ffff_f294_06b3;

/// Whether `key` is the pattern of a number strictly between zero and one.
pub open spec fn is_unit_seed(key: u64) -> bool {
    0 < key < ONE_BITS
}

/// The sample that follows `x`. A sample above one is followed by zero,
/// where the map rests; a sequence that starts strictly between zero and one
/// holds no such sample, as `lemma_orbit_stays_in_unit_interval` shows.
pub open spec fn logistic_next(x: u64) -> u64 {
    if x > ONE_BITS {
        0
    } else {
        product(product(GROWTH_BITS, x), complement(x))
    }
}

/// Sample `k` of the sequence that starts at `seed`.
pub open spec fn orbit(seed: u64, k: nat) -> u64
    decreases k,
{
    if k == 0 {
        seed
    } else {
        logistic_next(orbit(seed, (k - 1) as nat))
    }
}

/// The first `n` samples of the sequence that starts at `seed`.
pub open spec fn logistic_samples(seed: u64, n: nat) -> Seq<u64> {
    Seq::new(n, |k: int| orbit(seed, k as nat))
}

/// The position array over `0..n` that `seed` gives.
pub open spec fn logistic_positions(seed: u64, n: nat) -> Seq<usize> {
    ranking(logistic_samples(seed, n))
}

/// A sequence that is taken up at its sample `a` goes on as it did.
pub proof fn lemma_orbit_continues(seed: u64, a: nat, b: nat)
    ensures
        orbit(orbit(seed, a), b) == orbit(seed, a + b),
    decreases b,
{
    if b > 0 {
        lemma_orbit_continues(seed, a, (b - 1) as nat);
    }
}

/// Every seed gives a position array over `0..n`.
pub proof fn lemma_logistic_positions_is_permutation(seed: u64, n: nat)
    requires
        n <= usize::MAX,
    ensures
        is_permutation(logistic_positions(seed, n), n),
{
    lemma_ranking_exists(logistic_samples(seed, n));
}

/// The sample that follows `x`.
pub fn logistic_step(x: u64) -> (y: u64)
    ensures
        y == logistic_next(x),
        y < INFINITY_BITS,
{
    if x > ONE_BITS {
        return 0;
    }
    let grown: u64 = multiply(GROWTH_BITS, x);
    let rest: u64 = subtract_from_one(x);
    multiply(grown, rest)
}

/// The position array over `0..n` that `seed` gives, and the seed at which
/// the sequence goes on after its `n` samples.
pub fn logistic_positions_chained(seed: u64, n: usize) -> (r: (Vec<usize>, u64))
    ensures
        r.0@ == logistic_positions(seed, n as nat),
        is_permutation(r.0@, n as nat),
        r.1 == orbit(seed, n as nat),
{
    let mut samples: Vec<u64> = Vec::with_capacity(n);
    let mut x: u64 = seed;
    let mut k: usize = 0;
    while k < n
        invariant
            k <= n,
            samples@ == logistic_samples(seed, k as nat),
            x == orbit(seed, k as nat),
        decreases n - k,
    {
        samples.push(x);
        x = logistic_step(x);
        k += 1;
        assert(samples@ =~= logistic_samples(seed, k as nat));
    }
    (rank_samples(samples.as_slice()), x)
}

/// The position array over `0..n` that the seed `key` gives: the same array
/// for the same seed and length, whenever and wherever it is asked for.
pub fn generate_logistic_positions(key: u64, n: usize) -> (positions: Vec<usize>)
    ensures
        positions@ == logistic_positions(key, n as nat),
        is_permutation(positions@, n as nat),
{
    logistic_positions_chained(key, n).0
}

/// The position arrays that one sequence gives one after the other, each
/// over `0..n`: array `r` ranks the samples from `r * n` on.
pub open spec fn chained_arrays(key: u64, n: nat) -> spec_fn(int) -> Seq<usize> {
    |r: int| logistic_positions(orbit(key, (r * n) as nat), n)
}

/// The bounds that rounding keeps in one step of the map from a sample `x`
/// that is no larger than one. The numbers are in units: `x`, the growth
/// rate, their rounded product and the rounded rest of one. A rounded number
/// is within one part in `2^53` of what was rounded, or, where it has no
/// hidden bit, within one unit.
spec fn step_is_bounded(x: u64) -> bool {
    let one = pow2(UNIT_PLACES as nat);
    let rate = value(GROWTH_BITS);
    let grown = value(product(GROWTH_BITS, x));
    let rest = value(complement(x));
    let wide = SIGNIFICAND_LIMIT as int;
    &&& product(GROWTH_BITS, x) < INFINITY_BITS
    &&& complement(x) < INFINITY_BITS
    &&& value(x) <= one
    &&& wide * rest <= (wide + 1) * (one - value(x))
    &&& (wide - 1) * (one - value(x)) <= wide * rest
    &&& grown <= wide || wide * (grown * one) <= (wide + 1) * (rate * value(x))
    &&& grown * one > rate * value(x) - one || (wide - 1) * (rate * value(x)) <= wide * (grown
        * one)
}

/// Rounding moves the numbers of a step by no more than their last place.
proof fn lemma_step_is_bounded(x: u64)
    requires
        x <= ONE_BITS,
    ensures
        step_is_bounded(x),
{
    let one = pow2(UNIT_PLACES as nat);
    let rate = value(GROWTH_BITS);
    let at = value(x);
    lemma_value_up_to_one(x);
    lemma2_to64();
    lemma2_to64_rest();
    lemma_pow2_pos(UNIT_PLACES as nat);
    // One less `x`.
    let left = (one - at) as nat;
    lemma_pow2_unfold(1075);
    lemma_quantum_bound(left, 0, 1075);
    lemma_pattern_bound(left, 0);
    assert((quantum(left, 0) + 2) * HIDDEN_BIT <= 1024 * HIDDEN_BIT) by (nonlinear_arith)
        requires
            quantum(left, 0) <= 1022,
    ;
    lemma_rounding_error(left, 0);
    let rest = value(complement(x));
    assert(rest * pow2(0) == rest);
    // The growth rate times `x`.
    let exact = rate * at;
    lemma_pow2_adds(53, 1023);
    lemma_pow2_adds(1076, 1074);
    lemma_pow2_pos(1023);
    assert(rate == significand(GROWTH_BITS) * pow2(1023));
    assert(exact < pow2(2150)) by (nonlinear_arith)
        requires
            exact == rate * at,
            rate == significand(GROWTH_BITS) * pow2(1023),
            significand(GROWTH_BITS) < pow2(53),
            pow2(1076) == pow2(53) * pow2(1023),
            pow2(2150) == pow2(1076) * one,
            0 <= at <= one,
            pow2(1023) > 0,
            one > 0,
    ;
    lemma_quantum_bound(exact, -UNIT_PLACES, 2150);
    lemma_pattern_bound(exact, -UNIT_PLACES);
    assert((quantum(exact, -UNIT_PLACES) + 2) * HIDDEN_BIT <= 1025 * HIDDEN_BIT) by (nonlinear_arith)
        requires
            quantum(exact, -UNIT_PLACES) <= 1023,
    ;
    lemma_rounding_error(exact, UNIT_PLACES as nat);
    let grown = value(product(GROWTH_BITS, x));
    if quantum(exact, -UNIT_PLACES) == 0 {
        vstd::arithmetic::div_mod::lemma_fundamental_div_mod(exact as int, one as int);
        assert(grown * one > exact - one) by (nonlinear_arith)
            requires
                grown >= exact / one,
                exact == one * (exact / one) + exact % one,
                exact % one < one,
                one > 0,
        ;
    }
}

/// Four times the product of two parts of a whole is no more than its square.
proof fn lemma_parts_of_a_whole(x: int, whole: int)
    by (nonlinear_arith)
    requires
        0 <= x <= whole,
    ensures
        4 * (x * (whole - x)) <= whole * whole,
{
    assert((whole - 2 * x) * (whole - 2 * x) >= 0);
}

/// The product of two bounds bounds the product.
proof fn lemma_bounds_multiply(a: int, b: int, c: int, d: int)
    by (nonlinear_arith)
    requires
        0 <= a <= b,
        0 <= c <= d,
    ensures
        a * c <= b * d,
{
}

/// A sample that is no larger than one is followed by a sample below one.
pub proof fn lemma_next_below_one(x: u64)
    requires
        x <= ONE_BITS,
    ensures
        logistic_next(x) < ONE_BITS,
{
    let one = pow2(UNIT_PLACES as nat) as int;
    let rate = value(GROWTH_BITS) as int;
    let at = value(x) as int;
    let grown = value(product(GROWTH_BITS, x)) as int;
    let rest = value(complement(x)) as int;
    let wide = SIGNIFICAND_LIMIT as int;
    let small = pow2(1021) as int;
    lemma_step_is_bounded(x);
    lemma2_to64();
    lemma2_to64_rest();
    lemma_pow2_pos(UNIT_PLACES as nat);
    lemma_pow2_pos(1021);
    lemma_pow2_adds(2, 1021);
    lemma_pow2_adds(53, 1021);
    assert(rate == significand(GROWTH_BITS) * pow2(1023));
    let limit = (wide - 0x0800_0000) * (small * one);
    lemma_pow2_strictly_increases(53, 1021);
    if grown <= wide {
        // The product is so small that no bound on the other factor is needed.
        assert(rest <= 2 * one);
        assert(grown * rest < limit) by (nonlinear_arith)
            requires
                0 <= grown <= wide,
                0 <= rest <= 2 * one,
                limit == (wide - 0x0800_0000) * (small * one),
                small >= 0x0020_0000_0000_0000,
                wide == 0x0020_0000_0000_0000,
                one > 0,
        ;
    } else {
        let away = one - at;
        lemma_parts_of_a_whole(at, one);
        assert(rate * at >= 0 && grown * one >= 0) by (nonlinear_arith)
            requires
                rate >= 0,
                at >= 0,
                grown >= 0,
                one >= 0,
        ;
        assert((wide + 1) * (rate * at) >= 0 && (wide + 1) * away >= 0) by (nonlinear_arith)
            requires
                rate * at >= 0,
                away >= 0,
                wide >= 0,
        ;
        lemma_bounds_multiply(
            wide * (grown * one),
            (wide + 1) * (rate * at),
            wide * rest,
            (wide + 1) * away,
        );
        let sig = significand(GROWTH_BITS) as int;
        // Both sides hold the whole once; without it, the product of the
        // two factors is bounded by the growth rate.
        assert(wide * wide * (grown * rest) * 4 <= (wide + 1) * (wide + 1) * rate * one)
            by (nonlinear_arith)
            requires
                (wide * (grown * one)) * (wide * rest) <= ((wide + 1) * (rate * at)) * ((wide + 1)
                    * away),
                4 * (at * away) <= one * one,
                one > 0,
                rate >= 0,
                wide >= 0,
                at >= 0,
                away >= 0,
                grown >= 0,
                rest >= 0,
        ;
        assert(grown * rest < limit) by (nonlinear_arith)
            requires
                wide * wide * (grown * rest) * 4 <= (wide + 1) * (wide + 1) * rate * one,
                rate == sig * (4 * small),
                sig == 0x001f_ffff_f294_06b3,
                wide == 0x0020_0000_0000_0000,
                limit == (wide - 0x0800_0000) * (small * one),
                small > 0,
                one > 0,
        ;
    }
    lemma_rounds_below_one((grown * rest) as nat);
}

/// A sample strictly between zero and one is followed by a sample that is
/// not zero.
pub proof fn lemma_next_above_zero(x: u64)
    requires
        is_unit_seed(x),
    ensures
        logistic_next(x) > 0,
{
    let one = pow2(UNIT_PLACES as nat) as int;
    let rate = value(GROWTH_BITS) as int;
    let at = value(x) as int;
    let grown = value(product(GROWTH_BITS, x)) as int;
    let rest = value(complement(x)) as int;
    let wide = SIGNIFICAND_LIMIT as int;
    let small = pow2(1021) as int;
    let sig = significand(GROWTH_BITS) as int;
    lemma_step_is_bounded(x);
    lemma_value_up_to_one(x);
    lemma2_to64();
    lemma2_to64_rest();
    lemma_pow2_pos(UNIT_PLACES as nat);
    lemma_pow2_pos(1021);
    lemma_pow2_adds(2, 1021);
    lemma_pow2_adds(53, 1021);
    assert(rate == sig * pow2(1023));
    assert(one == wide * small);
    assert(rate == sig * (4 * small));
    let away = one - at;
    if 2 * at < one {
        // Less than a half: what is left of one is more than a third, and
        // the growth rate makes three units or more of one.
        assert(3 * rest >= one);
        assert(rate * at >= 3 * one) by (nonlinear_arith)
            requires
                rate == sig * (4 * small),
                one == wide * small,
                sig == 0x001f_ffff_f294_06b3,
                wide == 0x0020_0000_0000_0000,
                at >= 1,
                small > 0,
        ;
        if grown * one > rate * at - one {
            assert(grown >= 3) by (nonlinear_arith)
                requires
                    grown * one > rate * at - one,
                    rate * at >= 3 * one,
                    one > 0,
                    grown >= 0,
            ;
        } else {
            assert(wide * (grown * one) == (wide * grown) * one) by (nonlinear_arith);
            assert((wide * grown) * one >= (3 * wide - 3) * one) by (nonlinear_arith)
                requires
                    (wide - 1) * (rate * at) <= (wide * grown) * one,
                    rate * at >= 3 * one,
                    wide >= 1,
            ;
            assert(wide * grown >= 3 * wide - 3) by (nonlinear_arith)
                requires
                    (wide * grown) * one >= (3 * wide - 3) * one,
                    one > 0,
            ;
        }
        assert(grown * rest >= one) by (nonlinear_arith)
            requires
                grown >= 3,
                3 * rest >= one,
                rest >= 0,
        ;
    } else {
        // A half or more: the growth rate makes one or more of it, and what
        // is left of one is a unit or more.
        assert(rest >= 1);
        assert(2 * (rate * at) >= rate * one) by (nonlinear_arith)
            requires
                2 * at >= one,
                rate >= 0,
        ;
        assert(grown >= one) by (nonlinear_arith)
            requires
                grown * one > rate * at - one || (wide - 1) * (rate * at) <= wide * (grown * one),
                2 * (rate * at) >= rate * one,
                rate == sig * (4 * small),
                one == wide * small,
                sig == 0x001f_ffff_f294_06b3,
                wide == 0x0020_0000_0000_0000,
                small > 0,
                grown >= 0,
        ;
        assert(grown * rest >= one) by (nonlinear_arith)
            requires
                grown >= one,
                rest >= 1,
                one >= 0,
        ;
    }
    lemma_rounds_above_zero((grown * rest) as nat);
}

/// The sample that follows one strictly between zero and one lies strictly
/// between zero and one.
pub proof fn lemma_unit_interval_is_kept(x: u64)
    requires
        is_unit_seed(x),
    ensures
        is_unit_seed(logistic_next(x)),
{
    lemma_next_below_one(x);
    lemma_next_above_zero(x);
}

/// Every sample of a sequence that starts strictly between zero and one lies
/// strictly between zero and one.
pub proof fn lemma_orbit_stays_in_unit_interval(seed: u64, k: nat)
    requires
        is_unit_seed(seed),
    ensures
        is_unit_seed(orbit(seed, k)),
    decreases k,
{
    if k > 0 {
        lemma_orbit_stays_in_unit_interval(seed, (k - 1) as nat);
        lemma_unit_interval_is_kept(orbit(seed, (k - 1) as nat));
    }
}

} // verus!
