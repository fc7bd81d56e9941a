//! The curve scramble: pixels are moved along a space-filling curve by a
//! number of steps that the key gives.
//!
//! With `N` the number of pixels, the offset is the golden-ratio fraction
//! `(sqrt(5) - 1) / 2` times `N` times the key, rounded to the nearest
//! integer, a tie to the even one, and reduced modulo `N` to a number from
//! zero up to `N - 1`: a negative product of the remainder `r` above zero
//! gives `N - r`. The products are binary64 products, the fraction first
//! with `N`, then with the key, and the rounded product is reduced as the
//! integer that it is, however large.
//!
//! A product that is no finite number has no remainder. A key that is not a
//! number moves nothing, nor does a product that is infinite and negative;
//! one that is infinite and positive moves as the largest 64-bit number does.
//!
//! Encryption moves the pixel at place `t` of the curve to place
//! `t + offset`, and past the end of the curve on to its start; decryption
//! moves it back.

use vstd::prelude::*;
use vstd::arithmetic::div_mod::{
    lemma_add_mod_noop,
    lemma_fundamental_div_mod,
    lemma_fundamental_div_mod_converse,
    lemma_mod_bound,
    lemma_small_mod,
};
use crate::binary64::{
    convert_integer,
    from_integer,
    lemma_product_with_zero,
    multiply,
    nearest_integer,
    product,
    round_to_remainder,
    INFINITY_BITS,
    SIGN_BIT,
};
use crate::error::{check_dimensions, valid_dimensions, ScrambleError};
use crate::permutation::{
    gather,
    gather_through,
    lemma_gather_scatter,
    lemma_permutation_covers,
    lemma_position_of_entry,
    lemma_rotated_by_nothing,
    lemma_rotated_is_permutation,
    lemma_scatter_gather,
    position_of,
    rotated,
    scatter,
    scatter_through,
};
use crate::utils::gilbert::{curve, gilbert2d, lemma_curve_is_permutation};

verus! {

/// The pattern of the golden-ratio fraction, `(sqrt(5) - 1) / 2`.
pub const GOLDEN_BITS: u64 = 0x3fe3_c6ef_372f_e950;

/// Whether the pattern `key` carries a sign.
pub open spec fn is_negative(key: u64) -> bool {
    key >= SIGN_BIT
}

/// The pattern `key` without its sign.
pub open spec fn magnitude_of(key: u64) -> u64 {
    if key >= SIGN_BIT {
        (key - SIGN_BIT) as u64
    } else {
        key
    }
}

/// The pattern of the product of the golden-ratio fraction, `count` and a
/// number that is not negative: the fraction times `count` is rounded, then
/// the product of that and the number. An infinite number gives an infinite
/// product.
pub open spec fn golden_product(count: u64, magnitude: u64) -> u64 {
    if magnitude >= INFINITY_BITS {
        INFINITY_BITS
    } else {
        product(product(GOLDEN_BITS, from_integer(count)), magnitude)
    }
}

/// The remainder of the integer `n`, taken negative where `negative` says
/// so, by `count`: the number from zero up to `count - 1` that differs from
/// it by a multiple of `count`.
pub open spec fn signed_remainder(n: nat, negative: bool, count: u64) -> nat {
    if negative {
        ((-(n as int)) % (count as int)) as nat
    } else {
        n % (count as nat)
    }
}

/// The offset that a product gives, the product being the pattern `p` of
/// its size and its sign: the remainder of the rounded product by `count`.
/// An infinite product gives zero where it is negative, else the remainder
/// of the largest 64-bit number.
pub open spec fn offset_of_product(p: u64, negative: bool, count: u64) -> nat {
    if p >= INFINITY_BITS {
        if negative {
            0
        } else {
            (u64::MAX % count) as nat
        }
    } else {
        signed_remainder(nearest_integer(p), negative, count)
    }
}

/// The number of steps by which the key moves the pixels of an image of
/// `count` pixels along the curve.
pub open spec fn rotation_offset(count: u64, key: u64) -> nat {
    if magnitude_of(key) > INFINITY_BITS {
        0
    } else {
        offset_of_product(golden_product(count, magnitude_of(key)), is_negative(key), count)
    }
}

/// The remainder of a negative integer is what its size lacks of the next
/// multiple.
pub proof fn lemma_signed_remainder(n: nat, negative: bool, count: u64)
    requires
        count > 0,
    ensures
        0 <= signed_remainder(n, negative, count) < count,
        negative ==> signed_remainder(n, negative, count) == if n % (count as nat) == 0 {
            0
        } else {
            count - n % (count as nat)
        },
        (signed_remainder(n, true, count) + signed_remainder(n, false, count)) % (count as nat)
            == 0,
{
    let c = count as int;
    let q = (n as int) / c;
    let r = (n as int) % c;
    lemma_fundamental_div_mod(n as int, c);
    lemma_mod_bound(n as int, c);
    if r == 0 {
        assert(-(n as int) == (-q) * c + 0) by (nonlinear_arith)
            requires
                n == c * q + r,
                r == 0,
        ;
        lemma_fundamental_div_mod_converse(-(n as int), c, -q, 0);
        lemma_small_mod(0, count as nat);
    } else {
        assert(-(n as int) == (-q - 1) * c + (c - r)) by (nonlinear_arith)
            requires
                n == c * q + r,
        ;
        lemma_fundamental_div_mod_converse(-(n as int), c, -q - 1, c - r);
        assert(c == 1 * c + 0);
        lemma_fundamental_div_mod_converse(c, c, 1, 0);
    }
}

/// The offset is below the number of pixels, whatever the key.
pub proof fn lemma_rotation_offset_in_range(count: u64, key: u64)
    requires
        count > 0,
    ensures
        0 <= rotation_offset(count, key) < count,
{
    let p = golden_product(count, magnitude_of(key));
    lemma_mod_bound(u64::MAX as int, count as int);
    if p < INFINITY_BITS {
        lemma_signed_remainder(nearest_integer(p), is_negative(key), count);
    }
}

/// The key zero moves nothing.
pub proof fn lemma_zero_key_offset(count: u64)
    requires
        count > 0,
    ensures
        rotation_offset(count, 0) == 0,
{
    let scaled = product(GOLDEN_BITS, from_integer(count));
    lemma_product_with_zero(scaled);
    assert(golden_product(count, 0) == 0);
    lemma_small_mod(0, count as nat);
}

/// A key and the key with the other sign move by offsets that make up a
/// whole turn, where their product is finite.
pub proof fn lemma_opposite_keys(count: u64, key: u64)
    requires
        count > 0,
        key < INFINITY_BITS,
        golden_product(count, key) < INFINITY_BITS,
    ensures
        (rotation_offset(count, key) + rotation_offset(count, (key + SIGN_BIT) as u64)) % (
        count as nat) == 0,
{
    lemma_signed_remainder(nearest_integer(golden_product(count, key)), true, count);
}

/// What encryption makes of `pixels`: the pixel at place `t` of the curve
/// goes to place `t + offset`.
pub open spec fn tomato_encrypted(pixels: Seq<i32>, width: nat, height: nat, key: u64) -> Seq<i32> {
    let path = curve(width as int, height as int);
    let offset = rotation_offset((width * height) as u64, key);
    scatter(gather(pixels, path), rotated(path, offset))
}

/// What decryption makes of `pixels`: the pixel at place `t + offset` of the
/// curve goes to place `t`.
pub open spec fn tomato_decrypted(pixels: Seq<i32>, width: nat, height: nat, key: u64) -> Seq<i32> {
    let path = curve(width as int, height as int);
    let offset = rotation_offset((width * height) as u64, key);
    scatter(gather(pixels, rotated(path, offset)), path)
}

/// Decryption with the key and the dimensions of an encryption gives the
/// image back.
pub proof fn lemma_tomato_round_trip(pixels: Seq<i32>, width: nat, height: nat, key: u64)
    requires
        valid_dimensions(pixels.len(), width as int, height as int),
        pixels.len() <= usize::MAX,
    ensures
        tomato_decrypted(tomato_encrypted(pixels, width, height, key), width, height, key)
            == pixels,
{
    let path = curve(width as int, height as int);
    let offset = rotation_offset((width * height) as u64, key);
    let turned = rotated(path, offset);
    lemma_curve_is_permutation(width as int, height as int);
    lemma_rotated_is_permutation(path, width * height, offset);
    lemma_gather_scatter(gather(pixels, path), turned);
    lemma_scatter_gather(pixels, path);
}

/// With the key zero, encryption and decryption leave the image as it is.
pub proof fn lemma_tomato_zero_key(pixels: Seq<i32>, width: nat, height: nat)
    requires
        valid_dimensions(pixels.len(), width as int, height as int),
        pixels.len() <= usize::MAX,
    ensures
        tomato_encrypted(pixels, width, height, 0) == pixels,
        tomato_decrypted(pixels, width, height, 0) == pixels,
{
    let path = curve(width as int, height as int);
    assert(width * height > 0) by (nonlinear_arith)
        requires
            width > 0,
            height > 0,
    ;
    lemma_zero_key_offset((width * height) as u64);
    lemma_rotated_by_nothing(path);
    lemma_curve_is_permutation(width as int, height as int);
    lemma_scatter_gather(pixels, path);
}

/// Encryption moves the pixel at place `t` of the curve to place
/// `t + offset`, past the end of the curve on to its start.
pub proof fn lemma_tomato_encrypt_moves(
    pixels: Seq<i32>,
    width: nat,
    height: nat,
    key: u64,
    t: int,
)
    requires
        valid_dimensions(pixels.len(), width as int, height as int),
        pixels.len() <= usize::MAX,
        0 <= t < pixels.len(),
    ensures
        ({
            let path = curve(width as int, height as int);
            let offset = rotation_offset((width * height) as u64, key);
            let to = (t + offset) % (pixels.len() as int);
            &&& 0 <= to < pixels.len()
            &&& 0 <= path[to] < pixels.len()
            &&& 0 <= path[t] < pixels.len()
            &&& tomato_encrypted(pixels, width, height, key)[path[to] as int] == pixels[path[t] as
                int]
        }),
{
    let path = curve(width as int, height as int);
    let count = pixels.len();
    let offset = rotation_offset((width * height) as u64, key);
    let turned = rotated(path, offset);
    lemma_curve_is_permutation(width as int, height as int);
    lemma_rotated_is_permutation(path, count, offset);
    lemma_mod_bound(t + offset, count as int);
    lemma_position_of_entry(turned, count, t);
    assert(turned[t] == path[(t + offset) % (count as int)]);
}

/// Decryption moves the pixel at place `t + offset` of the curve, past the
/// end of the curve on from its start, to place `t`.
pub proof fn lemma_tomato_decrypt_moves(
    pixels: Seq<i32>,
    width: nat,
    height: nat,
    key: u64,
    t: int,
)
    requires
        valid_dimensions(pixels.len(), width as int, height as int),
        pixels.len() <= usize::MAX,
        0 <= t < pixels.len(),
    ensures
        ({
            let path = curve(width as int, height as int);
            let offset = rotation_offset((width * height) as u64, key);
            let from = (t + offset) % (pixels.len() as int);
            &&& 0 <= from < pixels.len()
            &&& 0 <= path[from] < pixels.len()
            &&& 0 <= path[t] < pixels.len()
            &&& tomato_decrypted(pixels, width, height, key)[path[t] as int] == pixels[path[from] as
                int]
        }),
{
    let path = curve(width as int, height as int);
    let count = pixels.len();
    let offset = rotation_offset((width * height) as u64, key);
    let turned = rotated(path, offset);
    lemma_curve_is_permutation(width as int, height as int);
    lemma_rotated_is_permutation(path, count, offset);
    lemma_mod_bound(t + offset, count as int);
    lemma_position_of_entry(path, count, t);
    assert(turned[t] == path[(t + offset) % (count as int)]);
}

/// Decryption with one key is encryption with another where the offsets of
/// the two make up whole turns of the curve.
pub proof fn lemma_tomato_decrypt_is_encrypt(
    pixels: Seq<i32>,
    width: nat,
    height: nat,
    back: u64,
    forth: u64,
)
    requires
        valid_dimensions(pixels.len(), width as int, height as int),
        pixels.len() <= usize::MAX,
        (rotation_offset((width * height) as u64, back) + rotation_offset(
            (width * height) as u64,
            forth,
        )) % pixels.len() == 0,
    ensures
        tomato_decrypted(pixels, width, height, back) == tomato_encrypted(
            pixels,
            width,
            height,
            forth,
        ),
{
    let path = curve(width as int, height as int);
    let count = pixels.len();
    let n = count as int;
    let o1 = rotation_offset((width * height) as u64, back) as int;
    let o2 = rotation_offset((width * height) as u64, forth) as int;
    let decrypted = tomato_decrypted(pixels, width, height, back);
    let encrypted = tomato_encrypted(pixels, width, height, forth);
    lemma_curve_is_permutation(width as int, height as int);
    assert forall|k: int| 0 <= k < n implies decrypted[k] == encrypted[k] by {
        lemma_permutation_covers(path, count, k);
        let t = position_of(path, k);
        let from = (t + o1) % n;
        lemma_mod_bound(t + o1, n);
        lemma_tomato_decrypt_moves(pixels, width, height, back, t);
        lemma_tomato_encrypt_moves(pixels, width, height, forth, from);
        lemma_add_mod_noop(t + o1, o2, n);
        lemma_small_mod(o2 as nat, count);
        lemma_add_mod_noop(t, o1 + o2, n);
        lemma_small_mod(t as nat, count);
        lemma_small_mod(from as nat, count);
        assert((from + o2) % n == t);
    }
    assert(decrypted =~= encrypted);
}

/// The offset that a product gives, the product being the pattern `p` of
/// its size and its sign.
pub fn offset_of_rounded(p: u64, negative: bool, count: u64) -> (offset: u64)
    requires
        p <= INFINITY_BITS,
        count > 0,
    ensures
        offset == offset_of_product(p, negative, count),
        offset < count,
{
    if p == INFINITY_BITS {
        if negative {
            0
        } else {
            u64::MAX % count
        }
    } else {
        let r: u64 = round_to_remainder(p, count);
        proof {
            lemma_signed_remainder(nearest_integer(p), negative, count);
        }
        if negative && r != 0 {
            count - r
        } else {
            r
        }
    }
}

/// The number of steps by which `key` moves the pixels of an image of `count`
/// pixels.
pub fn compute_offset(count: u64, key: u64) -> (offset: u64)
    requires
        count > 0,
    ensures
        offset == rotation_offset(count, key),
        offset < count,
{
    let negative: bool = key >= SIGN_BIT;
    let magnitude: u64 = if negative {
        key - SIGN_BIT
    } else {
        key
    };
    if magnitude > INFINITY_BITS {
        0
    } else if magnitude == INFINITY_BITS {
        offset_of_rounded(INFINITY_BITS, negative, count)
    } else {
        let scaled: u64 = multiply(GOLDEN_BITS, convert_integer(count));
        let p: u64 = multiply(scaled, magnitude);
        offset_of_rounded(p, negative, count)
    }
}

/// The curve read from place `offset` on.
fn rotate(path: &Vec<usize>, offset: u64) -> (turned: Vec<usize>)
    requires
        offset < path@.len() <= 0x4000_0000_0000_0000,
    ensures
        turned@ == rotated(path@, offset as nat),
{
    let n: usize = path.len();
    let mut turned: Vec<usize> = Vec::with_capacity(n);
    let mut t: usize = 0;
    while t < n
        invariant
            n == path@.len(),
            offset < n <= 0x4000_0000_0000_0000,
            t <= n,
            turned@.len() == t,
            forall|l: int| 0 <= l < t ==> turned@[l] == rotated(path@, offset as nat)[l],
        decreases n - t,
    {
        let from: u64 = (t as u64 + offset) % (n as u64);
        turned.push(path[from as usize]);
        t += 1;
    }
    assert(turned@ =~= rotated(path@, offset as nat));
    turned
}

/// Encrypts a `width` by `height` image with a key, given as the bit pattern
/// of a binary64 number.
pub fn tomato_scramble_encrypt(pixels: &[i32], width: i32, height: i32, key: u64) -> (r: Result<
    Vec<i32>,
    ScrambleError,
>)
    ensures
        r is Ok <==> valid_dimensions(pixels@.len(), width as int, height as int),
        r is Ok ==> r->Ok_0@.len() == pixels@.len(),
        r is Ok ==> r->Ok_0@ == tomato_encrypted(pixels@, width as nat, height as nat, key),
        r is Err ==> r->Err_0 == ScrambleError::InvalidDimensions,
{
    let (w, h) = match check_dimensions(pixels.len(), width, height) {
        Ok(sizes) => sizes,
        Err(e) => { return Err(e); },
    };
    let count: usize = pixels.len();
    proof {
        assert(0 < w * h <= 0x7fff_ffff * 0x7fff_ffff) by (nonlinear_arith)
            requires
                0 < w <= 0x7fff_ffff,
                0 < h <= 0x7fff_ffff,
        ;
        lemma_curve_is_permutation(width as int, height as int);
        lemma_rotated_is_permutation(
            curve(width as int, height as int),
            count as nat,
            rotation_offset(count as u64, key),
        );
    }
    let offset: u64 = compute_offset(count as u64, key);
    let path: Vec<usize> = gilbert2d(width, height);
    let turned: Vec<usize> = rotate(&path, offset);
    let along: Vec<i32> = gather_through(pixels, &path);
    Ok(scatter_through(along.as_slice(), &turned))
}

/// Decrypts a `width` by `height` image with a key, given as the bit pattern
/// of a binary64 number.
pub fn tomato_scramble_decrypt(pixels: &[i32], width: i32, height: i32, key: u64) -> (r: Result<
    Vec<i32>,
    ScrambleError,
>)
    ensures
        r is Ok <==> valid_dimensions(pixels@.len(), width as int, height as int),
        r is Ok ==> r->Ok_0@.len() == pixels@.len(),
        r is Ok ==> r->Ok_0@ == tomato_decrypted(pixels@, width as nat, height as nat, key),
        r is Err ==> r->Err_0 == ScrambleError::InvalidDimensions,
{
    let (w, h) = match check_dimensions(pixels.len(), width, height) {
        Ok(sizes) => sizes,
        Err(e) => { return Err(e); },
    };
    let count: usize = pixels.len();
    proof {
        assert(0 < w * h <= 0x7fff_ffff * 0x7fff_ffff) by (nonlinear_arith)
            requires
                0 < w <= 0x7fff_ffff,
                0 < h <= 0x7fff_ffff,
        ;
        lemma_curve_is_permutation(width as int, height as int);
        lemma_rotated_is_permutation(
            curve(width as int, height as int),
            count as nat,
            rotation_offset(count as u64, key),
        );
    }
    let offset: u64 = compute_offset(count as u64, key);
    let path: Vec<usize> = gilbert2d(width, height);
    let turned: Vec<usize> = rotate(&path, offset);
    let along: Vec<i32> = gather_through(pixels, &turned);
    Ok(scatter_through(along.as_slice(), &path))
}

} // verus!
