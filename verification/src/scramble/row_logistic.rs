//! The row scramble: one position array from the logistic map rearranges
//! the columns, the same way in every row.
//!
//! With `P` the position array over the columns, encryption reads column `i`
//! of every row from column `P[i]` of that row; decryption writes column `i`
//! to column `P[i]`.

use vstd::prelude::*;
use crate::error::{check_dimensions, valid_dimensions, ScrambleError};
use crate::permutation::{
    gather,
    gather_through,
    is_permutation,
    lemma_cell_index,
    lemma_cell_of_index,
    lemma_row_positions,
    lemma_scatter_gather,
    row_positions,
    scatter,
    scatter_through,
};
use crate::binary64::ONE_BITS;
use crate::utils::logistic::{
    generate_logistic_positions,
    is_unit_seed,
    lemma_logistic_positions_is_permutation,
    logistic_positions,
};

verus! {

/// The position array of the scramble for a seed: every row is rearranged
/// by the position array that the seed gives over the columns.
pub open spec fn row_logistic_positions(width: nat, height: nat, key: u64) -> Seq<usize> {
    row_positions(|r: int| logistic_positions(key, width), width, height)
}

/// What encryption makes of `pixels`.
pub open spec fn row_logistic_encrypted(pixels: Seq<i32>, width: nat, height: nat, key: u64) -> Seq<
    i32,
> {
    gather(pixels, row_logistic_positions(width, height, key))
}

/// What decryption makes of `pixels`.
pub open spec fn row_logistic_decrypted(pixels: Seq<i32>, width: nat, height: nat, key: u64) -> Seq<
    i32,
> {
    scatter(pixels, row_logistic_positions(width, height, key))
}

/// Every seed gives a position array over the cells of the grid.
pub proof fn lemma_row_logistic_positions(width: nat, height: nat, key: u64)
    requires
        width > 0,
        height > 0,
        width * height <= usize::MAX,
    ensures
        is_permutation(row_logistic_positions(width, height, key), width * height),
{
    assert(width <= width * height) by (nonlinear_arith)
        requires
            width > 0,
            height > 0,
    ;
    lemma_logistic_positions_is_permutation(key, width);
    lemma_row_positions(|r: int| logistic_positions(key, width), width, height);
}

/// Decryption with the seed and the dimensions of an encryption gives the
/// image back.
pub proof fn lemma_row_logistic_round_trip(pixels: Seq<i32>, width: nat, height: nat, key: u64)
    requires
        valid_dimensions(pixels.len(), width as int, height as int),
        pixels.len() <= usize::MAX,
    ensures
        row_logistic_decrypted(row_logistic_encrypted(pixels, width, height, key), width, height, key)
            == pixels,
{
    lemma_row_logistic_positions(width, height, key);
    lemma_scatter_gather(pixels, row_logistic_positions(width, height, key));
}

/// Builds the position array of the scramble.
fn build_positions(key: u64, width: usize, height: usize) -> (p: Vec<usize>)
    requires
        width > 0,
        height > 0,
        width * height <= usize::MAX,
    ensures
        p@ == row_logistic_positions(width as nat, height as nat, key),
{
    let row: Vec<usize> = generate_logistic_positions(key, width);
    let count: usize = width * height;
    let mut p: Vec<usize> = Vec::with_capacity(count);
    let mut k: usize = 0;
    while k < count
        invariant
            width > 0,
            count == width * height,
            row@ == logistic_positions(key, width as nat),
            is_permutation(row@, width as nat),
            k <= count,
            p@.len() == k,
            forall|l: int|
                0 <= l < k ==> p@[l] == row_logistic_positions(width as nat, height as nat, key)[l],
        decreases count - k,
    {
        proof {
            lemma_cell_of_index(k as int, width as int, height as int);
            let cell = (row@[(k % width) as int] as int, (k / width) as int);
            lemma_cell_index(cell, cell, width as int, height as int);
        }
        p.push(row[k % width] + (k / width) * width);
        k += 1;
    }
    assert(p@ =~= row_logistic_positions(width as nat, height as nat, key));
    p
}

/// Encrypts a `width` by `height` image with a seed, given as the bit
/// pattern of a binary64 number strictly between zero and one.
pub fn row_logistic_encrypt(pixels: &[i32], width: i32, height: i32, key: u64) -> (r: Result<
    Vec<i32>,
    ScrambleError,
>)
    ensures
        r is Ok <==> valid_dimensions(pixels@.len(), width as int, height as int) && is_unit_seed(
            key,
        ),
        r is Ok ==> r->Ok_0@.len() == pixels@.len(),
        r is Ok ==> r->Ok_0@ == row_logistic_encrypted(pixels@, width as nat, height as nat, key),
        r is Err ==> r->Err_0 == if valid_dimensions(pixels@.len(), width as int, height as int) {
            ScrambleError::InvalidKey
        } else {
            ScrambleError::InvalidDimensions
        },
{
    let (w, h) = match check_dimensions(pixels.len(), width, height) {
        Ok(sizes) => sizes,
        Err(e) => { return Err(e); },
    };
    if key == 0 || key >= ONE_BITS {
        return Err(ScrambleError::InvalidKey);
    }
    proof {
        lemma_row_logistic_positions(w as nat, h as nat, key);
    }
    let positions: Vec<usize> = build_positions(key, w, h);
    Ok(gather_through(pixels, &positions))
}

/// Decrypts a `width` by `height` image with a seed, given as the bit
/// pattern of a binary64 number strictly between zero and one.
pub fn row_logistic_decrypt(pixels: &[i32], width: i32, height: i32, key: u64) -> (r: Result<
    Vec<i32>,
    ScrambleError,
>)
    ensures
        r is Ok <==> valid_dimensions(pixels@.len(), width as int, height as int) && is_unit_seed(
            key,
        ),
        r is Ok ==> r->Ok_0@.len() == pixels@.len(),
        r is Ok ==> r->Ok_0@ == row_logistic_decrypted(pixels@, width as nat, height as nat, key),
        r is Err ==> r->Err_0 == if valid_dimensions(pixels@.len(), width as int, height as int) {
            ScrambleError::InvalidKey
        } else {
            ScrambleError::InvalidDimensions
        },
{
    let (w, h) = match check_dimensions(pixels.len(), width, height) {
        Ok(sizes) => sizes,
        Err(e) => { return Err(e); },
    };
    if key == 0 || key >= ONE_BITS {
        return Err(ScrambleError::InvalidKey);
    }
    proof {
        lemma_row_logistic_positions(w as nat, h as nat, key);
    }
    let positions: Vec<usize> = build_positions(key, w, h);
    Ok(scatter_through(pixels, &positions))
}

} // verus!
