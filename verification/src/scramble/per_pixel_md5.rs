//! The per-pixel scramble: every pixel is moved by two shuffles of one
//! string key, one over the columns and one over the rows.
//!
//! With `X` the shuffle over the columns and `Y` the one over the rows, the
//! cell in column `i` of row `j` names the cell in column
//! `m = X[(X[j mod W] + i) mod W]` of row `n = Y[(Y[m mod H] + j) mod H]`.
//! Encryption reads every cell from the cell it names; decryption writes
//! every cell to the cell it names.

use vstd::prelude::*;
use vstd::string::StringSliceAdditionalSpecFns;
use crate::error::{check_dimensions, valid_dimensions, ScrambleError};
use crate::permutation::{
    gather,
    gather_through,
    is_permutation,
    lemma_cell_index,
    lemma_cell_of_index,
    lemma_scatter_gather,
    lemma_shift_keeps_apart,
    scatter,
    scatter_through,
};
use crate::utils::shuffle::{lemma_shuffle_is_permutation, shuffle, shuffle_with_key};

verus! {

/// The column that the cell in column `i` of row `j` names.
pub open spec fn source_column(x: Seq<usize>, w: int, i: int, j: int) -> int {
    x[(x[j % w] + i) % w] as int
}

/// The row that the cell of row `j` names, once it names column `m`.
pub open spec fn source_row(y: Seq<usize>, h: int, m: int, j: int) -> int {
    y[(y[m % h] + j) % h] as int
}

/// The position array of the scramble for the shuffles `x` and `y`: entry
/// `i + j * W` is the row-major index of the cell that column `i` of row `j`
/// names.
pub open spec fn cell_positions(x: Seq<usize>, y: Seq<usize>, width: nat, height: nat) -> Seq<
    usize,
> {
    Seq::new(
        width * height,
        |k: int|
            {
                let m = source_column(x, width as int, k % width as int, k / width as int);
                let n = source_row(y, height as int, m, k / width as int);
                (m + n * width) as usize
            },
    )
}

/// No two cells name the same cell, and every cell names one of the grid.
pub proof fn lemma_cell_positions(x: Seq<usize>, y: Seq<usize>, width: nat, height: nat)
    requires
        width > 0,
        height > 0,
        width * height <= usize::MAX,
        is_permutation(x, width),
        is_permutation(y, height),
    ensures
        is_permutation(cell_positions(x, y, width, height), width * height),
{
    let p = cell_positions(x, y, width, height);
    let w = width as int;
    let h = height as int;
    assert forall|k: int| 0 <= k < p.len() implies (#[trigger] p[k]) < width * height by {
        lemma_cell_of_index(k, w, h);
        let m = source_column(x, w, k % w, k / w);
        let n = source_row(y, h, m, k / w);
        lemma_cell_index((m, n), (m, n), w, h);
    }
    assert forall|k: int, l: int| 0 <= k < l < p.len() implies #[trigger] p[k] != #[trigger] p[l] by {
        lemma_cell_of_index(k, w, h);
        lemma_cell_of_index(l, w, h);
        let mk = source_column(x, w, k % w, k / w);
        let nk = source_row(y, h, mk, k / w);
        let ml = source_column(x, w, l % w, l / w);
        let nl = source_row(y, h, ml, l / w);
        lemma_cell_index((mk, nk), (ml, nl), w, h);
        lemma_cell_index((ml, nl), (ml, nl), w, h);
        if p[k] == p[l] {
            assert(mk == ml && nk == nl);
            // The rows agree: `y` holds no value twice, and the same shift
            // keeps two rows apart.
            let shift_y = y[mk % h] as int;
            let ak = (shift_y + k / w) % h;
            let al = (shift_y + l / w) % h;
            if ak < al {
                assert(y[ak] != y[al]);
            } else if al < ak {
                assert(y[al] != y[ak]);
            }
            lemma_shift_keeps_apart(shift_y, k / w, l / w, h);
            // So do the columns.
            let shift_x = x[(k / w) % w] as int;
            let bk = (shift_x + k % w) % w;
            let bl = (shift_x + l % w) % w;
            if bk < bl {
                assert(x[bk] != x[bl]);
            } else if bl < bk {
                assert(x[bl] != x[bk]);
            }
            lemma_shift_keeps_apart(shift_x, k % w, l % w, w);
            assert(false);
        }
    }
}

/// The position array of the scramble for a key.
pub open spec fn per_pixel_positions(width: nat, height: nat, key: Seq<u8>) -> Seq<usize> {
    cell_positions(shuffle(width, key), shuffle(height, key), width, height)
}

/// What encryption makes of `pixels`.
pub open spec fn per_pixel_encrypted(pixels: Seq<i32>, width: nat, height: nat, key: Seq<u8>) -> Seq<
    i32,
> {
    gather(pixels, per_pixel_positions(width, height, key))
}

/// What decryption makes of `pixels`.
pub open spec fn per_pixel_decrypted(pixels: Seq<i32>, width: nat, height: nat, key: Seq<u8>) -> Seq<
    i32,
> {
    scatter(pixels, per_pixel_positions(width, height, key))
}

/// Every key gives a position array over the cells of the grid.
pub proof fn lemma_per_pixel_positions(width: nat, height: nat, key: Seq<u8>)
    requires
        width > 0,
        height > 0,
        width * height <= usize::MAX,
    ensures
        is_permutation(per_pixel_positions(width, height, key), width * height),
{
    assert(width <= width * height && height <= width * height) by (nonlinear_arith)
        requires
            width > 0,
            height > 0,
    ;
    lemma_shuffle_is_permutation(width, key);
    lemma_shuffle_is_permutation(height, key);
    lemma_cell_positions(shuffle(width, key), shuffle(height, key), width, height);
}

/// Decryption with the key and the dimensions of an encryption gives the
/// image back.
pub proof fn lemma_per_pixel_round_trip(pixels: Seq<i32>, width: nat, height: nat, key: Seq<u8>)
    requires
        valid_dimensions(pixels.len(), width as int, height as int),
        pixels.len() <= usize::MAX,
    ensures
        per_pixel_decrypted(per_pixel_encrypted(pixels, width, height, key), width, height, key)
            == pixels,
{
    lemma_per_pixel_positions(width, height, key);
    lemma_scatter_gather(pixels, per_pixel_positions(width, height, key));
}

/// Builds the position array of the scramble from the two shuffles.
fn build_cell_positions(x: &Vec<usize>, y: &Vec<usize>, width: usize, height: usize) -> (p: Vec<
    usize,
>)
    requires
        0 < width <= i32::MAX,
        0 < height <= i32::MAX,
        width * height <= usize::MAX,
        is_permutation(x@, width as nat),
        is_permutation(y@, height as nat),
    ensures
        p@ == cell_positions(x@, y@, width as nat, height as nat),
{
    let count: usize = width * height;
    let mut p: Vec<usize> = Vec::with_capacity(count);
    let mut k: usize = 0;
    while k < count
        invariant
            0 < width <= i32::MAX,
            0 < height <= i32::MAX,
            count == width * height,
            is_permutation(x@, width as nat),
            is_permutation(y@, height as nat),
            k <= count,
            p@.len() == k,
            forall|l: int|
                0 <= l < k ==> p@[l] == cell_positions(x@, y@, width as nat, height as nat)[l],
        decreases count - k,
    {
        proof {
            lemma_cell_of_index(k as int, width as int, height as int);
        }
        let i: usize = k % width;
        let j: usize = k / width;
        let m: usize = x[(x[j % width] + i) % width];
        let n: usize = y[(y[m % height] + j) % height];
        proof {
            lemma_cell_index((m as int, n as int), (m as int, n as int), width as int, height as int);
        }
        p.push(m + n * width);
        k += 1;
    }
    assert(p@ =~= cell_positions(x@, y@, width as nat, height as nat));
    p
}

/// Encrypts a `width` by `height` image with a string key.
pub fn per_pixel_md5_encrypt(pixels: &[i32], width: i32, height: i32, key: &str) -> (r: Result<
    Vec<i32>,
    ScrambleError,
>)
    ensures
        r is Ok <==> valid_dimensions(pixels@.len(), width as int, height as int),
        r is Ok ==> r->Ok_0@.len() == pixels@.len(),
        r is Ok ==> r->Ok_0@ == per_pixel_encrypted(
            pixels@,
            width as nat,
            height as nat,
            key.spec_bytes(),
        ),
        r is Err ==> r->Err_0 == ScrambleError::InvalidDimensions,
{
    let (w, h) = match check_dimensions(pixels.len(), width, height) {
        Ok(sizes) => sizes,
        Err(e) => { return Err(e); },
    };
    proof {
        lemma_per_pixel_positions(w as nat, h as nat, key.spec_bytes());
    }
    let x: Vec<usize> = shuffle_with_key(w, key);
    let y: Vec<usize> = shuffle_with_key(h, key);
    let positions: Vec<usize> = build_cell_positions(&x, &y, w, h);
    Ok(gather_through(pixels, &positions))
}

/// Decrypts a `width` by `height` image with a string key.
pub fn per_pixel_md5_decrypt(pixels: &[i32], width: i32, height: i32, key: &str) -> (r: Result<
    Vec<i32>,
    ScrambleError,
>)
    ensures
        r is Ok <==> valid_dimensions(pixels@.len(), width as int, height as int),
        r is Ok ==> r->Ok_0@.len() == pixels@.len(),
        r is Ok ==> r->Ok_0@ == per_pixel_decrypted(
            pixels@,
            width as nat,
            height as nat,
            key.spec_bytes(),
        ),
        r is Err ==> r->Err_0 == ScrambleError::InvalidDimensions,
{
    let (w, h) = match check_dimensions(pixels.len(), width, height) {
        Ok(sizes) => sizes,
        Err(e) => { return Err(e); },
    };
    proof {
        lemma_per_pixel_positions(w as nat, h as nat, key.spec_bytes());
    }
    let x: Vec<usize> = shuffle_with_key(w, key);
    let y: Vec<usize> = shuffle_with_key(h, key);
    let positions: Vec<usize> = build_cell_positions(&x, &y, w, h);
    Ok(scatter_through(pixels, &positions))
}

} // verus!
