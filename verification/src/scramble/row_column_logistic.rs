//! The row and column scramble: two stages driven by one logistic sequence.
//!
//! The first stage rearranges every row by a position array of its own: the
//! sequence starts at the key, each row ranks the next `W` samples, and the
//! next row goes on where the row before it stopped. The second stage starts
//! the sequence at the key again and rearranges every column in the same
//! way, each by the next `H` samples, reading from what the first stage
//! made. Decryption undoes the columns first, then the rows.

use vstd::prelude::*;
use crate::binary64::ONE_BITS;
use crate::error::{check_dimensions, valid_dimensions, ScrambleError};
use crate::permutation::{
    column_positions,
    gather,
    gather_through,
    is_permutation,
    lemma_cell_index,
    lemma_cell_of_index,
    lemma_column_positions,
    lemma_index_of_cell,
    lemma_row_positions,
    lemma_scatter_gather,
    row_positions,
    scatter,
    scatter_through,
};
use crate::utils::logistic::{
    chained_arrays,
    is_unit_seed,
    lemma_logistic_positions_is_permutation,
    lemma_orbit_continues,
    logistic_positions,
    logistic_positions_chained,
    orbit,
};

verus! {

/// The position array of the first stage: row `r` is rearranged by the
/// position array that the samples from `r * W` on give.
pub open spec fn row_stage_positions(width: nat, height: nat, key: u64) -> Seq<usize> {
    row_positions(chained_arrays(key, width), width, height)
}

/// The position array of the second stage: column `c` is rearranged by the
/// position array that the samples from `c * H` on give.
pub open spec fn column_stage_positions(width: nat, height: nat, key: u64) -> Seq<usize> {
    column_positions(chained_arrays(key, height), width, height)
}

/// What encryption makes of `pixels`: the rows are rearranged, then the
/// columns of the result.
pub open spec fn row_column_encrypted(pixels: Seq<i32>, width: nat, height: nat, key: u64) -> Seq<
    i32,
> {
    gather(
        gather(pixels, row_stage_positions(width, height, key)),
        column_stage_positions(width, height, key),
    )
}

/// What decryption makes of `pixels`: the columns are put back, then the
/// rows of the result.
pub open spec fn row_column_decrypted(pixels: Seq<i32>, width: nat, height: nat, key: u64) -> Seq<
    i32,
> {
    scatter(
        scatter(pixels, column_stage_positions(width, height, key)),
        row_stage_positions(width, height, key),
    )
}

/// Both stages rearrange the grid by a position array, whatever the seed.
pub proof fn lemma_stage_positions(width: nat, height: nat, key: u64)
    requires
        width > 0,
        height > 0,
        width * height <= usize::MAX,
    ensures
        is_permutation(row_stage_positions(width, height, key), width * height),
        is_permutation(column_stage_positions(width, height, key), width * height),
{
    assert(width <= width * height && height <= width * height) by (nonlinear_arith)
        requires
            width > 0,
            height > 0,
    ;
    let rows = chained_arrays(key, width);
    let columns = chained_arrays(key, height);
    assert forall|r: int| 0 <= r < height implies is_permutation(#[trigger] rows(r), width) by {
        lemma_logistic_positions_is_permutation(orbit(key, (r * width) as nat), width);
    }
    assert forall|c: int| 0 <= c < width implies is_permutation(#[trigger] columns(c), height) by {
        lemma_logistic_positions_is_permutation(orbit(key, (c * height) as nat), height);
    }
    lemma_row_positions(rows, width, height);
    lemma_column_positions(columns, width, height);
}

/// Decryption with the seed and the dimensions of an encryption gives the
/// image back.
pub proof fn lemma_row_column_round_trip(pixels: Seq<i32>, width: nat, height: nat, key: u64)
    requires
        valid_dimensions(pixels.len(), width as int, height as int),
        pixels.len() <= usize::MAX,
    ensures
        row_column_decrypted(row_column_encrypted(pixels, width, height, key), width, height, key)
            == pixels,
{
    lemma_stage_positions(width, height, key);
    let rows = row_stage_positions(width, height, key);
    let columns = column_stage_positions(width, height, key);
    lemma_scatter_gather(gather(pixels, rows), columns);
    lemma_scatter_gather(pixels, rows);
}

/// Builds the position array of the first stage.
fn build_row_stage(key: u64, width: usize, height: usize) -> (p: Vec<usize>)
    requires
        width > 0,
        height > 0,
        width * height <= usize::MAX,
    ensures
        p@ == row_stage_positions(width as nat, height as nat, key),
{
    let ghost target = row_stage_positions(width as nat, height as nat, key);
    let mut p: Vec<usize> = Vec::with_capacity(width * height);
    let mut seed: u64 = key;
    let mut j: usize = 0;
    while j < height
        invariant
            width > 0,
            width * height <= usize::MAX,
            target == row_stage_positions(width as nat, height as nat, key),
            j <= height,
            seed == orbit(key, (j * width) as nat),
            p@.len() == j * width,
            forall|l: int| 0 <= l < p@.len() ==> p@[l] == target[l],
        decreases height - j,
    {
        let (row, next) = logistic_positions_chained(seed, width);
        proof {
            lemma_orbit_continues(key, (j * width) as nat, width as nat);
            lemma_index_of_cell(0, j as int, width as int);
            assert(j * width >= 0) by (nonlinear_arith)
                requires
                    j >= 0,
                    width > 0,
            ;
            lemma_cell_index((0, j as int), (0, j as int), width as int, height as int);
        }
        let base: usize = j * width;
        let mut i: usize = 0;
        while i < width
            invariant
                width > 0,
                j < height,
                width * height <= usize::MAX,
                base == j * width,
                target == row_stage_positions(width as nat, height as nat, key),
                row@ == logistic_positions(orbit(key, (j * width) as nat), width as nat),
                is_permutation(row@, width as nat),
                i <= width,
                p@.len() == base + i,
                forall|l: int| 0 <= l < p@.len() ==> p@[l] == target[l],
            decreases width - i,
        {
            proof {
                lemma_index_of_cell(i as int, j as int, width as int);
                lemma_cell_index(
                    (row@[i as int] as int, j as int),
                    (i as int, j as int),
                    width as int,
                    height as int,
                );
                lemma_cell_index(
                    (i as int, j as int),
                    (i as int, j as int),
                    width as int,
                    height as int,
                );
            }
            p.push(row[i] + base);
            i += 1;
        }
        seed = next;
        j += 1;
    }
    assert(p@.len() == width * height) by (nonlinear_arith)
        requires
            p@.len() == height * width,
    ;
    assert(p@ =~= target);
    p
}

/// Builds the position array of the second stage.
fn build_column_stage(key: u64, width: usize, height: usize) -> (p: Vec<usize>)
    requires
        width > 0,
        height > 0,
        width * height <= usize::MAX,
    ensures
        p@ == column_stage_positions(width as nat, height as nat, key),
{
    let ghost target = column_stage_positions(width as nat, height as nat, key);
    let count: usize = width * height;
    let mut p: Vec<usize> = vec![0usize; count];
    let mut seed: u64 = key;
    let mut i: usize = 0;
    while i < width
        invariant
            height > 0,
            count == width * height,
            target == column_stage_positions(width as nat, height as nat, key),
            i <= width,
            seed == orbit(key, (i * height) as nat),
            p@.len() == count,
            forall|l: int| 0 <= l < count && l % (width as int) < i ==> p@[l] == target[l],
        decreases width - i,
    {
        let (column, next) = logistic_positions_chained(seed, height);
        proof {
            lemma_orbit_continues(key, (i * height) as nat, height as nat);
            lemma_index_of_cell(0, i as int, height as int);
            assert(i * height >= 0) by (nonlinear_arith)
                requires
                    i >= 0,
                    height > 0,
            ;
        }
        let mut j: usize = 0;
        while j < height
            invariant
                height > 0,
                i < width,
                count == width * height,
                target == column_stage_positions(width as nat, height as nat, key),
                column@ == logistic_positions(orbit(key, (i * height) as nat), height as nat),
                is_permutation(column@, height as nat),
                j <= height,
                p@.len() == count,
                forall|l: int| 0 <= l < count && l % (width as int) < i ==> p@[l] == target[l],
                forall|l: int|
                    0 <= l < count && l % (width as int) == i && l / (width as int) < j ==> p@[l]
                        == target[l],
            decreases height - j,
        {
            let ghost before = p@;
            proof {
                lemma_index_of_cell(i as int, j as int, width as int);
                lemma_cell_index(
                    (i as int, column@[j as int] as int),
                    (i as int, j as int),
                    width as int,
                    height as int,
                );
                lemma_cell_index(
                    (i as int, j as int),
                    (i as int, j as int),
                    width as int,
                    height as int,
                );
            }
            let at: usize = i + j * width;
            p.set(at, i + column[j] * width);
            proof {
                assert forall|l: int|
                    0 <= l < count && l % (width as int) == i && l / (width as int) < j + 1 implies p@[l]
                    == target[l] by {
                    if l != at {
                        lemma_cell_of_index(l, width as int, height as int);
                        assert(p@[l] == before[l]);
                    }
                }
            }
            j += 1;
        }
        proof {
            assert forall|l: int| 0 <= l < count && l % (width as int) < i + 1 implies p@[l]
                == target[l] by {
                lemma_cell_of_index(l, width as int, height as int);
            }
        }
        seed = next;
        i += 1;
    }
    proof {
        assert forall|l: int| 0 <= l < count implies p@[l] == target[l] by {
            lemma_cell_of_index(l, width as int, height as int);
        }
    }
    assert(p@ =~= target);
    p
}

/// Encrypts a `width` by `height` image with a seed, given as the bit
/// pattern of a binary64 number strictly between zero and one.
pub fn row_column_logistic_encrypt(pixels: &[i32], width: i32, height: i32, key: u64) -> (r:
    Result<Vec<i32>, ScrambleError>)
    ensures
        r is Ok <==> valid_dimensions(pixels@.len(), width as int, height as int) && is_unit_seed(
            key,
        ),
        r is Ok ==> r->Ok_0@.len() == pixels@.len(),
        r is Ok ==> r->Ok_0@ == row_column_encrypted(pixels@, width as nat, height as nat, key),
        r is Err ==> r->Err_0 == if valid_dimensions(pixels@.len(), width as int, height as int) {
            ScrambleError::InvalidKey
        } else {
            ScrambleError::InvalidDimensions
        },
{
    let (w, h) = match check_dimensions(pixels.len(), width, height) {
        Ok(sizes) => sizes,
        Err(e) => { return Err(e); },
    };
    if key == 0 || key >= ONE_BITS {
        return Err(ScrambleError::InvalidKey);
    }
    proof {
        lemma_stage_positions(w as nat, h as nat, key);
    }
    let rows: Vec<usize> = build_row_stage(key, w, h);
    let columns: Vec<usize> = build_column_stage(key, w, h);
    let staged: Vec<i32> = gather_through(pixels, &rows);
    Ok(gather_through(staged.as_slice(), &columns))
}

/// Decrypts a `width` by `height` image with a seed, given as the bit
/// pattern of a binary64 number strictly between zero and one.
pub fn row_column_logistic_decrypt(pixels: &[i32], width: i32, height: i32, key: u64) -> (r:
    Result<Vec<i32>, ScrambleError>)
    ensures
        r is Ok <==> valid_dimensions(pixels@.len(), width as int, height as int) && is_unit_seed(
            key,
        ),
        r is Ok ==> r->Ok_0@.len() == pixels@.len(),
        r is Ok ==> r->Ok_0@ == row_column_decrypted(pixels@, width as nat, height as nat, key),
        r is Err ==> r->Err_0 == if valid_dimensions(pixels@.len(), width as int, height as int) {
            ScrambleError::InvalidKey
        } else {
            ScrambleError::InvalidDimensions
        },
{
    let (w, h) = match check_dimensions(pixels.len(), width, height) {
        Ok(sizes) => sizes,
        Err(e) => { return Err(e); },
    };
    if key == 0 || key >= ONE_BITS {
        return Err(ScrambleError::InvalidKey);
    }
    proof {
        lemma_stage_positions(w as nat, h as nat, key);
    }
    let rows: Vec<usize> = build_row_stage(key, w, h);
    let columns: Vec<usize> = build_column_stage(key, w, h);
    let staged: Vec<i32> = scatter_through(pixels, &columns);
    Ok(scatter_through(staged.as_slice(), &rows))
}

} // verus!
