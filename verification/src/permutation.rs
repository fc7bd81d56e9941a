//! Position arrays and the two ways of moving samples through one.

use vstd::prelude::*;

verus! {

/// A position array over `0..n`: `n` entries, each below `n`, none twice.
pub open spec fn is_permutation(p: Seq<usize>, n: nat) -> bool {
    &&& p.len() == n
    &&& forall|k: int| 0 <= k < p.len() ==> (#[trigger] p[k]) < n
    &&& forall|k: int, l: int| 0 <= k < l < p.len() ==> #[trigger] p[k] != #[trigger] p[l]
}

/// The position array that leaves every index where it is.
pub open spec fn identity(n: nat) -> Seq<usize> {
    Seq::new(n, |k: int| k as usize)
}

/// Reading through `p`: entry `k` of the result is `src[p[k]]`.
pub open spec fn gather(src: Seq<i32>, p: Seq<usize>) -> Seq<i32> {
    Seq::new(p.len(), |k: int| src[p[k] as int])
}

/// The place at which `p` holds the value `t`.
pub open spec fn position_of(p: Seq<usize>, t: int) -> int {
    choose|k: int| 0 <= k < p.len() && p[k] == t
}

/// Writing through `p`: entry `p[k]` of the result is `src[k]`.
pub open spec fn scatter(src: Seq<i32>, p: Seq<usize>) -> Seq<i32> {
    Seq::new(p.len(), |t: int| src[position_of(p, t)])
}

/// A position array over `0..n` holds every index below `n`.
pub proof fn lemma_permutation_covers(p: Seq<usize>, n: nat, t: int)
    requires
        is_permutation(p, n),
        0 <= t < n,
    ensures
        0 <= position_of(p, t) < n,
        p[position_of(p, t)] == t,
{
    let q = p.map_values(|v: usize| v as int);
    assert(q.no_duplicates());
    q.unique_seq_to_set();
    let range = vstd::set_lib::set_int_range(0, n as int);
    vstd::set_lib::lemma_int_range(0, n as int);
    assert forall|v: int| q.to_set().contains(v) implies range.contains(v) by {
        let k = choose|k: int| 0 <= k < q.len() && q[k] == v;
        assert(q[k] == p[k]);
    }
    vstd::set_lib::lemma_subset_equality(q.to_set(), range);
    assert(range.contains(t));
    assert(q.to_set().contains(t));
    let k = choose|k: int| 0 <= k < q.len() && q[k] == t;
    assert(p[k] == t);
}

/// The place of `p[k]` in a position array is `k`.
pub proof fn lemma_position_of_entry(p: Seq<usize>, n: nat, k: int)
    requires
        is_permutation(p, n),
        0 <= k < n,
    ensures
        position_of(p, p[k] as int) == k,
{
    lemma_permutation_covers(p, n, p[k] as int);
    let l = position_of(p, p[k] as int);
    if l < k {
        assert(p[l] != p[k]);
    } else if k < l {
        assert(p[k] != p[l]);
    }
}

/// Writing through a position array undoes reading through it.
pub proof fn lemma_scatter_gather(src: Seq<i32>, p: Seq<usize>)
    requires
        is_permutation(p, src.len()),
    ensures
        scatter(gather(src, p), p) == src,
{
    assert forall|t: int| 0 <= t < src.len() implies scatter(gather(src, p), p)[t] == src[t] by {
        lemma_permutation_covers(p, src.len(), t);
    }
    assert(scatter(gather(src, p), p) =~= src);
}

/// Reading through a position array undoes writing through it.
pub proof fn lemma_gather_scatter(src: Seq<i32>, p: Seq<usize>)
    requires
        is_permutation(p, src.len()),
    ensures
        gather(scatter(src, p), p) == src,
{
    assert forall|k: int| 0 <= k < src.len() implies gather(scatter(src, p), p)[k] == src[k] by {
        lemma_position_of_entry(p, src.len(), k);
    }
    assert(gather(scatter(src, p), p) =~= src);
}

/// Reads `src` through `p` into a new buffer.
pub fn gather_through(src: &[i32], p: &Vec<usize>) -> (out: Vec<i32>)
    requires
        forall|k: int| 0 <= k < p@.len() ==> (#[trigger] p@[k]) < src@.len(),
    ensures
        out@ == gather(src@, p@),
{
    let n: usize = p.len();
    let mut out: Vec<i32> = Vec::with_capacity(n);
    let mut k: usize = 0;
    while k < n
        invariant
            n == p@.len(),
            k <= n,
            out@.len() == k,
            forall|l: int| 0 <= l < p@.len() ==> (#[trigger] p@[l]) < src@.len(),
            forall|l: int| 0 <= l < k ==> out@[l] == src@[p@[l] as int],
        decreases n - k,
    {
        out.push(src[p[k]]);
        k += 1;
    }
    assert(out@ =~= gather(src@, p@));
    out
}

/// Writes `src` through the position array `p` into a new buffer.
pub fn scatter_through(src: &[i32], p: &Vec<usize>) -> (out: Vec<i32>)
    requires
        is_permutation(p@, src@.len()),
    ensures
        out@ == scatter(src@, p@),
{
    let n: usize = p.len();
    let mut out: Vec<i32> = vec![0i32; n];
    let mut k: usize = 0;
    while k < n
        invariant
            n == p@.len(),
            k <= n,
            out@.len() == n,
            is_permutation(p@, src@.len()),
            forall|l: int| 0 <= l < k ==> out@[p@[l] as int] == src@[l],
        decreases n - k,
    {
        let ghost before = out@;
        out.set(p[k], src[k]);
        assert forall|l: int| 0 <= l < k + 1 implies out@[p@[l] as int] == src@[l] by {
            if l < k {
                assert(p@[l] != p@[k as int]);
                assert(out@[p@[l] as int] == before[p@[l] as int]);
            }
        }
        k += 1;
    }
    assert forall|t: int| 0 <= t < n implies out@[t] == scatter(src@, p@)[t] by {
        lemma_permutation_covers(p@, n as nat, t);
    }
    assert(out@ =~= scatter(src@, p@));
    out
}

/// In a grid `width` wide, a cell has a row-major index below the number of
/// cells, and two cells with one index are one cell.
pub proof fn lemma_cell_index(c: (int, int), d: (int, int), width: int, height: int)
    by (nonlinear_arith)
    requires
        0 <= c.0 < width,
        0 <= c.1 < height,
        0 <= d.0 < width,
        0 <= d.1 < height,
    ensures
        0 <= c.0 + c.1 * width < width * height,
        c.0 + c.1 * width == d.0 + d.1 * width ==> c == d,
{
    if c.1 < d.1 {
        assert((d.1 - c.1) * width >= width);
    } else if d.1 < c.1 {
        assert((c.1 - d.1) * width >= width);
    }
    assert((c.1 + 1) * width <= height * width);
}

/// The column and the row of a row-major index lie in the grid, and give the
/// index back.
pub proof fn lemma_cell_of_index(k: int, width: int, height: int)
    requires
        width > 0,
        0 <= k < width * height,
    ensures
        0 <= k % width < width,
        0 <= k / width < height,
        k == k % width + (k / width) * width,
{
    vstd::arithmetic::div_mod::lemma_fundamental_div_mod(k, width);
    let row = k / width;
    assert(0 <= row < height) by (nonlinear_arith)
        requires
            width > 0,
            0 <= k < width * height,
            k == width * row + k % width,
            0 <= k % width < width,
    ;
    assert(width * row == row * width) by (nonlinear_arith);
}

/// Adding the same amount to two indices below `n` and reducing modulo `n`
/// keeps them apart.
pub proof fn lemma_shift_keeps_apart(c: int, a: int, b: int, n: int)
    requires
        0 <= c,
        0 <= a < n,
        0 <= b < n,
        (c + a) % n == (c + b) % n,
    ensures
        a == b,
{
    vstd::arithmetic::div_mod::lemma_fundamental_div_mod(c + a, n);
    vstd::arithmetic::div_mod::lemma_fundamental_div_mod(c + b, n);
    let qa = (c + a) / n;
    let qb = (c + b) / n;
    assert(a == b) by (nonlinear_arith)
        requires
            a - b == n * qa - n * qb,
            -n < a - b < n,
    ;
}

/// The position array of a grid whose rows are rearranged each by a position
/// array of its own: entry `i` of row `r` names entry `rows(r)[i]` of that row.
pub open spec fn row_positions(rows: spec_fn(int) -> Seq<usize>, width: nat, height: nat) -> Seq<
    usize,
> {
    Seq::new(
        width * height,
        |k: int| (rows(k / width as int)[k % width as int] + (k / width as int) * width) as usize,
    )
}

/// The position array of a grid whose columns are rearranged each by a
/// position array of its own: entry `j` of column `c` names entry
/// `columns(c)[j]` of that column.
pub open spec fn column_positions(
    columns: spec_fn(int) -> Seq<usize>,
    width: nat,
    height: nat,
) -> Seq<usize> {
    Seq::new(
        width * height,
        |k: int|
            (k % width as int + columns(k % width as int)[k / width as int] * width) as usize,
    )
}

/// Rearranging every row by a position array rearranges the grid by one.
pub proof fn lemma_row_positions(rows: spec_fn(int) -> Seq<usize>, width: nat, height: nat)
    requires
        width > 0,
        width * height <= usize::MAX,
        forall|r: int| 0 <= r < height ==> is_permutation(#[trigger] rows(r), width),
    ensures
        is_permutation(row_positions(rows, width, height), width * height),
{
    let p = row_positions(rows, width, height);
    let w = width as int;
    let h = height as int;
    assert forall|k: int| 0 <= k < p.len() implies (#[trigger] p[k]) < width * height by {
        lemma_cell_of_index(k, w, h);
        let cell = (rows(k / w)[k % w] as int, k / w);
        assert(is_permutation(rows(k / w), width));
        lemma_cell_index(cell, cell, w, h);
    }
    assert forall|k: int, l: int| 0 <= k < l < p.len() implies #[trigger] p[k] != #[trigger] p[l] by {
        lemma_cell_of_index(k, w, h);
        lemma_cell_of_index(l, w, h);
        assert(is_permutation(rows(k / w), width));
        assert(is_permutation(rows(l / w), width));
        let ck = (rows(k / w)[k % w] as int, k / w);
        let cl = (rows(l / w)[l % w] as int, l / w);
        lemma_cell_index(ck, cl, w, h);
        lemma_cell_index(cl, cl, w, h);
        if p[k] == p[l] {
            assert(k / w == l / w);
            let row = rows(k / w);
            if k % w < l % w {
                assert(row[k % w] != row[l % w]);
            } else if l % w < k % w {
                assert(row[l % w] != row[k % w]);
            }
            assert(false);
        }
    }
}

/// Rearranging every column by a position array rearranges the grid by one.
pub proof fn lemma_column_positions(columns: spec_fn(int) -> Seq<usize>, width: nat, height: nat)
    requires
        width > 0,
        width * height <= usize::MAX,
        forall|c: int| 0 <= c < width ==> is_permutation(#[trigger] columns(c), height),
    ensures
        is_permutation(column_positions(columns, width, height), width * height),
{
    let p = column_positions(columns, width, height);
    let w = width as int;
    let h = height as int;
    assert forall|k: int| 0 <= k < p.len() implies (#[trigger] p[k]) < width * height by {
        lemma_cell_of_index(k, w, h);
        assert(is_permutation(columns(k % w), height));
        let cell = (k % w, columns(k % w)[k / w] as int);
        lemma_cell_index(cell, cell, w, h);
    }
    assert forall|k: int, l: int| 0 <= k < l < p.len() implies #[trigger] p[k] != #[trigger] p[l] by {
        lemma_cell_of_index(k, w, h);
        lemma_cell_of_index(l, w, h);
        assert(is_permutation(columns(k % w), height));
        assert(is_permutation(columns(l % w), height));
        let ck = (k % w, columns(k % w)[k / w] as int);
        let cl = (l % w, columns(l % w)[l / w] as int);
        lemma_cell_index(ck, cl, w, h);
        lemma_cell_index(cl, cl, w, h);
        if p[k] == p[l] {
            assert(k % w == l % w);
            let column = columns(k % w);
            if k / w < l / w {
                assert(column[k / w] != column[l / w]);
            } else if l / w < k / w {
                assert(column[l / w] != column[k / w]);
            }
            assert(false);
        }
    }
}

/// `p` read from place `offset` on, and from its start again after its end.
pub open spec fn rotated(p: Seq<usize>, offset: nat) -> Seq<usize> {
    Seq::new(p.len(), |t: int| p[(t + offset) % p.len() as int])
}

/// A position array read from another place on is a position array.
pub proof fn lemma_rotated_is_permutation(p: Seq<usize>, n: nat, offset: nat)
    requires
        is_permutation(p, n),
    ensures
        is_permutation(rotated(p, offset), n),
{
    let q = rotated(p, offset);
    assert forall|k: int, l: int| 0 <= k < l < q.len() implies #[trigger] q[k] != #[trigger] q[l] by {
        let sk = (k + offset) % n as int;
        let sl = (l + offset) % n as int;
        if sk == sl {
            lemma_shift_keeps_apart(offset as int, k, l, n as int);
        }
        if sk < sl {
            assert(p[sk] != p[sl]);
        } else {
            assert(p[sl] != p[sk]);
        }
    }
}

/// A position array read from its start on is the position array.
pub proof fn lemma_rotated_by_nothing(p: Seq<usize>)
    ensures
        rotated(p, 0) == p,
{
    assert forall|t: int| 0 <= t < p.len() implies rotated(p, 0)[t] == p[t] by {
        vstd::arithmetic::div_mod::lemma_small_mod(t as nat, p.len());
    }
    assert(rotated(p, 0) =~= p);
}

/// The row-major index of a cell gives back its column and its row.
pub proof fn lemma_index_of_cell(i: int, j: int, width: int)
    requires
        0 <= i < width,
        0 <= j,
    ensures
        (i + j * width) % width == i,
        (i + j * width) / width == j,
        j * width + width == (j + 1) * width,
{
    vstd::arithmetic::div_mod::lemma_fundamental_div_mod_converse(i + j * width, width, j, i);
    assert(j * width + width == (j + 1) * width) by (nonlinear_arith);
}

/// Whether the entries of `s` ascend.
pub open spec fn is_ascending(s: Seq<usize>) -> bool {
    forall|k: int, l: int| 0 <= k < l < s.len() ==> #[trigger] s[k] <= #[trigger] s[l]
}

/// An entry of an ascending position array is no smaller than its place.
proof fn lemma_entry_at_least(p: Seq<usize>, n: nat, k: int)
    requires
        is_permutation(p, n),
        is_ascending(p),
        0 <= k < n,
    ensures
        p[k] >= k,
    decreases k,
{
    if k > 0 {
        lemma_entry_at_least(p, n, k - 1);
        assert(p[k - 1] <= p[k]);
        assert(p[k - 1] != p[k]);
    }
}

/// An entry of an ascending position array is no larger than its place.
proof fn lemma_entry_at_most(p: Seq<usize>, n: nat, k: int)
    requires
        is_permutation(p, n),
        is_ascending(p),
        0 <= k < n,
    ensures
        p[k] <= k,
    decreases n - k,
{
    if k + 1 < n {
        lemma_entry_at_most(p, n, k + 1);
        assert(p[k] <= p[k + 1]);
        assert(p[k] != p[k + 1]);
    }
}

/// A position array whose entries ascend is the identity.
pub proof fn lemma_ascending_is_identity(p: Seq<usize>, n: nat)
    requires
        is_permutation(p, n),
        is_ascending(p),
    ensures
        p == identity(n),
{
    assert forall|k: int| 0 <= k < n implies p[k] == identity(n)[k] by {
        lemma_entry_at_least(p, n, k);
        lemma_entry_at_most(p, n, k);
    }
    assert(p =~= identity(n));
}

/// The entries of a position array over `0..n`, put in ascending order, are
/// `0, 1, .. n - 1`.
pub proof fn lemma_sorted_entries_are_identity(p: Seq<usize>, n: nat, sorted: Seq<usize>)
    requires
        is_permutation(p, n),
        sorted.to_multiset() == p.to_multiset(),
        is_ascending(sorted),
    ensures
        sorted == identity(n),
{
    vstd::seq_lib::to_multiset_len(p);
    vstd::seq_lib::to_multiset_len(sorted);
    assert forall|k: int| 0 <= k < sorted.len() implies (#[trigger] sorted[k]) < n by {
        let v = sorted[k];
        assert(sorted.contains(v));
        vstd::seq_lib::to_multiset_contains(sorted, v);
        vstd::seq_lib::to_multiset_contains(p, v);
        let i = choose|i: int| 0 <= i < p.len() && p[i] == v;
        assert(p[i] < n);
    }
    assert(p.no_duplicates()) by {
        assert forall|i: int, j: int| 0 <= i < p.len() && 0 <= j < p.len() && i != j implies p[i]
            != p[j] by {
            if i < j {
                assert(p[i] != p[j]);
            } else {
                assert(p[j] != p[i]);
            }
        }
    }
    p.lemma_multiset_has_no_duplicates();
    sorted.lemma_multiset_has_no_duplicates_conv();
    assert(is_permutation(sorted, n));
    lemma_ascending_is_identity(sorted, n);
}

} // verus!
