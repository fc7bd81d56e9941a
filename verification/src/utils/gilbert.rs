//! A space-filling curve over a grid of any width and height.
//!
//! The curve is the generalized Hilbert curve: a rectangle is described by its
//! corner and two axis-parallel edge vectors, the major one `a` and the minor
//! one `b`. A rectangle that is one cell thick is walked straight; any other
//! is split, along `a` alone when it is long, else into three parts that the
//! curve enters and leaves at neighbouring corners. The curve visits every
//! cell of its grid once, and steps from each to a cell next to it.

pub mod locality;

use vstd::prelude::*;
use crate::permutation::{is_permutation, lemma_cell_index};
use crate::utils::gilbert::locality::{entries_adjoin, lemma_curve_steps};

verus! {

/// The direction of `v` along its axis: 1, -1 or 0.
pub open spec fn sign(v: int) -> int {
    if v > 0 {
        1
    } else if v < 0 {
        -1
    } else {
        0
    }
}

/// The absolute value of `v`.
pub open spec fn magnitude(v: int) -> int {
    if v >= 0 {
        v
    } else {
        -v
    }
}

/// The coordinate reached from `o` after `i` steps in direction `d`.
pub open spec fn advance(o: int, d: int, i: int) -> int {
    if d > 0 {
        o + i
    } else if d < 0 {
        o - i
    } else {
        o
    }
}

/// Two edge vectors that are axis-parallel, perpendicular and not zero.
pub open spec fn is_frame(ax: int, ay: int, bx: int, by: int) -> bool {
    (ax != 0 && ay == 0 && bx == 0 && by != 0) || (ax == 0 && ay != 0 && bx != 0 && by == 0)
}

/// `len` cells in a straight line from `(x, y)` in direction `(dx, dy)`.
pub open spec fn straight_run(x: int, y: int, dx: int, dy: int, len: nat) -> Seq<(int, int)> {
    Seq::new(len, |i: int| (advance(x, dx, i), advance(y, dy, i)))
}

/// The major half-edge of a split: half of `v`, rounded down, and one step
/// longer where `grow` asks for an even length.
#[verifier::opaque]
pub open spec fn split_edge(v: int, grow: bool) -> int {
    if grow {
        v / 2 + sign(v)
    } else {
        v / 2
    }
}

/// Whether the half of the edge `(vx, vy)` is odd and can be made even.
#[verifier::opaque]
pub open spec fn grows(vx: int, vy: int) -> bool {
    magnitude(vx / 2 + vy / 2) % 2 != 0 && magnitude(vx + vy) > 2
}

/// The cells of the rectangle at `(x, y)` with edges `a` and `b`, in the order
/// in which the curve visits them.
pub open spec fn curve_cells(x: int, y: int, ax: int, ay: int, bx: int, by: int) -> Seq<(int, int)>
    decreases magnitude(ax + ay) + magnitude(bx + by),
    via curve_cells_terminates
{
    let w = magnitude(ax + ay);
    let h = magnitude(bx + by);
    if !is_frame(ax, ay, bx, by) {
        Seq::empty()
    } else if h == 1 {
        straight_run(x, y, sign(ax), sign(ay), w as nat)
    } else if w == 1 {
        straight_run(x, y, sign(bx), sign(by), h as nat)
    } else if 2 * w > 3 * h {
        let ax2 = split_edge(ax, grows(ax, ay));
        let ay2 = split_edge(ay, grows(ax, ay));
        curve_cells(x, y, ax2, ay2, bx, by) + curve_cells(
            x + ax2,
            y + ay2,
            ax - ax2,
            ay - ay2,
            bx,
            by,
        )
    } else {
        let ax2 = ax / 2;
        let ay2 = ay / 2;
        let bx2 = split_edge(bx, grows(bx, by));
        let by2 = split_edge(by, grows(bx, by));
        curve_cells(x, y, bx2, by2, ax2, ay2) + curve_cells(
            x + bx2,
            y + by2,
            ax,
            ay,
            bx - bx2,
            by - by2,
        ) + curve_cells(
            x + (ax - sign(ax)) + (bx2 - sign(bx)),
            y + (ay - sign(ay)) + (by2 - sign(by)),
            -bx2,
            -by2,
            -(ax - ax2),
            -(ay - ay2),
        )
    }
}

#[via_fn]
proof fn curve_cells_terminates(x: int, y: int, ax: int, ay: int, bx: int, by: int) {
    reveal(split_edge);
    reveal(grows);
}

/// The lowest of the `|s|` coordinates that start at `o` and run in the
/// direction of `s`.
pub open spec fn span_lo(o: int, s: int) -> int {
    if s > 0 {
        o
    } else {
        o + s + 1
    }
}

/// One past the highest of the `|s|` coordinates that start at `o` and run in
/// the direction of `s`.
pub open spec fn span_hi(o: int, s: int) -> int {
    if s > 0 {
        o + s
    } else {
        o + 1
    }
}

/// Whether every cell of `cells` has its column in `r.0..r.1` and its row
/// in `r.2..r.3`.
pub open spec fn cells_within(cells: Seq<(int, int)>, r: (int, int, int, int)) -> bool {
    forall|k: int|
        0 <= k < cells.len() ==> r.0 <= (#[trigger] cells[k]).0 < r.1 && r.2 <= cells[k].1 < r.3
}

/// Whether no cell occurs twice in `cells`.
pub open spec fn cells_distinct(cells: Seq<(int, int)>) -> bool {
    forall|k: int, l: int|
        0 <= k < l < cells.len() ==> #[trigger] cells[k] != #[trigger] cells[l]
}

/// The rectangle of a frame, as the bounds of its columns and of its rows.
#[verifier::opaque]
pub open spec fn frame_rect(x: int, y: int, ax: int, ay: int, bx: int, by: int) -> (
    int,
    int,
    int,
    int,
) {
    (span_lo(x, ax + bx), span_hi(x, ax + bx), span_lo(y, ay + by), span_hi(y, ay + by))
}

/// Whether `inner` lies inside `outer`.
pub open spec fn rect_inside(inner: (int, int, int, int), outer: (int, int, int, int)) -> bool {
    outer.0 <= inner.0 && inner.1 <= outer.1 && outer.2 <= inner.2 && inner.3 <= outer.3
}

/// Whether two rectangles share no cell because one ends where the other
/// begins, along the columns or along the rows.
pub open spec fn rect_apart(r1: (int, int, int, int), r2: (int, int, int, int)) -> bool {
    r1.1 <= r2.0 || r2.1 <= r1.0 || r1.3 <= r2.2 || r2.3 <= r1.2
}

/// Whether the cells of the rectangle at `(x, y)` with edges `a` and `b` are
/// exactly what `cells` holds: as many, each inside, none twice.
pub open spec fn fills_frame(
    cells: Seq<(int, int)>,
    x: int,
    y: int,
    ax: int,
    ay: int,
    bx: int,
    by: int,
) -> bool {
    &&& cells.len() == magnitude(ax + ay) * magnitude(bx + by)
    &&& cells_within(cells, frame_rect(x, y, ax, ay, bx, by))
    &&& cells_distinct(cells)
}

/// Two runs of distinct cells, the first in rectangles apart from the one
/// that holds the second, make one run of distinct cells.
proof fn lemma_join(
    first: Seq<(int, int)>,
    second: Seq<(int, int)>,
    r: (int, int, int, int),
    r1: (int, int, int, int),
    r2: (int, int, int, int),
    r3: (int, int, int, int),
)
    requires
        cells_distinct(first),
        cells_distinct(second),
        cells_within(first, r),
        cells_within(second, r3),
        rect_inside(r3, r),
        rect_apart(r1, r3),
        rect_apart(r2, r3),
        forall|k: int|
            0 <= k < first.len() ==> (r1.0 <= (#[trigger] first[k]).0 < r1.1 && r1.2 <= first[k].1
                < r1.3) || (r2.0 <= first[k].0 < r2.1 && r2.2 <= first[k].1 < r2.3),
    ensures
        cells_within(first + second, r),
        cells_distinct(first + second),
        forall|k: int|
            0 <= k < first.len() + second.len() ==> {
                ||| (r1.0 <= (#[trigger] (first + second)[k]).0 < r1.1 && r1.2 <= (first
                    + second)[k].1 < r1.3)
                ||| (r2.0 <= (first + second)[k].0 < r2.1 && r2.2 <= (first + second)[k].1 < r2.3)
                ||| (r3.0 <= (first + second)[k].0 < r3.1 && r3.2 <= (first + second)[k].1 < r3.3)
            },
{
    let cells = first + second;
    assert forall|k: int| 0 <= k < cells.len() implies {
        &&& r.0 <= (#[trigger] cells[k]).0 < r.1 && r.2 <= cells[k].1 < r.3
        &&& {
            ||| (r1.0 <= cells[k].0 < r1.1 && r1.2 <= cells[k].1 < r1.3)
            ||| (r2.0 <= cells[k].0 < r2.1 && r2.2 <= cells[k].1 < r2.3)
            ||| (r3.0 <= cells[k].0 < r3.1 && r3.2 <= cells[k].1 < r3.3)
        }
    } by {
        if k < first.len() {
            assert(cells[k] == first[k]);
        } else {
            assert(cells[k] == second[k - first.len()]);
        }
    }
    assert forall|k: int, l: int| 0 <= k < l < cells.len() implies #[trigger] cells[k]
        != #[trigger] cells[l] by {
        if k < first.len() {
            assert(cells[k] == first[k]);
        } else {
            assert(cells[k] == second[k - first.len()]);
        }
        if l < first.len() {
            assert(cells[l] == first[l]);
        } else {
            assert(cells[l] == second[l - first.len()]);
        }
    }
}

/// The two parts of a long rectangle are frames, lie side by side inside it
/// and share its cells between them.
proof fn lemma_long_split(x: int, y: int, ax: int, ay: int, bx: int, by: int)
    requires
        is_frame(ax, ay, bx, by),
        magnitude(ax + ay) >= 2,
    ensures
        ({
            let ax2 = split_edge(ax, grows(ax, ay));
            let ay2 = split_edge(ay, grows(ax, ay));
            let r = frame_rect(x, y, ax, ay, bx, by);
            let r1 = frame_rect(x, y, ax2, ay2, bx, by);
            let r2 = frame_rect(x + ax2, y + ay2, ax - ax2, ay - ay2, bx, by);
            &&& is_frame(ax2, ay2, bx, by)
            &&& is_frame(ax - ax2, ay - ay2, bx, by)
            &&& 0 < magnitude(ax2 + ay2) < magnitude(ax + ay)
            &&& magnitude(ax - ax2 + ay - ay2) == magnitude(ax + ay) - magnitude(ax2 + ay2)
            &&& rect_inside(r1, r)
            &&& rect_inside(r2, r)
            &&& rect_apart(r1, r2)
        }),
{
    reveal(split_edge);
    reveal(grows);
    reveal(frame_rect);
    if ax != 0 {
        if ax > 0 {
        } else {
        }
    } else {
        if ay > 0 {
        } else {
        }
    }
}

/// The three parts of a rectangle that is not long are frames, lie inside it
/// apart from each other and share its cells between them.
proof fn lemma_standard_split(x: int, y: int, ax: int, ay: int, bx: int, by: int)
    requires
        is_frame(ax, ay, bx, by),
        magnitude(ax + ay) >= 2,
        magnitude(bx + by) >= 2,
    ensures
        ({
            let ax2 = ax / 2;
            let ay2 = ay / 2;
            let bx2 = split_edge(bx, grows(bx, by));
            let by2 = split_edge(by, grows(bx, by));
            let x3 = x + (ax - sign(ax)) + (bx2 - sign(bx));
            let y3 = y + (ay - sign(ay)) + (by2 - sign(by));
            let r = frame_rect(x, y, ax, ay, bx, by);
            let r1 = frame_rect(x, y, bx2, by2, ax2, ay2);
            let r2 = frame_rect(x + bx2, y + by2, ax, ay, bx - bx2, by - by2);
            let r3 = frame_rect(x3, y3, -bx2, -by2, -(ax - ax2), -(ay - ay2));
            &&& is_frame(bx2, by2, ax2, ay2)
            &&& is_frame(ax, ay, bx - bx2, by - by2)
            &&& is_frame(-bx2, -by2, -(ax - ax2), -(ay - ay2))
            &&& 0 < magnitude(ax2 + ay2) < magnitude(ax + ay)
            &&& 0 < magnitude(bx2 + by2) < magnitude(bx + by)
            &&& magnitude(bx - bx2 + by - by2) == magnitude(bx + by) - magnitude(bx2 + by2)
            &&& magnitude(-(ax - ax2) + -(ay - ay2)) == magnitude(ax + ay) - magnitude(ax2 + ay2)
            &&& magnitude(-bx2 + -by2) == magnitude(bx2 + by2)
            &&& rect_inside(r1, r)
            &&& rect_inside(r2, r)
            &&& rect_inside(r3, r)
            &&& rect_apart(r1, r2)
            &&& rect_apart(r1, r3)
            &&& rect_apart(r2, r3)
        }),
{
    reveal(split_edge);
    reveal(grows);
    reveal(frame_rect);
    if ax != 0 {
        if ax > 0 {
            if by > 0 {
            } else {
            }
        } else {
            if by > 0 {
            } else {
            }
        }
    } else {
        if ay > 0 {
            if bx > 0 {
            } else {
            }
        } else {
            if bx > 0 {
            } else {
            }
        }
    }
}

/// A straight run along the major edge fills a rectangle one cell thick.
proof fn lemma_straight_run(x: int, y: int, ax: int, ay: int, bx: int, by: int)
    requires
        is_frame(ax, ay, bx, by),
        magnitude(bx + by) == 1,
    ensures
        fills_frame(
            straight_run(x, y, sign(ax), sign(ay), magnitude(ax + ay) as nat),
            x,
            y,
            ax,
            ay,
            bx,
            by,
        ),
{
    reveal(frame_rect);
    let w = magnitude(ax + ay);
    assert(w * 1 == w);
}

/// What fills the two parts of a long rectangle fills the rectangle.
proof fn lemma_long_case(
    first: Seq<(int, int)>,
    second: Seq<(int, int)>,
    x: int,
    y: int,
    ax: int,
    ay: int,
    bx: int,
    by: int,
)
    requires
        is_frame(ax, ay, bx, by),
        magnitude(ax + ay) >= 2,
        ({
            let ax2 = split_edge(ax, grows(ax, ay));
            let ay2 = split_edge(ay, grows(ax, ay));
            &&& fills_frame(first, x, y, ax2, ay2, bx, by)
            &&& fills_frame(second, x + ax2, y + ay2, ax - ax2, ay - ay2, bx, by)
        }),
    ensures
        fills_frame(first + second, x, y, ax, ay, bx, by),
{
    let ax2 = split_edge(ax, grows(ax, ay));
    let ay2 = split_edge(ay, grows(ax, ay));
    lemma_long_split(x, y, ax, ay, bx, by);
    let w = magnitude(ax + ay);
    let h = magnitude(bx + by);
    let w2 = magnitude(ax2 + ay2);
    assert(w2 * h + (w - w2) * h == w * h) by (nonlinear_arith);
    let r = frame_rect(x, y, ax, ay, bx, by);
    let r1 = frame_rect(x, y, ax2, ay2, bx, by);
    let r2 = frame_rect(x + ax2, y + ay2, ax - ax2, ay - ay2, bx, by);
    lemma_join(first, second, r, r1, r1, r2);
}

/// What fills the three parts of a rectangle that is not long fills the
/// rectangle.
proof fn lemma_standard_case(
    first: Seq<(int, int)>,
    second: Seq<(int, int)>,
    third: Seq<(int, int)>,
    x: int,
    y: int,
    ax: int,
    ay: int,
    bx: int,
    by: int,
)
    requires
        is_frame(ax, ay, bx, by),
        magnitude(ax + ay) >= 2,
        magnitude(bx + by) >= 2,
        ({
            let ax2 = ax / 2;
            let ay2 = ay / 2;
            let bx2 = split_edge(bx, grows(bx, by));
            let by2 = split_edge(by, grows(bx, by));
            let x3 = x + (ax - sign(ax)) + (bx2 - sign(bx));
            let y3 = y + (ay - sign(ay)) + (by2 - sign(by));
            &&& fills_frame(first, x, y, bx2, by2, ax2, ay2)
            &&& fills_frame(second, x + bx2, y + by2, ax, ay, bx - bx2, by - by2)
            &&& fills_frame(third, x3, y3, -bx2, -by2, -(ax - ax2), -(ay - ay2))
        }),
    ensures
        fills_frame(first + second + third, x, y, ax, ay, bx, by),
{
    let ax2 = ax / 2;
    let ay2 = ay / 2;
    let bx2 = split_edge(bx, grows(bx, by));
    let by2 = split_edge(by, grows(bx, by));
    let x3 = x + (ax - sign(ax)) + (bx2 - sign(bx));
    let y3 = y + (ay - sign(ay)) + (by2 - sign(by));
    lemma_standard_split(x, y, ax, ay, bx, by);
    let w = magnitude(ax + ay);
    let h = magnitude(bx + by);
    let w2 = magnitude(ax2 + ay2);
    let h2 = magnitude(bx2 + by2);
    assert(h2 * w2 + w * (h - h2) + h2 * (w - w2) == w * h) by (nonlinear_arith);
    let r = frame_rect(x, y, ax, ay, bx, by);
    let r1 = frame_rect(x, y, bx2, by2, ax2, ay2);
    let r2 = frame_rect(x + bx2, y + by2, ax, ay, bx - bx2, by - by2);
    let r3 = frame_rect(x3, y3, -bx2, -by2, -(ax - ax2), -(ay - ay2));
    lemma_join(first, second, r, r1, r1, r2);
    lemma_join(first + second, third, r, r1, r2, r3);
}

/// The curve over a rectangle holds as many cells as the rectangle, each of
/// them inside it, and none twice.
pub proof fn lemma_curve_cells(x: int, y: int, ax: int, ay: int, bx: int, by: int)
    requires
        is_frame(ax, ay, bx, by),
    ensures
        fills_frame(curve_cells(x, y, ax, ay, bx, by), x, y, ax, ay, bx, by),
    decreases magnitude(ax + ay) + magnitude(bx + by),
{
    let w = magnitude(ax + ay);
    let h = magnitude(bx + by);
    if h == 1 {
        lemma_straight_run(x, y, ax, ay, bx, by);
    } else if w == 1 {
        lemma_straight_run(x, y, bx, by, ax, ay);
        lemma_frame_swap(x, y, ax, ay, bx, by);
    } else if 2 * w > 3 * h {
        let ax2 = split_edge(ax, grows(ax, ay));
        let ay2 = split_edge(ay, grows(ax, ay));
        lemma_long_split(x, y, ax, ay, bx, by);
        lemma_curve_cells(x, y, ax2, ay2, bx, by);
        lemma_curve_cells(x + ax2, y + ay2, ax - ax2, ay - ay2, bx, by);
        lemma_long_case(
            curve_cells(x, y, ax2, ay2, bx, by),
            curve_cells(x + ax2, y + ay2, ax - ax2, ay - ay2, bx, by),
            x,
            y,
            ax,
            ay,
            bx,
            by,
        );
    } else {
        let ax2 = ax / 2;
        let ay2 = ay / 2;
        let bx2 = split_edge(bx, grows(bx, by));
        let by2 = split_edge(by, grows(bx, by));
        let x3 = x + (ax - sign(ax)) + (bx2 - sign(bx));
        let y3 = y + (ay - sign(ay)) + (by2 - sign(by));
        lemma_standard_split(x, y, ax, ay, bx, by);
        lemma_curve_cells(x, y, bx2, by2, ax2, ay2);
        lemma_curve_cells(x + bx2, y + by2, ax, ay, bx - bx2, by - by2);
        lemma_curve_cells(x3, y3, -bx2, -by2, -(ax - ax2), -(ay - ay2));
        lemma_standard_case(
            curve_cells(x, y, bx2, by2, ax2, ay2),
            curve_cells(x + bx2, y + by2, ax, ay, bx - bx2, by - by2),
            curve_cells(x3, y3, -bx2, -by2, -(ax - ax2), -(ay - ay2)),
            x,
            y,
            ax,
            ay,
            bx,
            by,
        );
    }
}

/// A frame and the frame with its edges exchanged are one rectangle.
proof fn lemma_frame_swap(x: int, y: int, ax: int, ay: int, bx: int, by: int)
    ensures
        frame_rect(x, y, ax, ay, bx, by) == frame_rect(x, y, bx, by, ax, ay),
        magnitude(ax + ay) * magnitude(bx + by) == magnitude(bx + by) * magnitude(ax + ay),
{
    reveal(frame_rect);
    assert(magnitude(ax + ay) * magnitude(bx + by) == magnitude(bx + by) * magnitude(ax + ay))
        by (nonlinear_arith);
}

/// A frame inside a grid starts in the grid, and its edges are no longer than
/// the grid's sides.
proof fn lemma_frame_bounds(
    x: int,
    y: int,
    ax: int,
    ay: int,
    bx: int,
    by: int,
    width: int,
    height: int,
)
    requires
        is_frame(ax, ay, bx, by),
        rect_inside(frame_rect(x, y, ax, ay, bx, by), (0, width, 0, height)),
    ensures
        0 <= x < width,
        0 <= y < height,
        -width <= ax <= width,
        -width <= bx <= width,
        -height <= ay <= height,
        -height <= by <= height,
{
    reveal(frame_rect);
}

/// The row-major index of each cell of `cells` in a grid `width` wide.
pub open spec fn linear_indices(cells: Seq<(int, int)>, width: int) -> Seq<usize> {
    Seq::new(cells.len(), |k: int| (cells[k].0 + cells[k].1 * width) as usize)
}

/// The curve over a grid of `width` by `height` cells, as row-major indices.
/// The major edge is the longer side, the width where both are equal.
pub open spec fn curve(width: int, height: int) -> Seq<usize> {
    if width >= height {
        linear_indices(curve_cells(0, 0, width, 0, 0, height), width)
    } else {
        linear_indices(curve_cells(0, 0, 0, height, width, 0), width)
    }
}

/// The curve visits every cell of the grid exactly once.
pub proof fn lemma_curve_is_permutation(width: int, height: int)
    requires
        width > 0,
        height > 0,
        width * height <= usize::MAX,
    ensures
        is_permutation(curve(width, height), (width * height) as nat),
{
    let cells = if width >= height {
        curve_cells(0, 0, width, 0, 0, height)
    } else {
        curve_cells(0, 0, 0, height, width, 0)
    };
    if width >= height {
        lemma_curve_cells(0, 0, width, 0, 0, height);
    } else {
        lemma_curve_cells(0, 0, 0, height, width, 0);
        assert(height * width == width * height) by (nonlinear_arith);
    }
    reveal(frame_rect);
    let p = curve(width, height);
    assert(p.len() == width * height);
    assert forall|k: int| 0 <= k < p.len() implies (#[trigger] p[k]) < width * height by {
        lemma_cell_index(cells[k], cells[k], width, height);
    }
    assert forall|k: int, l: int| 0 <= k < l < p.len() implies #[trigger] p[k] != #[trigger] p[l] by {
        lemma_cell_index(cells[k], cells[l], width, height);
        lemma_cell_index(cells[l], cells[l], width, height);
        assert(cells[k] != cells[l]);
    }
}

/// Reading the indices of two runs of cells one after the other is reading
/// the indices of the joined run.
proof fn lemma_linear_indices_join(first: Seq<(int, int)>, second: Seq<(int, int)>, width: int)
    ensures
        linear_indices(first + second, width) == linear_indices(first, width) + linear_indices(
            second,
            width,
        ),
{
    assert(linear_indices(first + second, width) =~= linear_indices(first, width)
        + linear_indices(second, width));
}

fn sign_of(v: i64) -> (r: i64)
    ensures
        r == sign(v as int),
{
    if v > 0 {
        1
    } else if v < 0 {
        -1
    } else {
        0
    }
}

fn magnitude_of(v: i64) -> (r: i64)
    requires
        v > i64::MIN,
    ensures
        r == magnitude(v as int),
{
    if v >= 0 {
        v
    } else {
        -v
    }
}

fn floor_half(v: i64) -> (r: i64)
    requires
        -0x8000_0000 <= v <= 0x8000_0000,
    ensures
        r == (v as int) / 2,
{
    if v >= 0 {
        v / 2
    } else {
        -((1 - v) / 2)
    }
}

/// The major half of the edge `(vx, vy)` of a split.
fn split_major(vx: i64, vy: i64) -> (r: (i64, i64))
    requires
        -0x8000_0000 <= vx <= 0x8000_0000,
        -0x8000_0000 <= vy <= 0x8000_0000,
    ensures
        r.0 == split_edge(vx as int, grows(vx as int, vy as int)),
        r.1 == split_edge(vy as int, grows(vx as int, vy as int)),
{
    proof {
        reveal(split_edge);
        reveal(grows);
    }
    let len: i64 = magnitude_of(vx + vy);
    let hx: i64 = floor_half(vx);
    let hy: i64 = floor_half(vy);
    let half: i64 = magnitude_of(hx + hy);
    if half % 2 != 0 && len > 2 {
        (hx + sign_of(vx), hy + sign_of(vy))
    } else {
        (hx, hy)
    }
}

fn cell_index(cx: i64, cy: i64, width: i64, height: i64) -> (r: usize)
    requires
        0 <= cx < width <= i32::MAX,
        0 <= cy < height <= i32::MAX,
        width * height <= usize::MAX,
    ensures
        r == cx + cy * width,
{
    proof {
        lemma_cell_index((cx as int, cy as int), (cx as int, cy as int), width as int, height as int);
        assert(width * height <= 0x7fff_ffff * 0x7fff_ffff) by (nonlinear_arith)
            requires
                0 < width <= 0x7fff_ffff,
                0 < height <= 0x7fff_ffff,
        ;
        assert(0 <= cy * width) by (nonlinear_arith)
            requires
                0 <= cy,
                0 < width,
        ;
    }
    (cx + cy * width) as usize
}

/// Appends the indices of `len` cells in a straight line from `(x, y)`.
fn push_run(
    x: i64,
    y: i64,
    dx: i64,
    dy: i64,
    len: i64,
    width: i64,
    height: i64,
    out: &mut Vec<usize>,
)
    requires
        0 <= len <= i32::MAX,
        0 < width <= i32::MAX,
        0 < height <= i32::MAX,
        width * height <= usize::MAX,
        cells_within(
            straight_run(x as int, y as int, dx as int, dy as int, len as nat),
            (0, width as int, 0, height as int),
        ),
    ensures
        final(out)@ == old(out)@ + linear_indices(
            straight_run(x as int, y as int, dx as int, dy as int, len as nat),
            width as int,
        ),
{
    let ghost run = straight_run(x as int, y as int, dx as int, dy as int, len as nat);
    let ghost before = out@;
    let mut i: i64 = 0;
    while i < len
        invariant
            0 <= i <= len <= i32::MAX,
            0 < width <= i32::MAX,
            0 < height <= i32::MAX,
            width * height <= usize::MAX,
            run == straight_run(x as int, y as int, dx as int, dy as int, len as nat),
            cells_within(run, (0, width as int, 0, height as int)),
            out@.len() == before.len() + i,
            forall|k: int| 0 <= k < before.len() ==> out@[k] == before[k],
            forall|k: int|
                0 <= k < i ==> out@[before.len() + k] == linear_indices(run, width as int)[k],
        decreases len - i,
    {
        assert(run[i as int] == (
            advance(x as int, dx as int, i as int),
            advance(y as int, dy as int, i as int),
        ));
        let cx: i64 = if dx > 0 {
            x + i
        } else if dx < 0 {
            x - i
        } else {
            x
        };
        let cy: i64 = if dy > 0 {
            y + i
        } else if dy < 0 {
            y - i
        } else {
            y
        };
        out.push(cell_index(cx, cy, width, height));
        i += 1;
    }
    assert(out@ =~= before + linear_indices(run, width as int));
}

/// Appends the indices of the cells of a rectangle in the order of the curve.
fn generate2d(
    x: i64,
    y: i64,
    ax: i64,
    ay: i64,
    bx: i64,
    by: i64,
    width: i64,
    height: i64,
    out: &mut Vec<usize>,
)
    requires
        is_frame(ax as int, ay as int, bx as int, by as int),
        0 < width <= i32::MAX,
        0 < height <= i32::MAX,
        width * height <= usize::MAX,
        rect_inside(
            frame_rect(x as int, y as int, ax as int, ay as int, bx as int, by as int),
            (0, width as int, 0, height as int),
        ),
    ensures
        final(out)@ == old(out)@ + linear_indices(
            curve_cells(x as int, y as int, ax as int, ay as int, bx as int, by as int),
            width as int,
        ),
    decreases magnitude(ax + ay) + magnitude(bx + by),
{
    proof {
        lemma_frame_bounds(
            x as int,
            y as int,
            ax as int,
            ay as int,
            bx as int,
            by as int,
            width as int,
            height as int,
        );
    }
    let w: i64 = magnitude_of(ax + ay);
    let h: i64 = magnitude_of(bx + by);
    let ghost before = out@;
    if h == 1 {
        proof {
            lemma_straight_run(x as int, y as int, ax as int, ay as int, bx as int, by as int);
        }
        push_run(x, y, sign_of(ax), sign_of(ay), w, width, height, out);
    } else if w == 1 {
        proof {
            lemma_straight_run(x as int, y as int, bx as int, by as int, ax as int, ay as int);
            lemma_frame_swap(x as int, y as int, ax as int, ay as int, bx as int, by as int);
        }
        push_run(x, y, sign_of(bx), sign_of(by), h, width, height, out);
    } else if 2 * w > 3 * h {
        let (ax2, ay2) = split_major(ax, ay);
        proof {
            lemma_long_split(x as int, y as int, ax as int, ay as int, bx as int, by as int);
            lemma_frame_bounds(
                x + ax2,
                y + ay2,
                ax - ax2,
                ay - ay2,
                bx as int,
                by as int,
                width as int,
                height as int,
            );
            lemma_linear_indices_join(
                curve_cells(x as int, y as int, ax2 as int, ay2 as int, bx as int, by as int),
                curve_cells(x + ax2, y + ay2, ax - ax2, ay - ay2, bx as int, by as int),
                width as int,
            );
        }
        generate2d(x, y, ax2, ay2, bx, by, width, height, out);
        generate2d(x + ax2, y + ay2, ax - ax2, ay - ay2, bx, by, width, height, out);
        assert(out@ =~= before + linear_indices(
            curve_cells(x as int, y as int, ax as int, ay as int, bx as int, by as int),
            width as int,
        ));
    } else {
        let ax2: i64 = floor_half(ax);
        let ay2: i64 = floor_half(ay);
        let (bx2, by2) = split_major(bx, by);
        proof {
            lemma_standard_split(x as int, y as int, ax as int, ay as int, bx as int, by as int);
        }
        let x3: i64 = x + (ax - sign_of(ax)) + (bx2 - sign_of(bx));
        let y3: i64 = y + (ay - sign_of(ay)) + (by2 - sign_of(by));
        proof {
            lemma_frame_bounds(
                x + bx2,
                y + by2,
                ax as int,
                ay as int,
                bx - bx2,
                by - by2,
                width as int,
                height as int,
            );
            lemma_frame_bounds(
                x3 as int,
                y3 as int,
                -bx2,
                -by2,
                -(ax - ax2),
                -(ay - ay2),
                width as int,
                height as int,
            );
            let first = curve_cells(
                x as int,
                y as int,
                bx2 as int,
                by2 as int,
                ax2 as int,
                ay2 as int,
            );
            let second = curve_cells(x + bx2, y + by2, ax as int, ay as int, bx - bx2, by - by2);
            let third = curve_cells(x3 as int, y3 as int, -bx2, -by2, -(ax - ax2), -(ay - ay2));
            lemma_linear_indices_join(first, second, width as int);
            lemma_linear_indices_join(first + second, third, width as int);
        }
        generate2d(x, y, bx2, by2, ax2, ay2, width, height, out);
        generate2d(x + bx2, y + by2, ax, ay, bx - bx2, by - by2, width, height, out);
        generate2d(x3, y3, -bx2, -by2, -(ax - ax2), -(ay - ay2), width, height, out);
        assert(out@ =~= before + linear_indices(
            curve_cells(x as int, y as int, ax as int, ay as int, bx as int, by as int),
            width as int,
        ));
    }
}

/// The space-filling curve over a grid of `width` by `height` cells: the
/// row-major index of every cell, in the order of the visit. Every cell is
/// visited once, and each is next to the cell visited before it.
pub fn gilbert2d(width: i32, height: i32) -> (positions: Vec<usize>)
    requires
        width > 0,
        height > 0,
        width * height <= usize::MAX,
    ensures
        positions@ == curve(width as int, height as int),
        is_permutation(positions@, (width * height) as nat),
        forall|k: int|
            0 <= k < positions@.len() - 1 ==> entries_adjoin(
                #[trigger] positions@[k],
                positions@[k + 1],
                width as int,
            ),
{
    let mut positions: Vec<usize> = Vec::new();
    proof {
        lemma_curve_is_permutation(width as int, height as int);
        reveal(frame_rect);
        assert forall|k: int| 0 <= k < width * height - 1 implies entries_adjoin(
            #[trigger] curve(width as int, height as int)[k],
            curve(width as int, height as int)[k + 1],
            width as int,
        ) by {
            lemma_curve_steps(width as int, height as int, k);
        }
    }
    if width >= height {
        generate2d(0, 0, width as i64, 0, 0, height as i64, width as i64, height as i64, &mut positions);
    } else {
        generate2d(0, 0, 0, height as i64, width as i64, 0, width as i64, height as i64, &mut positions);
    }
    assert(positions@ =~= curve(width as int, height as int));
    positions
}

} // verus!
