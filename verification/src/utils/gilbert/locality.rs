//! The curve as a path: every cell it visits is next to the cell before.
//!
//! A rectangle that the curve over a grid comes to is left at the far end of
//! its major edge, on the side of its corner. Two kinds of rectangle cannot
//! be left there: one that is a single cell wide is left at the far end of
//! its minor edge, and one of an odd length and two cells thick is left one
//! cell before the far end. The split of a rectangle is made so that each
//! part is left at a cell next to the corner of the part that follows.

use vstd::prelude::*;
use crate::permutation::lemma_index_of_cell;
use crate::utils::gilbert::{
    curve,
    curve_cells,
    frame_rect,
    grows,
    is_frame,
    lemma_curve_cells,
    magnitude,
    sign,
    split_edge,
    straight_run,
};

verus! {

/// Whether two cells are next to each other: no more than one column and
/// one row apart.
pub open spec fn cells_adjoin(c: (int, int), d: (int, int)) -> bool {
    -1 <= c.0 - d.0 <= 1 && -1 <= c.1 - d.1 <= 1
}

/// Whether every cell of `cells` is next to the cell before it.
pub open spec fn is_path(cells: Seq<(int, int)>) -> bool {
    forall|k: int| 0 <= k < cells.len() - 1 ==> cells_adjoin(#[trigger] cells[k], cells[k + 1])
}

/// Whether two entries of a position array over a grid `width` wide are the
/// indices of cells next to each other.
pub open spec fn entries_adjoin(i: usize, j: usize, width: int) -> bool {
    cells_adjoin(
        ((i as int) % width, (i as int) / width),
        ((j as int) % width, (j as int) / width),
    )
}

/// Whether edges of the lengths and directions `a` and `b` are those of a
/// rectangle that the curve over a grid comes to: a major edge that runs
/// backwards is of even length or a single cell, and a rectangle that is a
/// single cell wide holds no more than two cells.
#[verifier::opaque]
pub open spec fn is_regular_pair(a: int, b: int) -> bool {
    &&& a != 0
    &&& b != 0
    &&& a < 0 ==> magnitude(a) % 2 == 0 || magnitude(a) == 1
    &&& magnitude(a) == 1 ==> magnitude(b) <= 2
}

/// How far along its major edge the curve leaves a rectangle with edges of
/// the lengths and directions `a` and `b`.
#[verifier::opaque]
pub open spec fn exit_along_major(a: int, b: int) -> int {
    if magnitude(b) == 1 {
        a - sign(a)
    } else if magnitude(a) == 1 {
        0
    } else if magnitude(b) == 2 && magnitude(a) % 2 == 1 {
        a - 2 * sign(a)
    } else {
        a - sign(a)
    }
}

/// How far along its minor edge the curve leaves a rectangle with edges of
/// the lengths and directions `a` and `b`.
#[verifier::opaque]
pub open spec fn exit_along_minor(a: int, b: int) -> int {
    if magnitude(b) != 1 && magnitude(a) == 1 {
        b - sign(b)
    } else {
        0
    }
}

/// The rectangles that the curve over a grid comes to.
pub open spec fn is_regular(ax: int, ay: int, bx: int, by: int) -> bool {
    is_frame(ax, ay, bx, by) && is_regular_pair(ax + ay, bx + by)
}

/// The cell at which the curve leaves the rectangle at `(x, y)` with edges
/// `a` and `b`.
pub open spec fn exit_cell(x: int, y: int, ax: int, ay: int, bx: int, by: int) -> (int, int) {
    if ay == 0 {
        (x + exit_along_major(ax + ay, bx + by), y + exit_along_minor(ax + ay, bx + by))
    } else {
        (x + exit_along_minor(ax + ay, bx + by), y + exit_along_major(ax + ay, bx + by))
    }
}

/// Whether `cells` is a path through the rectangle at `(x, y)` with edges
/// `a` and `b`: from its corner to the cell at which the curve leaves it.
pub open spec fn is_path_through(
    cells: Seq<(int, int)>,
    x: int,
    y: int,
    ax: int,
    ay: int,
    bx: int,
    by: int,
) -> bool {
    &&& cells.len() > 0
    &&& cells[0] == (x, y)
    &&& cells[cells.len() - 1] == exit_cell(x, y, ax, ay, bx, by)
    &&& is_path(cells)
}

/// A path that ends next to the start of another goes on with the other.
proof fn lemma_join_paths(first: Seq<(int, int)>, second: Seq<(int, int)>)
    requires
        first.len() > 0,
        second.len() > 0,
        is_path(first),
        is_path(second),
        cells_adjoin(first[first.len() - 1], second[0]),
    ensures
        is_path(first + second),
        (first + second).len() > 0,
        (first + second)[0] == first[0],
        (first + second)[(first + second).len() - 1] == second[second.len() - 1],
{
    let cells = first + second;
    assert forall|k: int| 0 <= k < cells.len() - 1 implies cells_adjoin(
        #[trigger] cells[k],
        cells[k + 1],
    ) by {
        if k + 1 < first.len() {
            assert(cells[k] == first[k] && cells[k + 1] == first[k + 1]);
        } else if k < first.len() {
            assert(cells[k] == first[k] && cells[k + 1] == second[0]);
        } else {
            assert(cells[k] == second[k - first.len()]);
            assert(cells[k + 1] == second[k - first.len() + 1]);
        }
    }
}

/// A rectangle one cell thick or one cell wide is walked straight from its
/// corner to its exit.
proof fn lemma_run_is_path(x: int, y: int, ax: int, ay: int, bx: int, by: int)
    requires
        is_regular(ax, ay, bx, by),
        magnitude(bx + by) == 1 || magnitude(ax + ay) == 1,
    ensures
        is_path_through(curve_cells(x, y, ax, ay, bx, by), x, y, ax, ay, bx, by),
{
    reveal(is_regular_pair);
    reveal(exit_along_major);
    reveal(exit_along_minor);
    let cells = curve_cells(x, y, ax, ay, bx, by);
    if magnitude(bx + by) == 1 {
        assert(cells == straight_run(x, y, sign(ax), sign(ay), magnitude(ax + ay) as nat));
    } else {
        assert(cells == straight_run(x, y, sign(bx), sign(by), magnitude(bx + by) as nat));
    }
}

/// The half of an edge of length and direction `v` at which a rectangle is
/// split.
pub open spec fn split_length(v: int) -> int {
    split_edge(v, grows(v, 0))
}

/// The parts of a long rectangle, by the lengths of their edges: both are
/// rectangles that the curve comes to, the first is left next to the corner
/// of the second, and the second where the whole is left.
proof fn lemma_long_pair(a: int, b: int)
    requires
        is_regular_pair(a, b),
        magnitude(a) >= 2,
        magnitude(b) >= 2,
        2 * magnitude(a) > 3 * magnitude(b),
    ensures
        ({
            let a2 = split_length(a);
            &&& is_regular_pair(a2, b)
            &&& is_regular_pair(a - a2, b)
            &&& -1 <= exit_along_major(a2, b) - a2 <= 1
            &&& -1 <= exit_along_minor(a2, b) <= 1
            &&& a2 + exit_along_major(a - a2, b) == exit_along_major(a, b)
            &&& exit_along_minor(a - a2, b) == exit_along_minor(a, b)
        }),
{
    reveal(is_regular_pair);
    reveal(exit_along_major);
    reveal(exit_along_minor);
    reveal(split_edge);
    reveal(grows);
    if a > 0 {
    } else {
    }
}

/// The first part of a rectangle that is not long, by the lengths of its
/// edges: a rectangle that the curve comes to, left next to the corner of
/// the second part.
proof fn lemma_standard_pair_first(a: int, b: int)
    requires
        is_regular_pair(a, b),
        magnitude(a) >= 2,
        magnitude(b) >= 2,
        2 * magnitude(a) <= 3 * magnitude(b),
    ensures
        ({
            let a2 = a / 2;
            let b2 = split_length(b);
            &&& is_regular_pair(b2, a2)
            &&& -1 <= exit_along_major(b2, a2) - b2 <= 1
            &&& -1 <= exit_along_minor(b2, a2) <= 1
        }),
{
    reveal(is_regular_pair);
    reveal(exit_along_major);
    reveal(exit_along_minor);
    reveal(split_edge);
    reveal(grows);
    if a > 0 {
        if b > 0 {
        } else {
        }
    } else {
        if b > 0 {
        } else {
        }
    }
}

/// The second part of a rectangle that is not long, by the lengths of its
/// edges: a rectangle that the curve comes to, left next to the corner of
/// the third part.
proof fn lemma_standard_pair_second(a: int, b: int)
    requires
        is_regular_pair(a, b),
        magnitude(a) >= 2,
        magnitude(b) >= 2,
        2 * magnitude(a) <= 3 * magnitude(b),
    ensures
        ({
            let b2 = split_length(b);
            &&& is_regular_pair(a, b - b2)
            &&& -1 <= exit_along_major(a, b - b2) - (a - sign(a)) <= 1
            &&& -1 <= exit_along_minor(a, b - b2) + sign(b) <= 1
        }),
{
    reveal(is_regular_pair);
    reveal(exit_along_major);
    reveal(exit_along_minor);
    reveal(split_edge);
    reveal(grows);
    if a > 0 {
        if b > 0 {
        } else {
        }
    } else {
        if b > 0 {
        } else {
        }
    }
}

/// The third part of a rectangle that is not long, by the lengths of its
/// edges: a rectangle that the curve comes to, left where the whole is left.
proof fn lemma_standard_pair_third(a: int, b: int)
    requires
        is_regular_pair(a, b),
        magnitude(a) >= 2,
        magnitude(b) >= 2,
        2 * magnitude(a) <= 3 * magnitude(b),
    ensures
        ({
            let a2 = a / 2;
            let b2 = split_length(b);
            &&& is_regular_pair(-b2, -(a - a2))
            &&& a - sign(a) + exit_along_minor(-b2, -(a - a2)) == exit_along_major(a, b)
            &&& b2 - sign(b) + exit_along_major(-b2, -(a - a2)) == exit_along_minor(a, b)
        }),
{
    reveal(is_regular_pair);
    reveal(exit_along_major);
    reveal(exit_along_minor);
    reveal(split_edge);
    reveal(grows);
    if a > 0 {
        if b > 0 {
        } else {
        }
    } else {
        if b > 0 {
        } else {
        }
    }
}

/// The split of an edge, by its length: the half of an edge that lies along
/// one axis lies along that axis.
proof fn lemma_split_of_edge(vx: int, vy: int)
    requires
        vx == 0 || vy == 0,
    ensures
        split_edge(vx, grows(vx, vy)) + split_edge(vy, grows(vx, vy)) == split_length(vx + vy),
        vx == 0 ==> split_edge(vx, grows(vx, vy)) == 0,
        vy == 0 ==> split_edge(vy, grows(vx, vy)) == 0,
        vx / 2 + vy / 2 == (vx + vy) / 2,
        vx == 0 ==> vx / 2 == 0,
        vy == 0 ==> vy / 2 == 0,
{
    reveal(split_edge);
    reveal(grows);
}

/// The parts of a long rectangle are rectangles that the curve comes to;
/// the first is left next to the corner of the second, and the second where
/// the whole is left.
proof fn lemma_long_split_path(x: int, y: int, ax: int, ay: int, bx: int, by: int)
    requires
        is_regular(ax, ay, bx, by),
        magnitude(ax + ay) >= 2,
        magnitude(bx + by) >= 2,
        2 * magnitude(ax + ay) > 3 * magnitude(bx + by),
    ensures
        ({
            let ax2 = split_edge(ax, grows(ax, ay));
            let ay2 = split_edge(ay, grows(ax, ay));
            &&& is_regular(ax2, ay2, bx, by)
            &&& is_regular(ax - ax2, ay - ay2, bx, by)
            &&& cells_adjoin(exit_cell(x, y, ax2, ay2, bx, by), (x + ax2, y + ay2))
            &&& exit_cell(x + ax2, y + ay2, ax - ax2, ay - ay2, bx, by) == exit_cell(
                x,
                y,
                ax,
                ay,
                bx,
                by,
            )
        }),
{
    lemma_long_pair(ax + ay, bx + by);
    lemma_split_of_edge(ax, ay);
    lemma_sizes_of_long_split(ax, ay, bx, by);
}

/// The parts of a rectangle that is not long are rectangles that the curve
/// comes to; each is left next to the corner of the part that follows, and
/// the last where the whole is left.
proof fn lemma_standard_split_path(x: int, y: int, ax: int, ay: int, bx: int, by: int)
    requires
        is_regular(ax, ay, bx, by),
        magnitude(ax + ay) >= 2,
        magnitude(bx + by) >= 2,
        2 * magnitude(ax + ay) <= 3 * magnitude(bx + by),
    ensures
        ({
            let ax2 = ax / 2;
            let ay2 = ay / 2;
            let bx2 = split_edge(bx, grows(bx, by));
            let by2 = split_edge(by, grows(bx, by));
            let x3 = x + (ax - sign(ax)) + (bx2 - sign(bx));
            let y3 = y + (ay - sign(ay)) + (by2 - sign(by));
            &&& is_regular(bx2, by2, ax2, ay2)
            &&& is_regular(ax, ay, bx - bx2, by - by2)
            &&& is_regular(-bx2, -by2, -(ax - ax2), -(ay - ay2))
            &&& cells_adjoin(exit_cell(x, y, bx2, by2, ax2, ay2), (x + bx2, y + by2))
            &&& cells_adjoin(
                exit_cell(x + bx2, y + by2, ax, ay, bx - bx2, by - by2),
                (x3, y3),
            )
            &&& exit_cell(x3, y3, -bx2, -by2, -(ax - ax2), -(ay - ay2)) == exit_cell(
                x,
                y,
                ax,
                ay,
                bx,
                by,
            )
        }),
{
    lemma_standard_pair_first(ax + ay, bx + by);
    lemma_standard_pair_second(ax + ay, bx + by);
    lemma_standard_pair_third(ax + ay, bx + by);
    lemma_split_of_edge(bx, by);
    lemma_split_of_edge(ax, ay);
    lemma_frames_of_standard_split(ax, ay, bx, by);
}

/// The parts of a rectangle that is not long have edges along the axes.
proof fn lemma_frames_of_standard_split(ax: int, ay: int, bx: int, by: int)
    requires
        is_frame(ax, ay, bx, by),
        magnitude(ax + ay) >= 2,
        magnitude(bx + by) >= 2,
    ensures
        ({
            let ax2 = ax / 2;
            let ay2 = ay / 2;
            let bx2 = split_edge(bx, grows(bx, by));
            let by2 = split_edge(by, grows(bx, by));
            &&& is_frame(bx2, by2, ax2, ay2)
            &&& is_frame(ax, ay, bx - bx2, by - by2)
            &&& is_frame(-bx2, -by2, -(ax - ax2), -(ay - ay2))
        }),
{
    reveal(split_edge);
    reveal(grows);
}

/// The curve through a rectangle that it comes to is a path from the corner
/// of the rectangle to its exit.
pub proof fn lemma_curve_is_path(x: int, y: int, ax: int, ay: int, bx: int, by: int)
    requires
        is_regular(ax, ay, bx, by),
    ensures
        is_path_through(curve_cells(x, y, ax, ay, bx, by), x, y, ax, ay, bx, by),
    decreases magnitude(ax + ay) + magnitude(bx + by),
{
    let w = magnitude(ax + ay);
    let h = magnitude(bx + by);
    if h == 1 || w == 1 {
        lemma_run_is_path(x, y, ax, ay, bx, by);
    } else if 2 * w > 3 * h {
        let ax2 = split_edge(ax, grows(ax, ay));
        let ay2 = split_edge(ay, grows(ax, ay));
        lemma_long_split_path(x, y, ax, ay, bx, by);
        lemma_sizes_of_long_split(ax, ay, bx, by);
        lemma_curve_is_path(x, y, ax2, ay2, bx, by);
        lemma_curve_is_path(x + ax2, y + ay2, ax - ax2, ay - ay2, bx, by);
        lemma_join_paths(
            curve_cells(x, y, ax2, ay2, bx, by),
            curve_cells(x + ax2, y + ay2, ax - ax2, ay - ay2, bx, by),
        );
    } else {
        let ax2 = ax / 2;
        let ay2 = ay / 2;
        let bx2 = split_edge(bx, grows(bx, by));
        let by2 = split_edge(by, grows(bx, by));
        let x3 = x + (ax - sign(ax)) + (bx2 - sign(bx));
        let y3 = y + (ay - sign(ay)) + (by2 - sign(by));
        lemma_standard_split_path(x, y, ax, ay, bx, by);
        lemma_sizes_of_standard_split(ax, ay, bx, by);
        lemma_curve_is_path(x, y, bx2, by2, ax2, ay2);
        lemma_curve_is_path(x + bx2, y + by2, ax, ay, bx - bx2, by - by2);
        lemma_curve_is_path(x3, y3, -bx2, -by2, -(ax - ax2), -(ay - ay2));
        let first = curve_cells(x, y, bx2, by2, ax2, ay2);
        let second = curve_cells(x + bx2, y + by2, ax, ay, bx - bx2, by - by2);
        let third = curve_cells(x3, y3, -bx2, -by2, -(ax - ax2), -(ay - ay2));
        lemma_join_paths(first, second);
        lemma_join_paths(first + second, third);
    }
}

/// The parts of a long rectangle are smaller than the rectangle.
proof fn lemma_sizes_of_long_split(ax: int, ay: int, bx: int, by: int)
    requires
        is_frame(ax, ay, bx, by),
        magnitude(ax + ay) >= 2,
    ensures
        ({
            let ax2 = split_edge(ax, grows(ax, ay));
            let ay2 = split_edge(ay, grows(ax, ay));
            &&& magnitude(ax2 + ay2) < magnitude(ax + ay)
            &&& magnitude(ax - ax2 + ay - ay2) < magnitude(ax + ay)
            &&& is_frame(ax2, ay2, bx, by)
            &&& is_frame(ax - ax2, ay - ay2, bx, by)
        }),
{
    reveal(split_edge);
    reveal(grows);
}

/// The parts of a rectangle that is not long are smaller than the rectangle.
proof fn lemma_sizes_of_standard_split(ax: int, ay: int, bx: int, by: int)
    requires
        is_frame(ax, ay, bx, by),
        magnitude(ax + ay) >= 2,
        magnitude(bx + by) >= 2,
    ensures
        ({
            let ax2 = ax / 2;
            let ay2 = ay / 2;
            let bx2 = split_edge(bx, grows(bx, by));
            let by2 = split_edge(by, grows(bx, by));
            &&& magnitude(bx2 + by2) + magnitude(ax2 + ay2) < magnitude(ax + ay) + magnitude(
                bx + by,
            )
            &&& magnitude(bx - bx2 + by - by2) < magnitude(bx + by)
            &&& magnitude(-bx2 + -by2) + magnitude(-(ax - ax2) + -(ay - ay2)) < magnitude(ax + ay)
                + magnitude(bx + by)
        }),
{
    reveal(split_edge);
    reveal(grows);
}

/// The curve over a grid steps from every cell to a cell next to it.
pub proof fn lemma_curve_steps(width: int, height: int, k: int)
    requires
        width > 0,
        height > 0,
        width * height <= usize::MAX,
        0 <= k < width * height - 1,
    ensures
        entries_adjoin(curve(width, height)[k], curve(width, height)[k + 1], width),
{
    let cells = if width >= height {
        curve_cells(0, 0, width, 0, 0, height)
    } else {
        curve_cells(0, 0, 0, height, width, 0)
    };
    reveal(is_regular_pair);
    reveal(frame_rect);
    if width >= height {
        lemma_curve_cells(0, 0, width, 0, 0, height);
        lemma_curve_is_path(0, 0, width, 0, 0, height);
    } else {
        lemma_curve_cells(0, 0, 0, height, width, 0);
        lemma_curve_is_path(0, 0, 0, height, width, 0);
        assert(height * width == width * height) by (nonlinear_arith);
    }
    let p = curve(width, height);
    assert(cells_adjoin(cells[k], cells[k + 1]));
    lemma_index_of_cell(cells[k].0, cells[k].1, width);
    lemma_index_of_cell(cells[k + 1].0, cells[k + 1].1, width);
    crate::permutation::lemma_cell_index(cells[k], cells[k], width, height);
    crate::permutation::lemma_cell_index(cells[k + 1], cells[k + 1], width, height);
    assert(p[k] == cells[k].0 + cells[k].1 * width);
    assert(p[k + 1] == cells[k + 1].0 + cells[k + 1].1 * width);
}

} // verus!
