//! The 27 groups of the grid: nine rows, nine columns and nine 3×3 squares.
//!
//! Cells are numbered row by row, so cell `i` lies in row `i / 9` and
//! column `i % 9`. Groups are numbered 0 to 26: rows first, then columns,
//! then squares.
use vstd::prelude::*;
use crate::board::Board;

verus! {

/// The row of cell `i`.
pub open spec fn row_of(i: int) -> int {
    i / 9
}

/// The column of cell `i`.
pub open spec fn col_of(i: int) -> int {
    i % 9
}

/// The square of cell `i`, squares counted row by row.
pub open spec fn square_of(i: int) -> int {
    3 * (i / 27) + (i % 9) / 3
}

/// The `k`-th cell of row `r`.
pub open spec fn row_cell(r: int, k: int) -> int {
    9 * r + k
}

/// The `k`-th cell of column `c`.
pub open spec fn col_cell(c: int, k: int) -> int {
    9 * k + c
}

/// The `k`-th cell of square `b`.
pub open spec fn square_cell(b: int, k: int) -> int {
    27 * (b / 3) + 3 * (b % 3) + 9 * (k / 3) + k % 3
}

/// The `k`-th cell of group `g`.
pub open spec fn group_cell(g: int, k: int) -> int {
    if g < 9 {
        row_cell(g, k)
    } else if g < 18 {
        col_cell(g - 9, k)
    } else {
        square_cell(g - 18, k)
    }
}

/// The nine cells of group `g` in order.
pub open spec fn group_cells(g: int) -> Seq<usize> {
    Seq::new(9, |k: int| group_cell(g, k) as usize)
}

/// Whether cell `i` belongs to group `g`.
pub open spec fn in_group(g: int, i: int) -> bool {
    if g < 9 {
        row_of(i) == g
    } else if g < 18 {
        col_of(i) == g - 9
    } else {
        square_of(i) == g - 18
    }
}

/// The position of cell `i` within its square, counted row by row.
pub open spec fn place_in_square(i: int) -> int {
    3 * (row_of(i) % 3) + col_of(i) % 3
}

/// The position of cell `i` within group `g`, for a cell of that group.
pub open spec fn place_in_group(g: int, i: int) -> int {
    if g < 9 {
        col_of(i)
    } else if g < 18 {
        row_of(i)
    } else {
        place_in_square(i)
    }
}

/// Whether two distinct cells share a row, a column or a square.
pub open spec fn peers(i: int, j: int) -> bool {
    i != j && (row_of(i) == row_of(j) || col_of(i) == col_of(j) || square_of(i) == square_of(j))
}

/// The `k`-th cell of square `b` lies in that square, at place `k`.
proof fn lemma_square_cell(b: int, k: int)
    requires
        0 <= b < 9,
        0 <= k < 9,
    ensures
        0 <= square_cell(b, k) < 81,
        square_of(square_cell(b, k)) == b,
        place_in_square(square_cell(b, k)) == k,
{
    let i = square_cell(b, k);
    let rest = 9 * (k / 3) + 3 * (b % 3) + k % 3;
    assert(i == 27 * (b / 3) + rest);
    assert(0 <= rest < 27);
    assert(i / 27 == b / 3);
    let low = 3 * (b % 3) + k % 3;
    assert(i == 9 * (3 * (b / 3) + k / 3) + low);
    assert(0 <= low < 9);
    assert(i / 9 == 3 * (b / 3) + k / 3);
    assert(i % 9 == low);
    assert(low / 3 == b % 3);
    assert((i / 9) % 3 == k / 3);
    assert(i == 3 * (9 * (b / 3) + 3 * (k / 3) + b % 3) + k % 3);
    assert(i % 3 == k % 3);
}

/// A cell is the cell of its square at its place in it.
proof fn lemma_in_square(b: int, i: int)
    requires
        0 <= i < 81,
        square_of(i) == b,
    ensures
        0 <= b < 9,
        0 <= place_in_square(i) < 9,
        square_cell(b, place_in_square(i)) == i,
{
    let k = place_in_square(i);
    let r = i / 9;
    let c = i % 9;
    assert(i == 9 * r + c);
    assert(0 <= r < 9 && 0 <= c < 9);
    assert(i / 27 == r / 3);
    assert(b == 3 * (r / 3) + c / 3);
    assert(b / 3 == r / 3);
    assert(b % 3 == c / 3);
    assert(i % 3 == c % 3);
    assert(k / 3 == r % 3);
    assert(k % 3 == c % 3);
    assert(r == 3 * (r / 3) + r % 3);
    assert(c == 3 * (c / 3) + c % 3);
}

/// The nine cells of a group are cells of the grid, belong to the group and
/// stand at their own place in it.
pub proof fn lemma_group_cell(g: int, k: int)
    requires
        0 <= g < 27,
        0 <= k < 9,
    ensures
        0 <= group_cell(g, k) < 81,
        in_group(g, group_cell(g, k)),
        place_in_group(g, group_cell(g, k)) == k,
{
    if g >= 18 {
        lemma_square_cell(g - 18, k);
    }
}

/// A cell that belongs to a group is one of its nine cells.
pub proof fn lemma_in_group(g: int, i: int)
    requires
        0 <= g < 27,
        0 <= i < 81,
        in_group(g, i),
    ensures
        0 <= place_in_group(g, i) < 9,
        group_cell(g, place_in_group(g, i)) == i,
{
    if g >= 18 {
        lemma_in_square(g - 18, i);
    }
}

/// Whether cell `i` is one of the nine cells listed for group `g`.
pub open spec fn group_has(g: int, i: int) -> bool {
    exists|k: int| 0 <= k < 9 && #[trigger] group_cell(g, k) == i
}

/// The cells listed for a group are the cells that belong to it.
pub proof fn lemma_group_members(g: int, i: int)
    requires
        0 <= g < 27,
        0 <= i < 81,
    ensures
        group_has(g, i) <==> in_group(g, i),
{
    if in_group(g, i) {
        lemma_in_group(g, i);
        assert(group_cell(g, place_in_group(g, i)) == i);
    }
    if group_has(g, i) {
        let k = choose|k: int| 0 <= k < 9 && #[trigger] group_cell(g, k) == i;
        lemma_group_cell(g, k);
    }
}

/// Each family of nine groups partitions the 81 cells. The nine cells listed
/// for a group are distinct cells of the grid; every cell is listed for its
/// row, its column and its square; and no cell is listed for two groups of
/// one family.
pub proof fn lemma_groups_partition()
    ensures
        forall|g: int, k: int|
            0 <= g < 27 && 0 <= k < 9 ==> 0 <= #[trigger] group_cell(g, k) < 81,
        forall|g: int, k: int, l: int|
            0 <= g < 27 && 0 <= k < 9 && 0 <= l < 9 && #[trigger] group_cell(g, k)
                == #[trigger] group_cell(g, l) ==> k == l,
        forall|i: int|
            0 <= i < 81 ==> 0 <= #[trigger] row_of(i) < 9 && group_has(row_of(i), i),
        forall|i: int|
            0 <= i < 81 ==> 0 <= #[trigger] col_of(i) < 9 && group_has(9 + col_of(i), i),
        forall|i: int|
            0 <= i < 81 ==> 0 <= #[trigger] square_of(i) < 9 && group_has(18 + square_of(i), i),
        forall|g: int, h: int, i: int|
            0 <= g < 27 && 0 <= h < 27 && g / 9 == h / 9 && 0 <= i < 81
                && #[trigger] group_has(g, i) && #[trigger] group_has(h, i) ==> g == h,
{
    assert forall|g: int, k: int, l: int|
        0 <= g < 27 && 0 <= k < 9 && 0 <= l < 9 && #[trigger] group_cell(g, k)
            == #[trigger] group_cell(g, l) implies k == l by {
        lemma_group_cell(g, k);
        lemma_group_cell(g, l);
    }
    assert forall|i: int| 0 <= i < 81 implies 0 <= #[trigger] row_of(i) < 9 && group_has(
        row_of(i),
        i,
    ) by {
        lemma_group_members(row_of(i), i);
    }
    assert forall|i: int| 0 <= i < 81 implies 0 <= #[trigger] col_of(i) < 9 && group_has(
        9 + col_of(i),
        i,
    ) by {
        lemma_group_members(9 + col_of(i), i);
    }
    assert forall|i: int| 0 <= i < 81 implies 0 <= #[trigger] square_of(i) < 9 && group_has(
        18 + square_of(i),
        i,
    ) by {
        lemma_group_members(18 + square_of(i), i);
    }
    assert forall|g: int, h: int, i: int|
        0 <= g < 27 && 0 <= h < 27 && g / 9 == h / 9 && 0 <= i < 81
            && #[trigger] group_has(g, i) && #[trigger] group_has(h, i) implies g == h by {
        lemma_group_members(g, i);
        lemma_group_members(h, i);
    }
}

impl Board {
    /// The nine rows, each as the list of its cells from left to right.
    /// Every cell of the grid is listed in its own row and in no other.
    pub fn rows(&self) -> (r: [[usize; 9]; 9])
        ensures
            forall|g: int, k: int|
                #![trigger r[g][k]]
                #![trigger row_cell(g, k)]
                0 <= g < 9 && 0 <= k < 9 ==> r[g][k] == row_cell(g, k),
            forall|g: int, k: int|
                0 <= g < 9 && 0 <= k < 9 ==> (#[trigger] r[g][k]) < 81 && row_of(r[g][k] as int)
                    == g,
            forall|i: int| 0 <= i < 81 ==> r[#[trigger] row_of(i)][col_of(i)] == i,
    {
        proof {
            assert forall|g: int, k: int| 0 <= g < 9 && 0 <= k < 9 implies 0 <= row_cell(g, k) < 81
                && row_of(#[trigger] row_cell(g, k)) == g by {
                lemma_group_cell(g, k);
            }
            assert forall|i: int| 0 <= i < 81 implies 0 <= #[trigger] row_of(i) < 9 && 0 <= col_of(
                i,
            ) < 9 && row_cell(row_of(i), col_of(i)) == i by {
                lemma_in_group(row_of(i), i);
            }
        }
        [
            [0, 1, 2, 3, 4, 5, 6, 7, 8],
            [9, 10, 11, 12, 13, 14, 15, 16, 17],
            [18, 19, 20, 21, 22, 23, 24, 25, 26],
            [27, 28, 29, 30, 31, 32, 33, 34, 35],
            [36, 37, 38, 39, 40, 41, 42, 43, 44],
            [45, 46, 47, 48, 49, 50, 51, 52, 53],
            [54, 55, 56, 57, 58, 59, 60, 61, 62],
            [63, 64, 65, 66, 67, 68, 69, 70, 71],
            [72, 73, 74, 75, 76, 77, 78, 79, 80],
        ]
    }

    /// The nine columns, each as the list of its cells from top to bottom.
    /// Every cell of the grid is listed in its own column and in no other.
    pub fn cols(&self) -> (r: [[usize; 9]; 9])
        ensures
            forall|g: int, k: int|
                #![trigger r[g][k]]
                #![trigger col_cell(g, k)]
                0 <= g < 9 && 0 <= k < 9 ==> r[g][k] == col_cell(g, k),
            forall|g: int, k: int|
                0 <= g < 9 && 0 <= k < 9 ==> (#[trigger] r[g][k]) < 81 && col_of(r[g][k] as int)
                    == g,
            forall|i: int| 0 <= i < 81 ==> r[#[trigger] col_of(i)][row_of(i)] == i,
    {
        proof {
            assert forall|g: int, k: int| 0 <= g < 9 && 0 <= k < 9 implies 0 <= col_cell(g, k) < 81
                && col_of(#[trigger] col_cell(g, k)) == g by {
                lemma_group_cell(9 + g, k);
            }
            assert forall|i: int| 0 <= i < 81 implies 0 <= #[trigger] col_of(i) < 9 && 0 <= row_of(
                i,
            ) < 9 && col_cell(col_of(i), row_of(i)) == i by {
                lemma_in_group(9 + col_of(i), i);
            }
        }
        [
            [0, 9, 18, 27, 36, 45, 54, 63, 72],
            [1, 10, 19, 28, 37, 46, 55, 64, 73],
            [2, 11, 20, 29, 38, 47, 56, 65, 74],
            [3, 12, 21, 30, 39, 48, 57, 66, 75],
            [4, 13, 22, 31, 40, 49, 58, 67, 76],
            [5, 14, 23, 32, 41, 50, 59, 68, 77],
            [6, 15, 24, 33, 42, 51, 60, 69, 78],
            [7, 16, 25, 34, 43, 52, 61, 70, 79],
            [8, 17, 26, 35, 44, 53, 62, 71, 80],
        ]
    }

    /// The nine 3×3 squares, each as the list of its cells row by row.
    /// Every cell of the grid is listed in its own square and in no other.
    pub fn squares(&self) -> (r: [[usize; 9]; 9])
        ensures
            forall|g: int, k: int|
                #![trigger r[g][k]]
                #![trigger square_cell(g, k)]
                0 <= g < 9 && 0 <= k < 9 ==> r[g][k] == square_cell(g, k),
            forall|g: int, k: int|
                0 <= g < 9 && 0 <= k < 9 ==> (#[trigger] r[g][k]) < 81 && square_of(r[g][k] as int)
                    == g,
            forall|i: int| 0 <= i < 81 ==> r[#[trigger] square_of(i)][place_in_square(i)] == i,
    {
        let r = square_table();
        proof {
            assert forall|g: int, k: int| 0 <= g < 9 && 0 <= k < 9 implies (#[trigger] r[g][k])
                < 81 && square_of(r[g][k] as int) == g by {
                lemma_square_cell(g, k);
            }
            assert forall|i: int| 0 <= i < 81 implies r[#[trigger] square_of(i)][place_in_square(
                i,
            )] == i by {
                lemma_in_square(square_of(i), i);
            }
        }
        r
    }

    /// All 27 groups: the rows, then the columns, then the squares.
    pub fn subsets(&self) -> (r: Vec<[usize; 9]>)
        ensures
            r@.len() == 27,
            forall|g: int, k: int|
                #![trigger r@[g][k]]
                #![trigger group_cell(g, k)]
                0 <= g < 27 && 0 <= k < 9 ==> r@[g][k] == group_cell(g, k),
            forall|g: int| 0 <= g < 27 ==> (#[trigger] r@[g])@ == group_cells(g),
    {
        let rows = self.rows();
        let cols = self.cols();
        let squares = self.squares();
        let mut r: Vec<[usize; 9]> = Vec::new();
        let mut g: usize = 0;
        while g < 9
            invariant
                g <= 9,
                r@.len() == g,
                forall|h: int, k: int|
                    #![trigger rows[h][k]]
                    #![trigger row_cell(h, k)]
                    0 <= h < 9 && 0 <= k < 9 ==> rows[h][k] == row_cell(h, k),
                forall|h: int, k: int|
                    #![trigger r@[h][k]]
                    #![trigger group_cell(h, k)]
                    0 <= h < g && 0 <= k < 9 ==> r@[h][k] == group_cell(h, k),
            decreases 9 - g,
        {
            r.push(rows[g]);
            g = g + 1;
        }
        while g < 18
            invariant
                9 <= g <= 18,
                r@.len() == g,
                forall|h: int, k: int|
                    #![trigger cols[h][k]]
                    #![trigger col_cell(h, k)]
                    0 <= h < 9 && 0 <= k < 9 ==> cols[h][k] == col_cell(h, k),
                forall|h: int, k: int|
                    #![trigger r@[h][k]]
                    #![trigger group_cell(h, k)]
                    0 <= h < g && 0 <= k < 9 ==> r@[h][k] == group_cell(h, k),
            decreases 18 - g,
        {
            r.push(cols[g - 9]);
            g = g + 1;
        }
        while g < 27
            invariant
                18 <= g <= 27,
                r@.len() == g,
                forall|h: int, k: int|
                    #![trigger squares[h][k]]
                    #![trigger square_cell(h, k)]
                    0 <= h < 9 && 0 <= k < 9 ==> squares[h][k] == square_cell(h, k),
                forall|h: int, k: int|
                    #![trigger r@[h][k]]
                    #![trigger group_cell(h, k)]
                    0 <= h < g && 0 <= k < 9 ==> r@[h][k] == group_cell(h, k),
            decreases 27 - g,
        {
            r.push(squares[g - 18]);
            g = g + 1;
        }
        r
    }
}

/// The cells of the nine squares, written out.
fn square_table() -> (r: [[usize; 9]; 9])
    ensures
        forall|g: int, k: int|
            #![trigger r[g][k]]
            #![trigger square_cell(g, k)]
            0 <= g < 9 && 0 <= k < 9 ==> r[g][k] == square_cell(g, k),
{
    [
        [0, 1, 2, 9, 10, 11, 18, 19, 20],
        [3, 4, 5, 12, 13, 14, 21, 22, 23],
        [6, 7, 8, 15, 16, 17, 24, 25, 26],
        [27, 28, 29, 36, 37, 38, 45, 46, 47],
        [30, 31, 32, 39, 40, 41, 48, 49, 50],
        [33, 34, 35, 42, 43, 44, 51, 52, 53],
        [54, 55, 56, 63, 64, 65, 72, 73, 74],
        [57, 58, 59, 66, 67, 68, 75, 76, 77],
        [60, 61, 62, 69, 70, 71, 78, 79, 80],
    ]
}

} // verus!
