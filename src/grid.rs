//! The spatial grid: square cells small enough that no two accepted points
//! share one, indexed row by row.
use vstd::prelude::*;
use vstd::arithmetic::div_mod::{lemma_fundamental_div_mod, lemma_mod_bound};
use crate::geometry::{Point, point_dist2, distance_squared};

verus! {

/// `c` is the side of a grid cell for spacing `d`: the largest whole number
/// not above `d / sqrt(2)`, and at least one.
pub open spec fn is_cell_side(d: int, c: int) -> bool {
    &&& c >= 1
    &&& (c == 1 || 2 * c * c <= d * d)
    &&& d * d < 2 * (c + 1) * (c + 1)
}

/// Number of cells of side `c` needed to cover a length `len`.
pub open spec fn cells_along(len: int, c: int) -> int {
    (len + c - 1) / c
}

/// The slot of the cell `(row, col)` in a grid of `cols` columns.
pub open spec fn slot_of(row: int, col: int, cols: int) -> int {
    col + row * cols
}

/// Two spaced points of a cell side cannot share a cell, and a point closer
/// than `d` lies within two cells in each axis.
pub proof fn lemma_cell_side(d: int, c: int)
    requires
        d >= 1,
        is_cell_side(d, c),
    ensures
        d <= 2 * c,
        2 * (c - 1) * (c - 1) < d * d,
{
    if c == 1 && 2 * c * c > d * d {
        assert(d * d < 2);
        assert(d == 1) by (nonlinear_arith)
            requires d >= 1, d * d < 2;
    } else {
        assert(d <= 2 * c) by (nonlinear_arith)
            requires c >= 1, 2 * c * c <= d * d, d * d < 2 * (c + 1) * (c + 1), d >= 1;
    }
    assert(2 * (c - 1) * (c - 1) < d * d) by (nonlinear_arith)
        requires c >= 1, d >= 1, c == 1 || 2 * c * c <= d * d;
}

/// Values that fall in one cell differ by less than the cell side.
pub proof fn lemma_same_cell(a: int, b: int, c: int)
    requires
        0 <= a,
        0 <= b,
        c >= 1,
        a / c == b / c,
    ensures
        -(c - 1) <= a - b <= c - 1,
{
    lemma_fundamental_div_mod(a, c);
    lemma_fundamental_div_mod(b, c);
    lemma_mod_bound(a, c);
    lemma_mod_bound(b, c);
}

/// Values less than `2 * c` apart fall at most two cells apart.
pub proof fn lemma_near_cells(a: int, b: int, c: int)
    requires
        0 <= a,
        0 <= b,
        c >= 1,
        -(2 * c) < a - b < 2 * c,
    ensures
        -2 <= a / c - b / c <= 2,
{
    lemma_fundamental_div_mod(a, c);
    lemma_fundamental_div_mod(b, c);
    lemma_mod_bound(a, c);
    lemma_mod_bound(b, c);
    let qa = a / c;
    let qb = b / c;
    assert(c * (qa - qb) < 3 * c) by (nonlinear_arith)
        requires a == c * qa + a % c, b == c * qb + b % c, 0 <= a % c < c, 0 <= b % c < c,
            a - b < 2 * c;
    assert(c * (qa - qb) > -3 * c) by (nonlinear_arith)
        requires a == c * qa + a % c, b == c * qb + b % c, 0 <= a % c < c, 0 <= b % c < c,
            a - b > -2 * c;
    assert(qa - qb < 3) by (nonlinear_arith)
        requires c * (qa - qb) < 3 * c, c >= 1;
    assert(qa - qb > -3) by (nonlinear_arith)
        requires c * (qa - qb) > -3 * c, c >= 1;
}

/// A value below `len` falls in one of the `cells_along(len, c)` cells.
pub proof fn lemma_cell_in_range(x: int, len: int, c: int)
    requires
        0 <= x < len,
        c >= 1,
    ensures
        0 <= x / c < cells_along(len, c),
        cells_along(len, c) <= len,
{
    lemma_fundamental_div_mod(x, c);
    lemma_mod_bound(x, c);
    lemma_fundamental_div_mod(len + c - 1, c);
    lemma_mod_bound(len + c - 1, c);
    let q = x / c;
    let m = (len + c - 1) / c;
    assert(0 <= q) by (nonlinear_arith)
        requires x == c * q + x % c, 0 <= x % c < c, x >= 0, c >= 1;
    assert(q < m) by (nonlinear_arith)
        requires x == c * q + x % c, 0 <= x % c < c, len + c - 1 == c * m + (len + c - 1) % c,
            0 <= (len + c - 1) % c < c, x < len, c >= 1;
    assert(m <= len) by (nonlinear_arith)
        requires len + c - 1 == c * m + (len + c - 1) % c, 0 <= (len + c - 1) % c < c,
            len >= 1, c >= 1;
}

/// Covering a length takes no more cells than the length itself.
pub proof fn lemma_cells_along_bound(len: int, c: int)
    requires
        0 <= len,
        c >= 1,
    ensures
        0 <= cells_along(len, c) <= len,
{
    lemma_fundamental_div_mod(len + c - 1, c);
    lemma_mod_bound(len + c - 1, c);
    let m = (len + c - 1) / c;
    assert(0 <= m <= len) by (nonlinear_arith)
        requires len + c - 1 == c * m + (len + c - 1) % c, 0 <= (len + c - 1) % c < c,
            len >= 0, c >= 1;
}

/// Distinct cells of a grid have distinct slots.
pub proof fn lemma_slot_unique(r1: int, c1: int, r2: int, c2: int, cols: int)
    requires
        0 <= c1 < cols,
        0 <= c2 < cols,
        slot_of(r1, c1, cols) == slot_of(r2, c2, cols),
    ensures
        r1 == r2,
        c1 == c2,
{
    assert(r1 == r2) by (nonlinear_arith)
        requires 0 <= c1 < cols, 0 <= c2 < cols, c1 + r1 * cols == c2 + r2 * cols;
}

/// The cell side for spacing `d`: the largest whole number not above
/// `d / sqrt(2)`, or one where that is zero.
pub fn cell_size(d: u32) -> (c: u32)
    requires
        d > 0,
    ensures
        is_cell_side(d as int, c as int),
{
    assert(d as int * d as int <= 0x1_0000_0000_0000_0000) by (nonlinear_arith)
        requires d <= 0x1_0000_0000;
    let dd: u128 = d as u128 * d as u128;
    let mut c: u128 = (d as u128 * 7) / 10;
    assert(2 * c * c <= dd) by (nonlinear_arith)
        requires 10 * c <= 7 * (d as int), c >= 0, dd == (d as int) * (d as int);
    loop
        invariant
            dd == d as int * d as int,
            1 <= d <= u32::MAX,
            2 * c * c <= dd,
        ensures
            2 * c * c <= dd,
            dd < 2 * (c + 1) * (c + 1),
        decreases d - c,
    {
        assert(c <= d) by (nonlinear_arith)
            requires 2 * c * c <= d as int * d as int, c >= 0, d >= 1;
        let next: u128 = c + 1;
        assert(2 * next * next <= 0x4_0000_0000_0000_0000) by (nonlinear_arith)
            requires next <= 0x1_0000_0000, next >= 0;
        if 2 * next * next > dd {
            break;
        }
        assert(next <= d) by (nonlinear_arith)
            requires 2 * next * next <= d as int * d as int, next >= 0, d >= 1;
        c = next;
    }
    assert(c <= d) by (nonlinear_arith)
        requires 2 * c * c <= d as int * d as int, c >= 0, d >= 1;
    if c == 0 {
        1
    } else {
        c as u32
    }
}

/// Number of cells of side `cell` that cover a length `len`: `len / cell`
/// rounded up.
pub fn cells_to_cover(len: u32, cell: u32) -> (r: u32)
    requires
        cell > 0,
    ensures
        r == cells_along(len as int, cell as int),
{
    proof {
        lemma_cells_along_bound(len as int, cell as int);
    }
    ((len as u64 + cell as u64 - 1) / cell as u64) as u32
}

/// The cell `(row, col)` of the point `(x, y)`: the row comes from `y`, the
/// column from `x`.
pub fn screen_to_grid(x: u32, y: u32, cell_size: u32) -> (r: (u32, u32))
    requires
        cell_size > 0,
    ensures
        r.0 == y / cell_size,
        r.1 == x / cell_size,
{
    (y / cell_size, x / cell_size)
}

/// Whether the cell `(row, col)` lies in a grid of `grid_rows` by `grid_cols`.
pub fn cell_in_grid(row: i64, col: i64, grid_rows: i64, grid_cols: i64) -> (r: bool)
    ensures
        r == (0 <= col < grid_cols && 0 <= row < grid_rows),
{
    if 0 <= col && col < grid_cols && 0 <= row && row < grid_rows {
        true
    } else {
        false
    }
}

/// The slot of the cell `(row, column)`, row by row.
pub fn grid_to_index(row: usize, column: usize, grid_columns: usize) -> (r: usize)
    requires
        slot_of(row as int, column as int, grid_columns as int) <= usize::MAX,
    ensures
        r == slot_of(row as int, column as int, grid_columns as int),
{
    assert(0 <= row * grid_columns) by (nonlinear_arith)
        requires row >= 0, grid_columns >= 0;
    column + row * grid_columns
}

/// The slot of the cell that holds the point `(x, y)`.
pub fn screen_to_index(x: u32, y: u32, cell_size: u32, grid_columns: usize) -> (r: usize)
    requires
        cell_size > 0,
        slot_of((y / cell_size) as int, (x / cell_size) as int, grid_columns as int) <= usize::MAX,
    ensures
        r == slot_of((y / cell_size) as int, (x / cell_size) as int, grid_columns as int),
{
    let cell = screen_to_grid(x, y, cell_size);
    grid_to_index(cell.0 as usize, cell.1 as usize, grid_columns)
}

/// A cell that lies in the grid has a slot below the number of cells.
pub proof fn lemma_slot_in_range(row: int, col: int, rows: int, cols: int)
    requires
        0 <= row < rows,
        0 <= col < cols,
    ensures
        0 <= slot_of(row, col, cols) < rows * cols,
{
    assert(0 <= col + row * cols < rows * cols) by (nonlinear_arith)
        requires 0 <= row < rows, 0 <= col < cols;
}

/// Number of empty cells.
pub open spec fn empty_cells(s: Seq<Option<usize>>) -> nat
    decreases s.len(),
{
    if s.len() == 0 {
        0
    } else {
        empty_cells(s.drop_last()) + if s.last() is None { 1nat } else { 0nat }
    }
}

/// In a grid of empty cells, every cell counts.
pub proof fn lemma_all_empty(s: Seq<Option<usize>>)
    requires
        forall|k: int| 0 <= k < s.len() ==> (#[trigger] s[k]) is None,
    ensures
        empty_cells(s) == s.len(),
    decreases s.len(),
{
    if s.len() > 0 {
        lemma_all_empty(s.drop_last());
    }
}

/// Filling an empty cell leaves one empty cell fewer.
pub proof fn lemma_fill_cell(s: Seq<Option<usize>>, k: int, v: usize)
    requires
        0 <= k < s.len(),
        s[k] is None,
    ensures
        empty_cells(s.update(k, Some(v))) + 1 == empty_cells(s),
    decreases s.len(),
{
    let t = s.update(k, Some(v));
    if k == s.len() - 1 {
        assert(t.drop_last() =~= s.drop_last());
    } else {
        assert(t.drop_last() =~= s.drop_last().update(k, Some(v)));
        lemma_fill_cell(s.drop_last(), k, v);
    }
}

/// The spatial grid: for each cell, the index of the accepted point that lies
/// in it, if any.
pub struct SpatialGrid {
    pub cells: Vec<Option<usize>>,
    pub rows: usize,
    pub cols: usize,
    pub side: u32,
}

impl SpatialGrid {
    /// Row of the cell that holds `p`.
    pub open spec fn row_of(self, p: Point) -> int {
        p.y as int / self.side as int
    }

    /// Column of the cell that holds `p`.
    pub open spec fn col_of(self, p: Point) -> int {
        p.x as int / self.side as int
    }

    /// Slot of the cell that holds `p`.
    pub open spec fn home(self, p: Point) -> int {
        slot_of(self.row_of(p), self.col_of(p), self.cols as int)
    }

    /// `p` falls in a cell of the grid.
    pub open spec fn covers(self, p: Point) -> bool {
        self.row_of(p) < self.rows && self.col_of(p) < self.cols
    }

    /// The grid records exactly the points `pts`: each in its own cell, and
    /// each occupied cell naming the point that lies in it.
    pub open spec fn indexes(self, pts: Seq<Point>) -> bool {
        &&& self.side >= 1
        &&& self.rows <= u32::MAX
        &&& self.cols <= u32::MAX
        &&& self.cells@.len() == self.rows * self.cols
        &&& forall|i: int|
            0 <= i < pts.len() ==> self.covers(#[trigger] pts[i]) && self.cells@[self.home(pts[i])]
                == Some(i as usize)
        &&& forall|k: int|
            0 <= k < self.cells@.len() && (#[trigger] self.cells@[k]) is Some ==> {
                let i = self.cells@[k]->0 as int;
                i < pts.len() && self.home(pts[i]) == k
            }
    }

    /// An empty grid of `rows` by `cols` cells of side `side`.
    pub fn new(rows: usize, cols: usize, side: u32) -> (g: SpatialGrid)
        requires
            side >= 1,
            rows <= u32::MAX,
            cols <= u32::MAX,
            rows * cols <= usize::MAX,
        ensures
            g.indexes(Seq::empty()),
            empty_cells(g.cells@) == rows * cols,
            g.rows == rows,
            g.cols == cols,
            g.side == side,
    {
        let n: usize = rows * cols;
        let mut cells: Vec<Option<usize>> = Vec::new();
        let mut i: usize = 0;
        while i < n
            invariant
                i <= n,
                cells@.len() == i,
                forall|k: int| 0 <= k < i ==> (#[trigger] cells@[k]) is None,
            decreases n - i,
        {
            cells.push(None);
            i = i + 1;
        }
        proof {
            lemma_all_empty(cells@);
        }
        SpatialGrid { cells, rows, cols, side }
    }

    /// Records `p`, the point after `pts`, in its cell, which must be empty.
    pub fn insert(&mut self, pts: &Vec<Point>, p: Point)
        requires
            old(self).indexes(pts@),
            old(self).covers(p),
            old(self).cells@[old(self).home(p)] is None,
        ensures
            final(self).indexes(pts@.push(p)),
            final(self).rows == old(self).rows,
            final(self).cols == old(self).cols,
            final(self).side == old(self).side,
            empty_cells(final(self).cells@) + 1 == empty_cells(old(self).cells@),
    {
        let ghost before = self.cells@;
        let _n = self.cells.len();
        let _m = pts.len();
        proof {
            lemma_slot_in_range(self.row_of(p), self.col_of(p), self.rows as int, self.cols as int);
        }
        let k = screen_to_index(p.x, p.y, self.side, self.cols);
        self.cells.set(k, Some(pts.len()));
        proof {
            lemma_fill_cell(before, k as int, pts.len());
            let q = pts@.push(p);
            assert(self.cells@ == before.update(k as int, Some(pts@.len() as usize)));
            assert(k == self.home(p));
            assert forall|i: int| 0 <= i < q.len() implies self.covers(#[trigger] q[i])
                && self.cells@[self.home(q[i])] == Some(i as usize) by {
                lemma_slot_in_range(self.row_of(q[i]), self.col_of(q[i]), self.rows as int, self.cols as int);
                if i < pts@.len() {
                    assert(q[i] == pts@[i]);
                    assert(before[self.home(pts@[i])] == Some(i as usize));
                } else {
                    assert(q[i] == p);
                }
            }
            assert forall|j: int|
                0 <= j < self.cells@.len() && (#[trigger] self.cells@[j]) is Some implies {
                let i = self.cells@[j]->0 as int;
                i < q.len() && self.home(q[i]) == j
            } by {
                if j != k {
                    let i = before[j]->0 as int;
                    assert(q[i] == pts@[i]);
                } else {
                    assert(q[pts@.len() as int] == p);
                }
            }
        }
    }

    /// Whether every point of `pts` is at least `d` from `q`, found by looking
    /// only at the cells within two rows and two columns of the cell of `q`.
    pub fn no_point_within(&self, pts: &Vec<Point>, q: Point, d: u32) -> (ok: bool)
        requires
            self.indexes(pts@),
            self.covers(q),
            d >= 1,
            is_cell_side(d as int, self.side as int),
        ensures
            ok == forall|i: int| 0 <= i < pts@.len() ==> point_dist2(q, #[trigger] pts@[i]) >= d * d,
    {
        assert(d as int * d as int <= 0x1_0000_0000_0000_0000) by (nonlinear_arith)
            requires d <= 0x1_0000_0000;
        let dd: u128 = d as u128 * d as u128;
        let _n = self.cells.len();
        let _m = pts.len();
        let row: i64 = (q.y / self.side) as i64;
        let col: i64 = (q.x / self.side) as i64;
        let mut dr: i64 = -2;
        while dr <= 2
            invariant
                self.indexes(pts@),
                self.covers(q),
                self.cells@.len() <= usize::MAX,
                pts@.len() <= usize::MAX,
                row == self.row_of(q),
                col == self.col_of(q),
                dd == d * d,
                -2 <= dr <= 3,
                forall|i: int|
                    0 <= i < pts@.len() && -2 <= self.row_of(#[trigger] pts@[i]) - row < dr && -2
                        <= self.col_of(pts@[i]) - col <= 2 ==> point_dist2(q, pts@[i]) >= d * d,
            decreases 3 - dr,
        {
            let mut dc: i64 = -2;
            while dc <= 2
                invariant
                    self.indexes(pts@),
                    self.covers(q),
                    self.cells@.len() <= usize::MAX,
                    pts@.len() <= usize::MAX,
                    row == self.row_of(q),
                    col == self.col_of(q),
                    dd == d * d,
                    -2 <= dr <= 2,
                    -2 <= dc <= 3,
                    forall|i: int|
                        0 <= i < pts@.len() && -2 <= self.row_of(#[trigger] pts@[i]) - row < dr && -2
                            <= self.col_of(pts@[i]) - col <= 2 ==> point_dist2(q, pts@[i]) >= d * d,
                    forall|i: int|
                        0 <= i < pts@.len() && self.row_of(#[trigger] pts@[i]) - row == dr && -2
                            <= self.col_of(pts@[i]) - col < dc ==> point_dist2(q, pts@[i]) >= d * d,
                decreases 3 - dc,
            {
                let r: i64 = row + dr;
                let c: i64 = col + dc;
                if cell_in_grid(r, c, self.rows as i64, self.cols as i64) {
                    proof {
                        lemma_slot_in_range(r as int, c as int, self.rows as int, self.cols as int);
                    }
                    let k = grid_to_index(r as usize, c as usize, self.cols);
                    let entry = self.cells[k];
                    if let Some(i) = entry {
                        if distance_squared(q, pts[i]) < dd {
                            assert(!(point_dist2(q, pts@[i as int]) >= d * d));
                            return false;
                        }
                    }
                    proof {
                        assert forall|j: int|
                            0 <= j < pts@.len() && self.row_of(#[trigger] pts@[j]) == r
                                && self.col_of(pts@[j]) == c implies point_dist2(q, pts@[j])
                            >= d * d by {
                            assert(self.home(pts@[j]) == k);
                            assert(self.cells@[k as int] == Some(j as usize));
                            assert(entry == Some(j as usize));
                        }
                    }
                }
                dc = dc + 1;
            }
            dr = dr + 1;
        }
        proof {
            assert forall|i: int| 0 <= i < pts@.len() implies point_dist2(q, #[trigger] pts@[i])
                >= d * d by {
                let p = pts@[i];
                if point_dist2(q, p) < d * d {
                    lemma_cell_side(d as int, self.side as int);
                    lemma_square_below(q.x as int - p.x as int, q.y as int - p.y as int, d as int);
                    lemma_near_cells(q.x as int, p.x as int, self.side as int);
                    lemma_near_cells(q.y as int, p.y as int, self.side as int);
                }
            }
        }
        true
    }
}

/// A leg of a right triangle is shorter than its hypotenuse.
pub proof fn lemma_square_below(a: int, b: int, d: int)
    requires
        d >= 0,
        a * a + b * b < d * d,
    ensures
        -d < a < d,
        -d < b < d,
{
    assert(-d < a < d) by (nonlinear_arith)
        requires d >= 0, a * a + b * b < d * d;
    assert(-d < b < d) by (nonlinear_arith)
        requires d >= 0, a * a + b * b < d * d;
}

/// A point at least `d` from every recorded point falls in an empty cell.
pub proof fn lemma_home_empty(g: SpatialGrid, pts: Seq<Point>, q: Point, d: int)
    requires
        g.indexes(pts),
        g.covers(q),
        d >= 1,
        is_cell_side(d, g.side as int),
        forall|i: int| 0 <= i < pts.len() ==> point_dist2(q, #[trigger] pts[i]) >= d * d,
    ensures
        0 <= g.home(q) < g.cells@.len(),
        g.cells@[g.home(q)] is None,
{
    lemma_slot_in_range(g.row_of(q), g.col_of(q), g.rows as int, g.cols as int);
    let k = g.home(q);
    if g.cells@[k] is Some {
        let i = g.cells@[k]->0 as int;
        let p = pts[i];
        lemma_slot_unique(g.row_of(p), g.col_of(p), g.row_of(q), g.col_of(q), g.cols as int);
        let c = g.side as int;
        lemma_same_cell(q.x as int, p.x as int, c);
        lemma_same_cell(q.y as int, p.y as int, c);
        lemma_cell_side(d, c);
        let a = q.x as int - p.x as int;
        let b = q.y as int - p.y as int;
        assert(a * a + b * b <= 2 * (c - 1) * (c - 1)) by (nonlinear_arith)
            requires -(c - 1) <= a <= c - 1, -(c - 1) <= b <= c - 1;
        assert(point_dist2(q, p) >= d * d);
    }
}

} // verus!
