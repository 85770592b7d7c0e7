//! Bridson's fast Poisson disk sampling over a rectangle: grid-accelerated
//! rejection sampling around a frontier of active points.
use vstd::prelude::*;
use crate::geometry::{
    Point, dist2, in_rect, point_dist2, new_sample_point, point_in_rect, lemma_dist2_symmetric,
};
use crate::grid::{
    SpatialGrid, is_cell_side, cells_along, cell_size, cells_to_cover, empty_cells,
    lemma_cell_in_range, lemma_home_empty, lemma_square_below,
};
use crate::random::{RandomSource, replayed, replay_step};

verus! {

/// Candidates tried around an active point in one round before it is
/// retired (the `k` of the published algorithm).
pub const MAX_ATTEMPTS: u32 = 30;

/// Draws of an offset from the square around a point before settling for a
/// fixed offset in the ring; each draw lands in the ring with probability
/// above one half.
pub const RING_DRAWS: u32 = 64;

/// Why sampling did not start.
#[derive(Clone, Copy, Debug, PartialEq, Eq, Structural)]
pub enum SampleError {
    /// The spacing, the width or the height is zero.
    InvalidInput,
    /// The grid has more cells than a `usize` can count.
    GridTooLarge,
}

/// The first point: the centre of the region, rounded down.
pub open spec fn seed(width: int, height: int) -> Point {
    Point { x: (width / 2) as u32, y: (height / 2) as u32 }
}

/// The cell side that spacing `d` gives.
pub open spec fn cell_side(d: int) -> int {
    choose|c: int| is_cell_side(d, c)
}

/// Number of cells of the grid for spacing `d` over a `width` by `height`
/// region.
pub open spec fn grid_cells(d: int, width: int, height: int) -> int {
    cells_along(height, cell_side(d)) * cells_along(width, cell_side(d))
}

/// `pts` is a Poisson disk sample of the region with spacing `d`: it starts
/// at the seed, every point lies strictly inside the region, no two
/// points are closer than `d`, and every later point lies at a distance in
/// `[d, 2d)` from some earlier one.
pub open spec fn is_poisson_sample(pts: Seq<Point>, d: int, width: int, height: int) -> bool {
    &&& pts.len() >= 1
    &&& pts[0] == seed(width, height)
    &&& forall|i: int|
        0 <= i < pts.len() ==> in_rect(#[trigger] pts[i].x as int, pts[i].y as int, width, height)
    &&& forall|i: int, j: int|
        0 <= i < j < pts.len() ==> point_dist2(#[trigger] pts[i], #[trigger] pts[j]) >= d * d
    &&& forall|i: int| 1 <= i < pts.len() ==> #[trigger] has_parent(pts, i, d)
}

/// Some point before `pts[i]` lies at a distance in `[d, 2d)` from it.
pub open spec fn has_parent(pts: Seq<Point>, i: int, d: int) -> bool {
    exists|j: int| 0 <= j < i && d * d <= #[trigger] point_dist2(pts[j], pts[i]) < 4 * d * d
}

/// The cell side is determined by the spacing.
pub proof fn lemma_cell_side_unique(d: int, c: int)
    requires
        is_cell_side(d, c),
    ensures
        cell_side(d) == c,
{
    let e = cell_side(d);
    assert(is_cell_side(d, e));
    if e < c {
        assert(false) by (nonlinear_arith)
            requires is_cell_side(d, e), is_cell_side(d, c), e < c;
    } else if c < e {
        assert(false) by (nonlinear_arith)
            requires is_cell_side(d, e), is_cell_side(d, c), c < e;
    }
}

/// Rows and columns of the grid for spacing `min_distance` over
/// `region = (width, height)`: each length divided by the cell side, rounded up.
pub fn grid_dimensions(min_distance: u32, region: (u32, u32)) -> (r: (u32, u32))
    requires
        min_distance > 0,
    ensures
        r.0 == cells_along(region.1 as int, cell_side(min_distance as int)),
        r.1 == cells_along(region.0 as int, cell_side(min_distance as int)),
{
    let c = cell_size(min_distance);
    proof {
        lemma_cell_side_unique(min_distance as int, c as int);
    }
    (cells_to_cover(region.1, c), cells_to_cover(region.0, c))
}

/// `(ox, oy)` is an offset whose length lies in `[d, 2d)`.
pub open spec fn in_ring(ox: int, oy: int, d: int) -> bool {
    d * d <= ox * ox + oy * oy < 4 * d * d
}

/// The candidate at offset `(ox, oy)` from `p` lies strictly inside the region
/// and at least `d` from every point of `pts`.
pub open spec fn candidate_ok(
    pts: Seq<Point>,
    p: Point,
    ox: int,
    oy: int,
    d: int,
    width: int,
    height: int,
) -> bool {
    &&& in_rect(p.x + ox, p.y + oy, width, height)
    &&& forall|i: int|
        0 <= i < pts.len() ==> dist2(p.x + ox, p.y + oy, #[trigger] pts[i].x as int, pts[i].y as int)
            >= d * d
}

/// The state of a run: accepted points, active points (as indices into the
/// accepted ones) and the position of the next replayed value.
pub type RunState = (Seq<Point>, Seq<usize>, int);

/// The offset that `ring_offset` draws from a replay of `vals` at position
/// `pos`, after `k` misses, with the position that follows.
pub open spec fn ring_draw(vals: Seq<u64>, pos: int, d: int, k: int) -> (int, int, int)
    decreases RING_DRAWS - k,
{
    if k >= RING_DRAWS {
        (d, 0, pos)
    } else {
        let ox = replayed(vals, pos, 4 * d - 1) - (2 * d - 1);
        let p1 = replay_step(vals.len() as int, pos);
        let oy = replayed(vals, p1, 4 * d - 1) - (2 * d - 1);
        let p2 = replay_step(vals.len() as int, p1);
        if in_ring(ox, oy, d) {
            (ox, oy, p2)
        } else {
            ring_draw(vals, p2, d, k + 1)
        }
    }
}

/// One attempt around `st.0[s]` on a replay of `vals`, and whether it
/// accepted its candidate.
pub open spec fn attempt_step(vals: Seq<u64>, d: int, w: int, h: int, st: RunState, s: int) -> (
    RunState,
    bool,
) {
    let o = ring_draw(vals, st.2, d, 0);
    let p = st.0[s];
    if candidate_ok(st.0, p, o.0, o.1, d, w, h) {
        (
            (
                st.0.push(Point { x: (p.x + o.0) as u32, y: (p.y + o.1) as u32 }),
                st.1.push(st.0.len() as usize),
                o.2,
            ),
            true,
        )
    } else {
        ((st.0, st.1, o.2), false)
    }
}

/// The first `k` attempts of a round around `st.0[s]`, and whether any of
/// them accepted its candidate.
pub open spec fn attempts(vals: Seq<u64>, d: int, w: int, h: int, st: RunState, s: int, k: nat) -> (
    RunState,
    bool,
)
    decreases k,
{
    if k == 0 {
        (st, false)
    } else {
        let before = attempts(vals, d, w, h, st, s, (k - 1) as nat);
        let after = attempt_step(vals, d, w, h, before.0, s);
        (after.0, before.1 || after.1)
    }
}

/// One round: draw an active point, make `MAX_ATTEMPTS` attempts around it,
/// and retire it when none accepted.
pub open spec fn round(vals: Seq<u64>, d: int, w: int, h: int, st: RunState) -> RunState {
    let n = replayed(vals, st.2, st.1.len() as int);
    let s = st.1[n] as int;
    let r = attempts(vals, d, w, h, (st.0, st.1, replay_step(vals.len() as int, st.2)), s, MAX_ATTEMPTS as nat);
    if r.1 {
        r.0
    } else {
        (r.0.0, r.0.1.remove(n), r.0.2)
    }
}

/// The state after `f` rounds, or after the round that left no active point.
pub open spec fn run(vals: Seq<u64>, d: int, w: int, h: int, st: RunState, f: nat) -> RunState
    decreases f,
{
    if f == 0 {
        st
    } else {
        let t = run(vals, d, w, h, st, (f - 1) as nat);
        if t.1.len() == 0 {
            t
        } else {
            round(vals, d, w, h, t)
        }
    }
}

/// The state a run starts from: the seed, active, and the replay at `pos`.
pub open spec fn start(w: int, h: int, pos: int) -> RunState {
    (seq![seed(w, h)], seq![0usize], pos)
}

/// `pts` is what the run on a replay of `vals` from position `pos` returns:
/// the accepted points once no point is active.
pub open spec fn replay_result(vals: Seq<u64>, pos: int, d: int, w: int, h: int, pts: Seq<Point>) -> bool {
    exists|f: nat| {
        let t = #[trigger] run(vals, d, w, h, start(w, h, pos), f);
        t.0 == pts && t.1.len() == 0
    }
}

/// Once no point is active, further rounds change nothing.
pub proof fn lemma_run_settled(vals: Seq<u64>, d: int, w: int, h: int, st: RunState, f1: nat, f2: nat)
    requires
        f1 <= f2,
        run(vals, d, w, h, st, f1).1.len() == 0,
    ensures
        run(vals, d, w, h, st, f2) == run(vals, d, w, h, st, f1),
    decreases f2,
{
    if f2 > f1 {
        lemma_run_settled(vals, d, w, h, st, f1, (f2 - 1) as nat);
    }
}

/// Two runs on the same replayed values from the same position, with the
/// same spacing and region, return the same points.
pub proof fn lemma_replay_deterministic(
    vals: Seq<u64>,
    pos: int,
    d: int,
    w: int,
    h: int,
    a: Seq<Point>,
    b: Seq<Point>,
)
    requires
        replay_result(vals, pos, d, w, h, a),
        replay_result(vals, pos, d, w, h, b),
    ensures
        a == b,
{
    let st = start(w, h, pos);
    let fa = choose|f: nat| {
        let t = #[trigger] run(vals, d, w, h, st, f);
        t.0 == a && t.1.len() == 0
    };
    let fb = choose|f: nat| {
        let t = #[trigger] run(vals, d, w, h, st, f);
        t.0 == b && t.1.len() == 0
    };
    if fa <= fb {
        lemma_run_settled(vals, d, w, h, st, fa, fb);
    } else {
        lemma_run_settled(vals, d, w, h, st, fb, fa);
    }
}

/// Draws from `source` an offset of length in `[d, 2d)`: each coordinate is
/// drawn uniformly from `(-2d, 2d)` until the pair falls in the ring, which
/// happens on a draw with probability above one half. After `RING_DRAWS`
/// misses it settles for `(d, 0)`.
pub fn ring_offset(source: &mut RandomSource, d: u32) -> (r: (i64, i64))
    requires
        d >= 1,
    ensures
        in_ring(r.0 as int, r.1 as int, d as int),
        *old(source) is Generator ==> *final(source) is Generator,
        *old(source) is Replay ==> {
            &&& *final(source) is Replay
            &&& final(source).script() == old(source).script()
            &&& (r.0 as int, r.1 as int, final(source).position()) == ring_draw(
                old(source).script(),
                old(source).position(),
                d as int,
                0,
            )
        },
{
    assert(d as int * d as int <= 0x1_0000_0000_0000_0000) by (nonlinear_arith)
        requires d <= 0x1_0000_0000;
    let dd: i128 = d as i128 * d as i128;
    let span: u64 = 4 * d as u64 - 1;
    let reach: i64 = 2 * d as i64 - 1;
    assert(4 * d * d == 4 * (d * d)) by (nonlinear_arith);
    let mut k: u32 = 0;
    while k < RING_DRAWS
        invariant
            dd == d * d,
            4 * d * d == 4 * (d * d),
            span == 4 * d - 1,
            reach == 2 * d - 1,
            d >= 1,
            d <= u32::MAX,
            k <= RING_DRAWS,
            *old(source) is Generator ==> *source is Generator,
            *old(source) is Replay ==> {
                &&& *source is Replay
                &&& source.script() == old(source).script()
                &&& ring_draw(old(source).script(), old(source).position(), d as int, 0) == ring_draw(
                    source.script(),
                    source.position(),
                    d as int,
                    k as int,
                )
            },
        decreases RING_DRAWS - k,
    {
        let ox: i64 = source.below(span) as i64 - reach;
        let oy: i64 = source.below(span) as i64 - reach;
        assert(ox as int * ox as int <= 0x10_0000_0000_0000_0000) by (nonlinear_arith)
            requires -0x2_0000_0000 <= ox <= 0x2_0000_0000;
        assert(oy as int * oy as int <= 0x10_0000_0000_0000_0000) by (nonlinear_arith)
            requires -0x2_0000_0000 <= oy <= 0x2_0000_0000;
        assert(0 <= ox as int * ox as int && 0 <= oy as int * oy as int) by (nonlinear_arith);
        let r2: i128 = ox as i128 * ox as i128 + oy as i128 * oy as i128;
        if dd <= r2 && r2 < 4 * dd {
            return (ox, oy);
        }
        k = k + 1;
    }
    assert(d * d < 4 * d * d) by (nonlinear_arith)
        requires d >= 1;
    (d as i64, 0)
}

/// One attempt around the point `points[s]`: the candidate at offset
/// `(ox, oy)` is accepted exactly when it lies strictly inside the region and
/// at least `min_distance` from every point accepted so far. An accepted
/// candidate is appended to `points`, made active and recorded in `grid`;
/// otherwise nothing changes.
pub fn try_candidate(
    grid: &mut SpatialGrid,
    points: &mut Vec<Point>,
    active: &mut Vec<usize>,
    s: usize,
    ox: i64,
    oy: i64,
    min_distance: u32,
    region: (u32, u32),
) -> (accepted: bool)
    requires
        min_distance >= 1,
        is_cell_side(min_distance as int, old(grid).side as int),
        old(grid).rows == cells_along(region.1 as int, old(grid).side as int),
        old(grid).cols == cells_along(region.0 as int, old(grid).side as int),
        old(grid).indexes(old(points)@),
        is_poisson_sample(old(points)@, min_distance as int, region.0 as int, region.1 as int),
        forall|a: int| 0 <= a < old(active)@.len() ==> #[trigger] old(active)@[a] < old(points)@.len(),
        s < old(points)@.len(),
        in_ring(ox as int, oy as int, min_distance as int),
    ensures
        final(grid).side == old(grid).side,
        final(grid).rows == old(grid).rows,
        final(grid).cols == old(grid).cols,
        final(grid).indexes(final(points)@),
        is_poisson_sample(final(points)@, min_distance as int, region.0 as int, region.1 as int),
        forall|a: int| 0 <= a < final(active)@.len() ==> #[trigger] final(active)@[a] < final(points)@.len(),
        accepted == candidate_ok(
            old(points)@,
            old(points)@[s as int],
            ox as int,
            oy as int,
            min_distance as int,
            region.0 as int,
            region.1 as int,
        ),
        accepted ==> {
            &&& final(points)@ == old(points)@.push(
                Point {
                    x: (old(points)@[s as int].x + ox) as u32,
                    y: (old(points)@[s as int].y + oy) as u32,
                },
            )
            &&& final(active)@ == old(active)@.push(old(points)@.len() as usize)
            &&& empty_cells(final(grid).cells@) + 1 == empty_cells(old(grid).cells@)
        },
        !accepted ==> {
            &&& final(points)@ == old(points)@
            &&& final(active)@ == old(active)@
            &&& final(grid).cells@ == old(grid).cells@
        },
{
    let d = min_distance;
    let w = region.0;
    let h = region.1;
    let c = grid.side;
    let sample = points[s];
    proof {
        assert(4 * d * d == (2 * d) * (2 * d)) by (nonlinear_arith);
        lemma_square_below(ox as int, oy as int, 2 * d);
    }
    let cand_at = new_sample_point(sample.x, sample.y, ox, oy);
    if !point_in_rect(cand_at.0, cand_at.1, w, h) {
        return false;
    }
    let cand = Point { x: cand_at.0 as u32, y: cand_at.1 as u32 };
    proof {
        lemma_cell_in_range(cand.x as int, w as int, c as int);
        lemma_cell_in_range(cand.y as int, h as int, c as int);
    }
    let ghost old_pts = points@;
    if !grid.no_point_within(points, cand, d) {
        proof {
            let i = choose|i: int| 0 <= i < old_pts.len() && !(point_dist2(cand, #[trigger] old_pts[i]) >= d * d);
            assert(!(dist2(sample.x + ox, sample.y + oy, old_pts[i].x as int, old_pts[i].y as int) >= d * d));
        }
        return false;
    }
    proof {
        lemma_home_empty(*grid, points@, cand, d as int);
    }
    grid.insert(points, cand);
    points.push(cand);
    active.push(points.len() - 1);
    proof {
        let q = points@;
        assert(q[s as int] == old_pts[s as int]);
        assert(q[q.len() - 1] == cand);
        let a = sample.x as int - cand.x as int;
        let b = sample.y as int - cand.y as int;
        assert(a == -ox && b == -oy);
        assert(a * a + b * b == ox * ox + oy * oy) by (nonlinear_arith)
            requires a == -ox, b == -oy;
        assert(d * d <= point_dist2(q[s as int], cand) < 4 * d * d);
        assert forall|i: int| 0 <= i < old_pts.len() implies dist2(
            sample.x + ox,
            sample.y + oy,
            #[trigger] old_pts[i].x as int,
            old_pts[i].y as int,
        ) >= d * d by {
            assert(point_dist2(cand, old_pts[i]) >= d * d);
        }
        assert forall|i: int, j: int|
            0 <= i < j < q.len() implies point_dist2(#[trigger] q[i], #[trigger] q[j]) >= d * d by {
            if j == q.len() - 1 {
                assert(point_dist2(cand, old_pts[i]) >= d * d);
                assert(q[i] == old_pts[i]);
                lemma_dist2_symmetric(cand, old_pts[i]);
            } else {
                assert(q[i] == old_pts[i] && q[j] == old_pts[j]);
            }
        }
        assert forall|i: int| 1 <= i < q.len() implies #[trigger] has_parent(q, i, d as int) by {
            if i == q.len() - 1 {
                assert(0 <= s < i && d * d <= point_dist2(q[s as int], q[i]) < 4 * d * d);
            } else {
                assert(q[i] == old_pts[i]);
                assert(has_parent(old_pts, i, d as int));
                let j = choose|j: int|
                    0 <= j < i && d * d <= #[trigger] point_dist2(old_pts[j], old_pts[i]) < 4 * d * d;
                assert(q[j] == old_pts[j]);
                assert(d * d <= point_dist2(q[j], q[i]) < 4 * d * d);
            }
        }
        assert forall|i: int| 0 <= i < q.len() implies in_rect(
            #[trigger] q[i].x as int,
            q[i].y as int,
            w as int,
            h as int,
        ) by {
            if i < q.len() - 1 {
                assert(q[i] == old_pts[i]);
            }
        }
    }
    true
}

/// Samples the region `region = (width, height)` with spacing `min_distance`,
/// taking random numbers from `source`. Each round draws an active point, makes
/// `MAX_ATTEMPTS` attempts around it, and retires it when none succeeded.
pub fn generate_points_with(min_distance: u32, region: (u32, u32), source: &mut RandomSource) -> (r:
    Result<Vec<Point>, SampleError>)
    ensures
        (min_distance == 0 || region.0 < 2 || region.1 < 2) ==> r == Err::<Vec<Point>, SampleError>(
            SampleError::InvalidInput,
        ),
        (min_distance > 0 && region.0 >= 2 && region.1 >= 2 && grid_cells(
            min_distance as int,
            region.0 as int,
            region.1 as int,
        ) > usize::MAX) ==> r == Err::<Vec<Point>, SampleError>(SampleError::GridTooLarge),
        (min_distance > 0 && region.0 >= 2 && region.1 >= 2 && grid_cells(
            min_distance as int,
            region.0 as int,
            region.1 as int,
        ) <= usize::MAX) ==> (r matches Ok(pts) && is_poisson_sample(
            pts@,
            min_distance as int,
            region.0 as int,
            region.1 as int,
        ) && pts@.len() <= grid_cells(min_distance as int, region.0 as int, region.1 as int)),
        (*old(source) is Replay && min_distance > 0 && region.0 >= 2 && region.1 >= 2 && grid_cells(
            min_distance as int,
            region.0 as int,
            region.1 as int,
        ) <= usize::MAX) ==> (r matches Ok(pts) && replay_result(
            old(source).script(),
            old(source).position(),
            min_distance as int,
            region.0 as int,
            region.1 as int,
            pts@,
        )),
{
    let d = min_distance;
    let w = region.0;
    let h = region.1;
    if d == 0 || w < 2 || h < 2 {
        return Err(SampleError::InvalidInput);
    }
    let c = cell_size(d);
    let rows = cells_to_cover(h, c);
    let cols = cells_to_cover(w, c);
    proof {
        lemma_cell_side_unique(d as int, c as int);
        lemma_cell_in_range((w / 2) as int, w as int, c as int);
        lemma_cell_in_range((h / 2) as int, h as int, c as int);
    }
    assert(rows as int * cols as int <= 0x1_0000_0000_0000_0000) by (nonlinear_arith)
        requires rows <= 0x1_0000_0000, cols <= 0x1_0000_0000, rows >= 0, cols >= 0;
    let total: u128 = rows as u128 * cols as u128;
    if total > usize::MAX as u128 {
        return Err(SampleError::GridTooLarge);
    }
    let mut grid = SpatialGrid::new(rows as usize, cols as usize, c);
    let first = Point { x: w / 2, y: h / 2 };
    let mut points: Vec<Point> = Vec::new();
    proof {
        lemma_home_empty(grid, points@, first, d as int);
    }
    grid.insert(&points, first);
    points.push(first);
    let mut active: Vec<usize> = Vec::new();
    active.push(0);
    assert(empty_cells(grid.cells@) + points@.len() == rows * cols);
    let ghost vals = old(source).script();
    let ghost st_start = start(w as int, h as int, old(source).position());
    let ghost mut rounds: nat = 0;
    assert(points@ =~= seq![first]);
    assert(active@ =~= seq![0usize]);
    while active.len() > 0
        invariant
            d >= 1,
            is_cell_side(d as int, c as int),
            grid.side == c,
            grid.rows == rows,
            grid.cols == cols,
            rows == cells_along(h as int, c as int),
            cols == cells_along(w as int, c as int),
            w == region.0,
            h == region.1,
            grid.indexes(points@),
            is_poisson_sample(points@, d as int, w as int, h as int),
            forall|a: int| 0 <= a < active@.len() ==> #[trigger] active@[a] < points@.len(),
            empty_cells(grid.cells@) + points@.len() == rows * cols,
            vals == old(source).script(),
            st_start == start(w as int, h as int, old(source).position()),
            *old(source) is Generator ==> *source is Generator,
            *old(source) is Replay ==> {
                &&& *source is Replay
                &&& source.script() == vals
                &&& run(vals, d as int, w as int, h as int, st_start, rounds) == (
                    points@,
                    active@,
                    source.position(),
                )
            },
        decreases 2 * empty_cells(grid.cells@) + active@.len(),
    {
        let ghost before = (points@, active@, source.position());
        let n = source.below(active.len() as u64) as usize;
        let s = active[n];
        let ghost st0 = (points@, active@, source.position());
        let ghost start = 2 * empty_cells(grid.cells@) + active@.len();
        let mut accepted = false;
        let mut attempt: u32 = 0;
        while attempt < MAX_ATTEMPTS
            invariant
                d >= 1,
                is_cell_side(d as int, c as int),
                grid.side == c,
                grid.rows == rows,
                grid.cols == cols,
                rows == cells_along(h as int, c as int),
                cols == cells_along(w as int, c as int),
                w == region.0,
                h == region.1,
                grid.indexes(points@),
                is_poisson_sample(points@, d as int, w as int, h as int),
                forall|a: int| 0 <= a < active@.len() ==> #[trigger] active@[a] < points@.len(),
                n < active@.len(),
                s < points@.len(),
                2 * empty_cells(grid.cells@) + active@.len() + (if accepted { 1int } else { 0int })
                    <= start,
                attempt <= MAX_ATTEMPTS,
                empty_cells(grid.cells@) + points@.len() == rows * cols,
                vals == old(source).script(),
                s == st0.1[n as int],
                *old(source) is Generator ==> *source is Generator,
                *old(source) is Replay ==> {
                    &&& *source is Replay
                    &&& source.script() == vals
                    &&& attempts(vals, d as int, w as int, h as int, st0, s as int, attempt as nat) == (
                        (points@, active@, source.position()),
                        accepted,
                    )
                },
            decreases MAX_ATTEMPTS - attempt,
        {
            let ghost cur = (points@, active@, source.position());
            let off = ring_offset(source, d);
            let ok = try_candidate(&mut grid, &mut points, &mut active, s, off.0, off.1, d, region);
            if ok {
                accepted = true;
            }
            proof {
                if *old(source) is Replay {
                    let step = attempt_step(vals, d as int, w as int, h as int, cur, s as int);
                    assert(step == ((points@, active@, source.position()), ok));
                }
            }
            attempt = attempt + 1;
        }
        if !accepted {
            active.remove(n);
        }
        proof {
            if *old(source) is Replay {
                assert(round(vals, d as int, w as int, h as int, before) == (
                    points@,
                    active@,
                    source.position(),
                ));
            }
            rounds = rounds + 1;
        }
    }
    proof {
        if *old(source) is Replay {
            let t = run(vals, d as int, w as int, h as int, st_start, rounds);
            assert(t.0 == points@ && t.1.len() == 0);
        }
    }
    Ok(points)
}

/// Samples the region `region = (width, height)` with spacing `min_distance`,
/// drawing from the process-wide generator.
pub fn generate_points(min_distance: u32, region: (u32, u32)) -> (r: Result<Vec<Point>, SampleError>)
    ensures
        (min_distance == 0 || region.0 < 2 || region.1 < 2) ==> r == Err::<Vec<Point>, SampleError>(
            SampleError::InvalidInput,
        ),
        (min_distance > 0 && region.0 >= 2 && region.1 >= 2 && grid_cells(
            min_distance as int,
            region.0 as int,
            region.1 as int,
        ) > usize::MAX) ==> r == Err::<Vec<Point>, SampleError>(SampleError::GridTooLarge),
        (min_distance > 0 && region.0 >= 2 && region.1 >= 2 && grid_cells(
            min_distance as int,
            region.0 as int,
            region.1 as int,
        ) <= usize::MAX) ==> (r matches Ok(pts) && is_poisson_sample(
            pts@,
            min_distance as int,
            region.0 as int,
            region.1 as int,
        ) && pts@.len() <= grid_cells(min_distance as int, region.0 as int, region.1 as int)),
{
    let mut source = RandomSource::generator();
    generate_points_with(min_distance, region, &mut source)
}

/// Where the spacing exceeds the diagonal of the region, the sample is the
/// seed alone.
pub proof fn lemma_spacing_beyond_diagonal(pts: Seq<Point>, d: int, width: int, height: int)
    requires
        is_poisson_sample(pts, d, width, height),
        0 < width <= u32::MAX,
        0 < height <= u32::MAX,
        d * d > width * width + height * height,
    ensures
        pts == seq![seed(width, height)],
{
    if pts.len() > 1 {
        let p = pts[0];
        let q = pts[1];
        assert(in_rect(q.x as int, q.y as int, width, height));
        let a = p.x as int - q.x as int;
        let b = p.y as int - q.y as int;
        assert(-width <= a <= width && -height <= b <= height);
        assert(a * a + b * b <= width * width + height * height) by (nonlinear_arith)
            requires -width <= a <= width, -height <= b <= height;
        assert(point_dist2(pts[0], pts[1]) >= d * d);
    }
    assert(pts =~= seq![seed(width, height)]);
}

} // verus!
