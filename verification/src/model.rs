//! The mathematical model of the game: a board is a sequence of rows of
//! cells, and the rules (capture runs, legal moves, the board after a move,
//! disk counts) are stated as spec functions over that model.

use vstd::prelude::*;

verus! {

use crate::board::Disk;

/// A board modelled as rows of cells; cell (x, y) is `g[y][x]`.
pub type Grid = Seq<Seq<Option<Disk>>>;

pub const MIN_BOARD_SIZE: u8 = 6;

pub const MAX_BOARD_SIZE: u8 = 10;

/// `g` is a square grid of side length `n`.
pub open spec fn grid_wf(g: Grid, n: int) -> bool {
    &&& g.len() == n
    &&& forall|r: int| 0 <= r < n ==> (#[trigger] g[r]).len() == n
}

pub open spec fn in_bounds(n: int, x: int, y: int) -> bool {
    0 <= x < n && 0 <= y < n
}

pub open spec fn cell_at(g: Grid, x: int, y: int) -> Option<Disk> {
    g[y][x]
}

/// The 8 unit compass directions, in the order the move resolver scans them.
pub open spec fn dir(t: int) -> (int, int) {
    if t == 0 {
        (1, 0)
    } else if t == 1 {
        (0, 1)
    } else if t == 2 {
        (-1, 0)
    } else if t == 3 {
        (0, -1)
    } else if t == 4 {
        (1, 1)
    } else if t == 5 {
        (-1, -1)
    } else if t == 6 {
        (1, -1)
    } else {
        (-1, 1)
    }
}

pub open spec fn is_unit_dir(dx: int, dy: int) -> bool {
    &&& -1 <= dx <= 1
    &&& -1 <= dy <= 1
    &&& (dx != 0 || dy != 0)
}

/// The cell `i` steps from (x, y) along (dx, dy).
pub open spec fn ray_pt(x: int, y: int, dx: int, dy: int, i: int) -> (int, int) {
    (x + i * dx, y + i * dy)
}

/// The cell `i` steps from (x, y) along (dx, dy) is on the board and holds
/// the opponent of `d`.
pub open spec fn run_cell_opp(
    g: Grid,
    n: int,
    d: Disk,
    x: int,
    y: int,
    dx: int,
    dy: int,
    i: int,
) -> bool {
    &&& in_bounds(n, ray_pt(x, y, dx, dy, i).0, ray_pt(x, y, dx, dy, i).1)
    &&& cell_at(g, ray_pt(x, y, dx, dy, i).0, ray_pt(x, y, dx, dy, i).1) == Some(d.opposite())
}

/// Placing `d` at (x, y) sandwiches the cells 1..k along (dx, dy): each holds
/// an opponent disk, and cell k holds `d` again.
pub open spec fn capture_run(
    g: Grid,
    n: int,
    d: Disk,
    x: int,
    y: int,
    dx: int,
    dy: int,
    k: int,
) -> bool {
    &&& 2 <= k
    &&& in_bounds(n, ray_pt(x, y, dx, dy, k).0, ray_pt(x, y, dx, dy, k).1)
    &&& cell_at(g, ray_pt(x, y, dx, dy, k).0, ray_pt(x, y, dx, dy, k).1) == Some(d)
    &&& forall|i: int| 1 <= i < k ==> #[trigger] run_cell_opp(g, n, d, x, y, dx, dy, i)
}

/// The sandwich condition: some run along (dx, dy) is captured from (x, y).
pub open spec fn captures_dir(
    g: Grid,
    n: int,
    d: Disk,
    x: int,
    y: int,
    dx: int,
    dy: int,
) -> bool {
    exists|k: int| #[trigger] capture_run(g, n, d, x, y, dx, dy, k)
}

/// The sandwich condition along the direction with scan index `t`.
pub open spec fn captures_toward(g: Grid, n: int, d: Disk, x: int, y: int, t: int) -> bool {
    captures_dir(g, n, d, x, y, dir(t).0, dir(t).1)
}

/// A legal move: an empty in-bounds cell from which at least one of the 8
/// directions satisfies the sandwich condition.
pub open spec fn legal_move(g: Grid, n: int, d: Disk, x: int, y: int) -> bool {
    &&& in_bounds(n, x, y)
    &&& cell_at(g, x, y) is None
    &&& exists|t: int| 0 <= t < 8 && #[trigger] captures_toward(g, n, d, x, y, t)
}

pub open spec fn any_legal_move(g: Grid, n: int, d: Disk) -> bool {
    exists|x: int, y: int| #[trigger] legal_move(g, n, d, x, y)
}

/// (u, v) lies strictly between (x, y) and the closing disk k steps away.
pub open spec fn on_open_ray(x: int, y: int, dx: int, dy: int, k: int, u: int, v: int) -> bool {
    exists|i: int| 1 <= i < k && #[trigger] ray_pt(x, y, dx, dy, i) == (u, v)
}

/// Cell (u, v) is flipped by playing `d` at (x, y) via the direction with
/// scan index `t`.
pub open spec fn flipped_toward(
    g: Grid,
    n: int,
    d: Disk,
    x: int,
    y: int,
    t: int,
    u: int,
    v: int,
) -> bool {
    exists|k: int|
        #[trigger] capture_run(g, n, d, x, y, dir(t).0, dir(t).1, k) && on_open_ray(
            x,
            y,
            dir(t).0,
            dir(t).1,
            k,
            u,
            v,
        )
}

/// Cell (u, v) is flipped by one of the first `m` directions.
pub open spec fn flipped_upto(
    g: Grid,
    n: int,
    d: Disk,
    x: int,
    y: int,
    m: int,
    u: int,
    v: int,
) -> bool {
    exists|t: int| 0 <= t < m && #[trigger] flipped_toward(g, n, d, x, y, t, u, v)
}

/// Cell (u, v) is flipped by playing `d` at (x, y).
pub open spec fn flipped_cell(g: Grid, n: int, d: Disk, x: int, y: int, u: int, v: int) -> bool {
    flipped_upto(g, n, d, x, y, 8, u, v)
}

/// The board after playing `d` at (x, y): the placed disk plus every captured
/// cell turned to `d`; all other cells as before.
pub open spec fn board_after(g: Grid, n: int, d: Disk, x: int, y: int) -> Grid {
    Seq::new(
        g.len(),
        |v: int|
            Seq::new(
                g[v].len(),
                |u: int|
                    if u == x && v == y {
                        Some(d)
                    } else if flipped_cell(g, n, d, x, y, u, v) {
                        Some(d)
                    } else {
                        g[v][u]
                    },
            ),
    )
}

pub open spec fn cell_score(c: Option<Disk>, d: Disk) -> int {
    if c == Some(d) {
        1
    } else {
        0
    }
}

pub open spec fn row_count(r: Seq<Option<Disk>>, d: Disk) -> int
    decreases r.len(),
{
    if r.len() == 0 {
        0
    } else {
        row_count(r.drop_last(), d) + cell_score(r.last(), d)
    }
}

/// The number of disks of color `d` on the board.
pub open spec fn grid_count(g: Grid, d: Disk) -> int
    decreases g.len(),
{
    if g.len() == 0 {
        0
    } else {
        grid_count(g.drop_last(), d) + row_count(g.last(), d)
    }
}

pub open spec fn grid_update(g: Grid, x: int, y: int, c: Option<Disk>) -> Grid {
    g.update(y, g[y].update(x, c))
}

/// `g2` is `g` with exactly the open ray cells 1..k turned to `d`.
pub open spec fn ray_flipped(
    g: Grid,
    g2: Grid,
    d: Disk,
    x: int,
    y: int,
    dx: int,
    dy: int,
    k: int,
) -> bool {
    &&& g2.len() == g.len()
    &&& forall|v: int| 0 <= v < g.len() ==> (#[trigger] g2[v]).len() == g[v].len()
    &&& forall|u: int, v: int|
        0 <= v < g.len() && 0 <= u < g[v].len() ==> #[trigger] cell_at(g2, u, v) == (
        if on_open_ray(x, y, dx, dy, k, u, v) {
            Some(d)
        } else {
            cell_at(g, u, v)
        })
}

/// Each direction is a unit direction.
pub proof fn lemma_dir_is_unit(t: int)
    requires
        0 <= t < 8,
    ensures
        is_unit_dir(dir(t).0, dir(t).1),
{
}

/// Distinct scan indices denote distinct directions.
pub proof fn lemma_dirs_distinct(t1: int, t2: int)
    requires
        0 <= t1 < 8,
        0 <= t2 < 8,
        t1 != t2,
    ensures
        dir(t1) != dir(t2),
{
}

/// A ray never returns to its origin.
pub proof fn lemma_ray_origin(x: int, y: int, dx: int, dy: int, i: int)
    requires
        is_unit_dir(dx, dy),
        1 <= i,
    ensures
        ray_pt(x, y, dx, dy, i) != (x, y),
{
    assert(!(i * dx == 0 && i * dy == 0)) by (nonlinear_arith)
        requires
            1 <= i,
            -1 <= dx <= 1,
            -1 <= dy <= 1,
            dx != 0 || dy != 0,
    {}
}

/// Along one direction, distinct step counts reach distinct cells.
pub proof fn lemma_ray_injective(x: int, y: int, dx: int, dy: int, i1: int, i2: int)
    requires
        is_unit_dir(dx, dy),
        ray_pt(x, y, dx, dy, i1) == ray_pt(x, y, dx, dy, i2),
    ensures
        i1 == i2,
{
    assert(i1 == i2) by (nonlinear_arith)
        requires
            -1 <= dx <= 1,
            -1 <= dy <= 1,
            dx != 0 || dy != 0,
            i1 * dx == i2 * dx,
            i1 * dy == i2 * dy,
    {}
}

/// Rays in distinct directions share no cell strictly away from the origin.
pub proof fn lemma_unit_rays_disjoint(
    x: int,
    y: int,
    dx1: int,
    dy1: int,
    dx2: int,
    dy2: int,
    i: int,
    j: int,
)
    requires
        is_unit_dir(dx1, dy1),
        is_unit_dir(dx2, dy2),
        (dx1, dy1) != (dx2, dy2),
        1 <= i,
        1 <= j,
    ensures
        ray_pt(x, y, dx1, dy1, i) != ray_pt(x, y, dx2, dy2, j),
{
    assert(!(i * dx1 == j * dx2 && i * dy1 == j * dy2)) by (nonlinear_arith)
        requires
            -1 <= dx1 <= 1,
            -1 <= dy1 <= 1,
            -1 <= dx2 <= 1,
            -1 <= dy2 <= 1,
            dx1 != 0 || dy1 != 0,
            dx2 != 0 || dy2 != 0,
            dx1 != dx2 || dy1 != dy2,
            1 <= i,
            1 <= j,
    {}
}

/// The closing disk of a capture run is unique.
pub proof fn lemma_capture_run_unique(
    g: Grid,
    n: int,
    d: Disk,
    x: int,
    y: int,
    dx: int,
    dy: int,
    k1: int,
    k2: int,
)
    requires
        capture_run(g, n, d, x, y, dx, dy, k1),
        capture_run(g, n, d, x, y, dx, dy, k2),
    ensures
        k1 == k2,
{
    if k1 < k2 {
        assert(run_cell_opp(g, n, d, x, y, dx, dy, k1));
    } else if k2 < k1 {
        assert(run_cell_opp(g, n, d, x, y, dx, dy, k2));
    }
}

/// Whether a run is captured depends only on the cells along the ray.
pub proof fn lemma_capture_run_frame(
    g1: Grid,
    g2: Grid,
    n: int,
    d: Disk,
    x: int,
    y: int,
    dx: int,
    dy: int,
    k: int,
)
    requires
        forall|i: int|
            1 <= i && in_bounds(
                n,
                (#[trigger] ray_pt(x, y, dx, dy, i)).0,
                ray_pt(x, y, dx, dy, i).1,
            ) ==> cell_at(g2, ray_pt(x, y, dx, dy, i).0, ray_pt(x, y, dx, dy, i).1) == cell_at(
                g1,
                ray_pt(x, y, dx, dy, i).0,
                ray_pt(x, y, dx, dy, i).1,
            ),
    ensures
        capture_run(g1, n, d, x, y, dx, dy, k) == capture_run(g2, n, d, x, y, dx, dy, k),
{
    if capture_run(g1, n, d, x, y, dx, dy, k) {
        assert forall|i: int| 1 <= i < k implies #[trigger] run_cell_opp(
            g2,
            n,
            d,
            x,
            y,
            dx,
            dy,
            i,
        ) by {
            assert(run_cell_opp(g1, n, d, x, y, dx, dy, i));
        }
        assert(capture_run(g2, n, d, x, y, dx, dy, k));
    }
    if capture_run(g2, n, d, x, y, dx, dy, k) {
        assert forall|i: int| 1 <= i < k implies #[trigger] run_cell_opp(
            g1,
            n,
            d,
            x,
            y,
            dx,
            dy,
            i,
        ) by {
            assert(run_cell_opp(g2, n, d, x, y, dx, dy, i));
        }
        assert(capture_run(g1, n, d, x, y, dx, dy, k));
    }
}

/// Updating one cell shifts a row's disk count by the scores of the old and
/// new contents.
pub proof fn lemma_row_count_update(r: Seq<Option<Disk>>, x: int, c: Option<Disk>, d: Disk)
    requires
        0 <= x < r.len(),
    ensures
        row_count(r.update(x, c), d) == row_count(r, d) - cell_score(r[x], d) + cell_score(c, d),
    decreases r.len(),
{
    let r2 = r.update(x, c);
    if x == r.len() - 1 {
        assert(r2.drop_last() =~= r.drop_last());
    } else {
        assert(r2.drop_last() =~= r.drop_last().update(x, c));
        lemma_row_count_update(r.drop_last(), x, c, d);
    }
}

/// Updating one cell shifts the board's disk count by the scores of the old
/// and new contents.
pub proof fn lemma_grid_count_update(g: Grid, x: int, y: int, c: Option<Disk>, d: Disk)
    requires
        0 <= y < g.len(),
        0 <= x < g[y].len(),
    ensures
        grid_count(grid_update(g, x, y, c), d) == grid_count(g, d) - cell_score(
            cell_at(g, x, y),
            d,
        ) + cell_score(c, d),
    decreases g.len(),
{
    let g2 = grid_update(g, x, y, c);
    if y == g.len() - 1 {
        assert(g2.drop_last() =~= g.drop_last());
        assert(g2.last() == g[y].update(x, c));
        lemma_row_count_update(g[y], x, c, d);
    } else {
        assert(g2.drop_last() =~= grid_update(g.drop_last(), x, y, c));
        assert(g2.last() == g.last());
        lemma_grid_count_update(g.drop_last(), x, y, c, d);
    }
}

/// Extending a row prefix by one cell adds that cell's score.
pub proof fn lemma_row_count_take_step(r: Seq<Option<Disk>>, d: Disk, i: int)
    requires
        0 <= i < r.len(),
    ensures
        row_count(r.take(i + 1), d) == row_count(r.take(i), d) + cell_score(r[i], d),
{
    assert(r.take(i + 1).drop_last() =~= r.take(i));
    assert(r.take(i + 1).last() == r[i]);
}

/// Extending a board prefix by one row adds that row's count.
pub proof fn lemma_grid_count_take_step(g: Grid, d: Disk, j: int)
    requires
        0 <= j < g.len(),
    ensures
        grid_count(g.take(j + 1), d) == grid_count(g.take(j), d) + row_count(g[j], d),
{
    assert(g.take(j + 1).drop_last() =~= g.take(j));
    assert(g.take(j + 1).last() == g[j]);
}

/// The canonical starting configuration: the four center cells form a 2x2
/// square, diagonally split by color, with the first mover's color (Black)
/// on the main diagonal; every other cell is empty.
pub open spec fn start_cell(n: int, x: int, y: int) -> Option<Disk> {
    if (x == n / 2 - 1 && y == n / 2 - 1) || (x == n / 2 && y == n / 2) {
        Some(Disk::Black)
    } else if (x == n / 2 && y == n / 2 - 1) || (x == n / 2 - 1 && y == n / 2) {
        Some(Disk::White)
    } else {
        None
    }
}

} // verus!
