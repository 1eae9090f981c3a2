//! The board: a square grid of cells, each empty or holding one of the two
//! disk colors, together with the direction scanner, the move resolver and
//! the scorer.

use vstd::prelude::*;

verus! {

use crate::model::{
    MAX_BOARD_SIZE,
    MIN_BOARD_SIZE,
    Grid,
    any_legal_move,
    board_after,
    capture_run,
    captures_dir,
    captures_toward,
    cell_at,
    dir,
    flipped_toward,
    flipped_upto,
    grid_count,
    grid_update,
    grid_wf,
    in_bounds,
    is_unit_dir,
    legal_move,
    lemma_capture_run_frame,
    lemma_capture_run_unique,
    lemma_dir_is_unit,
    lemma_dirs_distinct,
    lemma_grid_count_take_step,
    lemma_grid_count_update,
    lemma_ray_injective,
    lemma_ray_origin,
    lemma_row_count_take_step,
    lemma_unit_rays_disjoint,
    on_open_ray,
    ray_flipped,
    ray_pt,
    row_count,
    run_cell_opp,
    start_cell,
};
use crate::game::ReversiError;

/// One disk color; a cell holds `Option<Disk>`.
#[derive(Clone, Copy, Debug, PartialEq, Eq, Structural)]
pub enum Disk {
    Black,
    White,
}

impl Disk {
    pub open spec fn spec_opposite(self) -> Disk {
        match self {
            Disk::Black => Disk::White,
            Disk::White => Disk::Black,
        }
    }

    /// The other color; total on both variants.
    #[verifier::when_used_as_spec(spec_opposite)]
    pub fn opposite(self) -> (r: Self)
        ensures
            r == self.spec_opposite(),
    {
        match self {
            Self::Black => Self::White,
            Self::White => Self::Black,
        }
    }
}

/// A square grid of cells; row `y` holds the cells `(0, y)` to `(n-1, y)`.
#[derive(Debug)]
pub struct Board {
    pub disks: Vec<Vec<Option<Disk>>>,
}

impl View for Board {
    type V = Grid;

    open spec fn view(&self) -> Grid {
        self.disks@.map_values(|r: Vec<Option<Disk>>| r@)
    }
}

impl Board {
    /// The side length of the board.
    pub open spec fn spec_size(&self) -> int {
        self@.len() as int
    }

    /// The board invariant: a square grid whose side length is even and
    /// within the configured bounds.
    pub open spec fn wf(&self) -> bool {
        &&& MIN_BOARD_SIZE <= self.spec_size() <= MAX_BOARD_SIZE
        &&& self.spec_size() % 2 == 0
        &&& grid_wf(self@, self.spec_size())
    }

    /// A fresh board of the given size in the canonical starting
    /// configuration.
    pub fn new(size: u8) -> (r: Self)
        requires
            MIN_BOARD_SIZE <= size <= MAX_BOARD_SIZE,
            size % 2 == 0,
        ensures
            r.wf(),
            r.spec_size() == size,
            forall|x: int, y: int|
                in_bounds(size as int, x, y) ==> #[trigger] cell_at(r@, x, y) == start_cell(
                    size as int,
                    x,
                    y,
                ),
    {
        let n = size as usize;
        let mut disks: Vec<Vec<Option<Disk>>> = Vec::new();
        let mut j: usize = 0;
        while j < n
            invariant
                j <= n,
                disks@.len() == j,
                forall|r: int| 0 <= r < j ==> (#[trigger] disks@[r])@.len() == n,
                forall|r: int, c: int|
                    0 <= r < j && 0 <= c < n ==> #[trigger] disks@[r]@[c] == None::<Disk>,
            decreases n - j,
        {
            let mut row: Vec<Option<Disk>> = Vec::new();
            let mut i: usize = 0;
            while i < n
                invariant
                    i <= n,
                    row@.len() == i,
                    forall|c: int| 0 <= c < i ==> #[trigger] row@[c] == None::<Disk>,
                decreases n - i,
            {
                row.push(None);
                i += 1;
            }
            disks.push(row);
            j += 1;
        }
        let mut board = Board { disks };
        board.set_cell(n / 2 - 1, n / 2 - 1, Some(Disk::Black));
        board.set_cell(n / 2, n / 2, Some(Disk::Black));
        board.set_cell(n / 2, n / 2 - 1, Some(Disk::White));
        board.set_cell(n / 2 - 1, n / 2, Some(Disk::White));
        board
    }

    /// The cell at (x, y).
    pub fn get(&self, x: usize, y: usize) -> (r: Option<Disk>)
        requires
            in_bounds(self@.len() as int, x as int, y as int),
            grid_wf(self@, self@.len() as int),
        ensures
            r == cell_at(self@, x as int, y as int),
    {
        self.disks[y][x]
    }

    /// Overwrites the cell at (x, y); for the resolver's internal use.
    fn set_cell(&mut self, x: usize, y: usize, c: Option<Disk>)
        requires
            in_bounds(old(self)@.len() as int, x as int, y as int),
            grid_wf(old(self)@, old(self)@.len() as int),
        ensures
            final(self)@ == grid_update(old(self)@, x as int, y as int, c),
    {
        proof {
            assert(self@[y as int].len() == self@.len());
            assert(self@[y as int] == self.disks@[y as int]@);
        }
        self.disks[y][x] = c;
        proof {
            assert(self@ =~~= grid_update(old(self)@, x as int, y as int, c));
        }
    }

    /// The direction with scan index `t`, as executable step offsets.
    fn dir_step(t: usize) -> (r: (i32, i32))
        requires
            t < 8,
        ensures
            r.0 as int == dir(t as int).0,
            r.1 as int == dir(t as int).1,
            is_unit_dir(r.0 as int, r.1 as int),
    {
        if t == 0 {
            (1, 0)
        } else if t == 1 {
            (0, 1)
        } else if t == 2 {
            (-1, 0)
        } else if t == 3 {
            (0, -1)
        } else if t == 4 {
            (1, 1)
        } else if t == 5 {
            (-1, -1)
        } else if t == 6 {
            (1, -1)
        } else {
            (-1, 1)
        }
    }

    /// Whether (x, y) is a cell of the board.
    pub fn is_inside_board(&self, x: i32, y: i32) -> (r: bool)
        requires
            self.wf(),
        ensures
            r == in_bounds(self.spec_size(), x as int, y as int),
    {
        let n = self.disks.len() as i32;
        !(x < 0 || x >= n || y < 0 || y >= n)
    }

    /// The direction scanner: whether placing `disk` at (x, y) would capture
    /// a run of opponent disks along (dx, dy).
    pub fn is_flippable_direction(&self, disk: Disk, x: i32, y: i32, dx: i32, dy: i32) -> (r:
        bool)
        requires
            self.wf(),
            in_bounds(self.spec_size(), x as int, y as int),
            is_unit_dir(dx as int, dy as int),
        ensures
            r == captures_dir(
                self@,
                self.spec_size(),
                disk,
                x as int,
                y as int,
                dx as int,
                dy as int,
            ),
    {
        let ghost g = self@;
        let ghost n = self.spec_size();
        proof {
            assert(disk.opposite() != disk);
        }
        let mut cx = x + dx;
        let mut cy = y + dy;

        // The adjacent cell must hold the opponent's color.
        if !self.is_inside_board(cx, cy) {
            proof {
                assert forall|k: int| !(#[trigger] capture_run(
                    g,
                    n,
                    disk,
                    x as int,
                    y as int,
                    dx as int,
                    dy as int,
                    k,
                )) by {
                    if capture_run(g, n, disk, x as int, y as int, dx as int, dy as int, k) {
                        assert(run_cell_opp(g, n, disk, x as int, y as int, dx as int, dy as int, 1));
                    }
                }
            }
            return false;
        }
        let first = self.get(cx as usize, cy as usize);
        proof {
            assert(ray_pt(x as int, y as int, dx as int, dy as int, 1) == (cx as int, cy as int));
        }
        match first {
            None => {
                proof {
                    assert forall|k: int| !(#[trigger] capture_run(
                        g,
                        n,
                        disk,
                        x as int,
                        y as int,
                        dx as int,
                        dy as int,
                        k,
                    )) by {
                        if capture_run(g, n, disk, x as int, y as int, dx as int, dy as int, k) {
                            assert(run_cell_opp(g, n, disk, x as int, y as int, dx as int, dy as int, 1));
                        }
                    }
                }
                return false;
            },
            Some(f) => {
                if f == disk {
                    proof {
                        assert forall|k: int| !(#[trigger] capture_run(
                            g,
                            n,
                            disk,
                            x as int,
                            y as int,
                            dx as int,
                            dy as int,
                            k,
                        )) by {
                            if capture_run(g, n, disk, x as int, y as int, dx as int, dy as int, k) {
                                assert(run_cell_opp(g, n, disk, x as int, y as int, dx as int, dy as int, 1));
                            }
                        }
                    }
                    return false;
                }
            },
        }

        // Walk outward past the opponent run, looking for a closing disk.
        let ghost i: int = 2;
        cx = cx + dx;
        cy = cy + dy;
        while self.is_inside_board(cx, cy)
            invariant
                self.wf(),
                g == self@,
                n == self.spec_size(),
                is_unit_dir(dx as int, dy as int),
                in_bounds(n, x as int, y as int),
                2 <= i <= n + 1,
                cx as int == x as int + i * (dx as int),
                cy as int == y as int + i * (dy as int),
                -1 <= cx as int <= n,
                -1 <= cy as int <= n,
                forall|j: int|
                    1 <= j < i ==> #[trigger] run_cell_opp(
                        g,
                        n,
                        disk,
                        x as int,
                        y as int,
                        dx as int,
                        dy as int,
                        j,
                    ),
            decreases n + 1 - i,
        {
            proof {
                assert(ray_pt(x as int, y as int, dx as int, dy as int, i) == (
                    cx as int,
                    cy as int,
                ));
            }
            match self.get(cx as usize, cy as usize) {
                Some(t) => {
                    if t == disk {
                        // The run 1..i is sandwiched: (x, y) captures it.
                        proof {
                            assert(capture_run(
                                g,
                                n,
                                disk,
                                x as int,
                                y as int,
                                dx as int,
                                dy as int,
                                i,
                            ));
                        }
                        return true;
                    }
                },
                None => {
                    // A blank cell before any closing disk: no capture here.
                    proof {
                        assert forall|k: int| !(#[trigger] capture_run(
                            g,
                            n,
                            disk,
                            x as int,
                            y as int,
                            dx as int,
                            dy as int,
                            k,
                        )) by {
                            if capture_run(g, n, disk, x as int, y as int, dx as int, dy as int, k) {
                                if k < i {
                                    assert(run_cell_opp(g, n, disk, x as int, y as int, dx as int, dy as int, k));
                                } else if k > i {
                                    assert(run_cell_opp(g, n, disk, x as int, y as int, dx as int, dy as int, i));
                                }
                            }
                        }
                    }
                    return false;
                },
            }
            proof {
                assert(i <= n) by (nonlinear_arith)
                    requires
                        -1 <= dx as int <= 1,
                        -1 <= dy as int <= 1,
                        dx as int != 0 || dy as int != 0,
                        cx as int == x as int + i * (dx as int),
                        cy as int == y as int + i * (dy as int),
                        0 <= cx as int && (cx as int) < n,
                        0 <= cy as int && (cy as int) < n,
                        0 <= x as int && (x as int) < n,
                        0 <= y as int && (y as int) < n,
                        2 <= i,
                {}
                assert((i + 1) * (dx as int) == i * (dx as int) + dx as int) by (nonlinear_arith);
                assert((i + 1) * (dy as int) == i * (dy as int) + dy as int) by (nonlinear_arith);
                i = i + 1;
            }
            cx = cx + dx;
            cy = cy + dy;
        }
        // Ran off the board without finding a closing disk.
        proof {
            assert(ray_pt(x as int, y as int, dx as int, dy as int, i) == (cx as int, cy as int));
            assert forall|k: int| !(#[trigger] capture_run(
                g,
                n,
                disk,
                x as int,
                y as int,
                dx as int,
                dy as int,
                k,
            )) by {
                if capture_run(g, n, disk, x as int, y as int, dx as int, dy as int, k) {
                    if k < i {
                        assert(run_cell_opp(g, n, disk, x as int, y as int, dx as int, dy as int, k));
                    } else if k > i {
                        assert(run_cell_opp(g, n, disk, x as int, y as int, dx as int, dy as int, i));
                    }
                }
            }
        }
        false
    }

    /// Flips the captured run along (dx, dy), if any, and returns how many
    /// disks were flipped.
    fn flip_dir(&mut self, disk: Disk, x: u8, y: u8, dx: i32, dy: i32) -> (f: u8)
        requires
            old(self).wf(),
            in_bounds(old(self).spec_size(), x as int, y as int),
            is_unit_dir(dx as int, dy as int),
        ensures
            final(self).wf(),
            final(self).spec_size() == old(self).spec_size(),
            !captures_dir(
                old(self)@,
                old(self).spec_size(),
                disk,
                x as int,
                y as int,
                dx as int,
                dy as int,
            ) ==> f == 0 && final(self)@ == old(self)@,
            captures_dir(
                old(self)@,
                old(self).spec_size(),
                disk,
                x as int,
                y as int,
                dx as int,
                dy as int,
            ) ==> exists|k: int|
                {
                    &&& #[trigger] capture_run(
                        old(self)@,
                        old(self).spec_size(),
                        disk,
                        x as int,
                        y as int,
                        dx as int,
                        dy as int,
                        k,
                    )
                    &&& f as int == k - 1
                    &&& ray_flipped(
                        old(self)@,
                        final(self)@,
                        disk,
                        x as int,
                        y as int,
                        dx as int,
                        dy as int,
                        k,
                    )
                },
            f as int <= old(self).spec_size() - 2,
            grid_count(final(self)@, disk) == grid_count(old(self)@, disk) + f,
            grid_count(final(self)@, disk.opposite()) == grid_count(old(self)@, disk.opposite())
                - f,
    {
        let ghost g0 = self@;
        let ghost n = self.spec_size();
        let ghost xi = x as int;
        let ghost yi = y as int;
        proof {
            assert(disk.opposite() != disk);
        }
        if !self.is_flippable_direction(disk, x as i32, y as i32, dx, dy) {
            return 0;
        }
        let ghost k = choose|k: int|
            capture_run(g0, n, disk, x as int, y as int, dx as int, dy as int, k);
        proof {
            // The run fits strictly inside the board, so k - 1 <= n - 2.
            assert(in_bounds(n, x as int + k * (dx as int), y as int + k * (dy as int)));
            assert(k <= n - 1) by (nonlinear_arith)
                requires
                    -1 <= dx as int <= 1,
                    -1 <= dy as int <= 1,
                    dx as int != 0 || dy as int != 0,
                    0 <= x as int + k * (dx as int) && x as int + k * (dx as int) < n,
                    0 <= y as int + k * (dy as int) && y as int + k * (dy as int) < n,
                    0 <= x as int && (x as int) < n,
                    0 <= y as int && (y as int) < n,
                    2 <= k,
            {}
        }
        let mut cx = x as i32 + dx;
        let mut cy = y as i32 + dy;
        let ghost i: int = 1;
        let mut f: u8 = 0;
        loop
            invariant
                self.wf(),
                self.spec_size() == n,
                g0 == old(self)@,
                n == old(self).spec_size(),
                grid_wf(g0, n),
                is_unit_dir(dx as int, dy as int),
                in_bounds(n, x as int, y as int),
                xi == x as int,
                yi == y as int,
                disk.opposite() != disk,
                capture_run(g0, n, disk, x as int, y as int, dx as int, dy as int, k),
                2 <= k <= n - 1,
                1 <= i <= k,
                cx as int == x as int + i * (dx as int),
                cy as int == y as int + i * (dy as int),
                f as int == i - 1,
                forall|u: int, v: int|
                    0 <= v < n && 0 <= u < n ==> #[trigger] cell_at(self@, u, v) == (
                    if on_open_ray(x as int, y as int, dx as int, dy as int, i, u, v) {
                        Some(disk)
                    } else {
                        cell_at(g0, u, v)
                    }),
                grid_count(self@, disk) == grid_count(g0, disk) + i - 1,
                grid_count(self@, disk.opposite()) == grid_count(g0, disk.opposite()) - (i - 1),
            decreases k - i,
        {
            proof {
                assert(ray_pt(xi, yi, dx as int, dy as int, i) == (cx as int, cy as int));
                if i < k {
                    assert(run_cell_opp(g0, n, disk, xi, yi, dx as int, dy as int, i));
                }
                // Position i itself is not among the already flipped cells.
                assert forall|i2: int| 1 <= i2 < i implies ray_pt(xi, yi, dx as int, dy as int, i2)
                    != (cx as int, cy as int) by {
                    if ray_pt(xi, yi, dx as int, dy as int, i2) == ray_pt(
                        xi,
                        yi,
                        dx as int,
                        dy as int,
                        i,
                    ) {
                        lemma_ray_injective(xi, yi, dx as int, dy as int, i2, i);
                    }
                }
                assert(!on_open_ray(xi, yi, dx as int, dy as int, i, cx as int, cy as int));
                assert(cell_at(self@, cx as int, cy as int) == cell_at(g0, cx as int, cy as int));
            }
            match self.get(cx as usize, cy as usize) {
                Some(t) => {
                    if t == disk {
                        proof {
                            if i < k {
                                assert(cell_at(g0, cx as int, cy as int) == Some(disk.opposite()));
                                assert(false);
                            }
                            assert(i == k);
                        }
                        return f;
                    }
                },
                None => {
                    proof {
                        if i < k {
                            assert(cell_at(g0, cx as int, cy as int) == Some(disk.opposite()));
                        } else {
                            assert(cell_at(g0, cx as int, cy as int) == Some(disk));
                        }
                        assert(false);
                    }
                },
            }
            // The cell holds an opponent disk: flip it.
            proof {
                assert(i < k);
                assert(in_bounds(n, cx as int, cy as int));
            }
            let ghost gc = self@;
            self.set_cell(cx as usize, cy as usize, Some(disk));
            proof {
                lemma_grid_count_update(gc, cx as int, cy as int, Some(disk), disk);
                lemma_grid_count_update(gc, cx as int, cy as int, Some(disk), disk.opposite());
                assert(cell_at(gc, cx as int, cy as int) == Some(disk.opposite()));
                // The new board flips exactly the open ray cells 1..i+1.
                assert forall|u: int, v: int| 0 <= v < n && 0 <= u < n implies #[trigger] cell_at(
                    self@,
                    u,
                    v,
                ) == (if on_open_ray(xi, yi, dx as int, dy as int, i + 1, u, v) {
                    Some(disk)
                } else {
                    cell_at(g0, u, v)
                }) by {
                    if u == cx as int && v == cy as int {
                        assert(ray_pt(xi, yi, dx as int, dy as int, i) == (u, v));
                        assert(on_open_ray(xi, yi, dx as int, dy as int, i + 1, u, v));
                    } else {
                        assert(cell_at(self@, u, v) == cell_at(gc, u, v));
                        if on_open_ray(xi, yi, dx as int, dy as int, i + 1, u, v) {
                            let i2 = choose|i2: int|
                                1 <= i2 < i + 1 && ray_pt(xi, yi, dx as int, dy as int, i2) == (
                                u,
                                v,
                                );
                            if i2 == i {
                                assert(ray_pt(xi, yi, dx as int, dy as int, i) == (
                                    cx as int,
                                    cy as int,
                                ));
                                assert(false);
                            }
                            assert(on_open_ray(xi, yi, dx as int, dy as int, i, u, v));
                        } else {
                            assert(!on_open_ray(xi, yi, dx as int, dy as int, i, u, v));
                        }
                    }
                }
                assert((i + 1) * (dx as int) == i * (dx as int) + dx as int) by (nonlinear_arith);
                assert((i + 1) * (dy as int) == i * (dy as int) + dy as int) by (nonlinear_arith);
                i = i + 1;
            }
            f = f + 1;
            cx = cx + dx;
            cy = cy + dy;
        }
    }

    /// The move resolver: re-validates legality and, if the move is legal,
    /// places `disk` at (x, y), flips every captured run, and returns the
    /// number of flipped disks. An illegal move fails with `CannotPlaceDisk`
    /// and leaves the board unchanged.
    pub fn place_disk(&mut self, disk: Disk, x: u8, y: u8) -> (r: Result<u8, ReversiError>)
        requires
            old(self).wf(),
        ensures
            final(self).wf(),
            final(self).spec_size() == old(self).spec_size(),
            !legal_move(old(self)@, old(self).spec_size(), disk, x as int, y as int) ==> r
                == Err::<u8, ReversiError>(ReversiError::CannotPlaceDisk) && *final(self) == *old(
                self,
            ),
            legal_move(old(self)@, old(self).spec_size(), disk, x as int, y as int) ==> {
                &&& r is Ok
                &&& 1 <= r->Ok_0
                &&& final(self)@ == board_after(
                    old(self)@,
                    old(self).spec_size(),
                    disk,
                    x as int,
                    y as int,
                )
                &&& grid_count(final(self)@, disk) == grid_count(old(self)@, disk) + 1
                    + r->Ok_0
                &&& grid_count(final(self)@, disk.opposite()) == grid_count(
                    old(self)@,
                    disk.opposite(),
                ) - r->Ok_0
                &&& grid_count(final(self)@, disk) + grid_count(final(self)@, disk.opposite())
                    == grid_count(old(self)@, disk) + grid_count(old(self)@, disk.opposite()) + 1
            },
    {
        let ghost g0 = self@;
        let ghost n = self.spec_size();
        let ghost xi = x as int;
        let ghost yi = y as int;
        if !self.is_valid_place(disk, x, y) {
            return Err(ReversiError::CannotPlaceDisk);
        }
        proof {
            assert(disk.opposite() != disk);
        }
        self.set_cell(x as usize, y as usize, Some(disk));
        proof {
            lemma_grid_count_update(g0, xi, yi, Some(disk), disk);
            lemma_grid_count_update(g0, xi, yi, Some(disk), disk.opposite());
        }
        let mut flipped: u8 = 0;
        let mut t: usize = 0;
        while t < 8
            invariant
                self.wf(),
                self.spec_size() == n,
                g0 == old(self)@,
                n == old(self).spec_size(),
                grid_wf(g0, n),
                xi == x as int,
                yi == y as int,
                in_bounds(n, xi, yi),
                cell_at(g0, xi, yi) is None,
                legal_move(g0, n, disk, xi, yi),
                disk.opposite() != disk,
                t <= 8,
                forall|u: int, v: int|
                    0 <= v < n && 0 <= u < n ==> #[trigger] cell_at(self@, u, v) == (
                    if u == xi && v == yi {
                        Some(disk)
                    } else if flipped_upto(g0, n, disk, xi, yi, t as int, u, v) {
                        Some(disk)
                    } else {
                        cell_at(g0, u, v)
                    }),
                grid_count(self@, disk) == grid_count(g0, disk) + 1 + flipped,
                grid_count(self@, disk.opposite()) == grid_count(g0, disk.opposite()) - flipped,
                flipped as int <= 8 * t,
                (exists|s: int|
                    0 <= s < t && #[trigger] captures_toward(g0, n, disk, xi, yi, s)) ==> flipped
                    as int >= 1,
            decreases 8 - t,
        {
            let (dx, dy) = Board::dir_step(t);
            let ghost gc = self@;
            let ghost dxi = dx as int;
            let ghost dyi = dy as int;
            proof {
                // The cells along this direction's ray are still as on the
                // original board: earlier flips touched only other rays.
                assert forall|i: int|
                    1 <= i && in_bounds(
                        n,
                        (#[trigger] ray_pt(xi, yi, dxi, dyi, i)).0,
                        ray_pt(xi, yi, dxi, dyi, i).1,
                    ) implies cell_at(gc, ray_pt(xi, yi, dxi, dyi, i).0, ray_pt(xi, yi, dxi, dyi, i).1)
                    == cell_at(g0, ray_pt(xi, yi, dxi, dyi, i).0, ray_pt(xi, yi, dxi, dyi, i).1) by {
                    let u = ray_pt(xi, yi, dxi, dyi, i).0;
                    let v = ray_pt(xi, yi, dxi, dyi, i).1;
                    lemma_ray_origin(xi, yi, dxi, dyi, i);
                    if flipped_upto(g0, n, disk, xi, yi, t as int, u, v) {
                        let s = choose|s: int|
                            0 <= s < t && #[trigger] flipped_toward(g0, n, disk, xi, yi, s, u, v);
                        let k2 = choose|k2: int|
                            #[trigger] capture_run(g0, n, disk, xi, yi, dir(s).0, dir(s).1, k2)
                                && on_open_ray(xi, yi, dir(s).0, dir(s).1, k2, u, v);
                        let i2 = choose|i2: int|
                            1 <= i2 < k2 && #[trigger] ray_pt(xi, yi, dir(s).0, dir(s).1, i2) == (
                            u,
                            v,
                            );
                        lemma_dirs_distinct(s, t as int);
                        lemma_dir_is_unit(s);
                        lemma_unit_rays_disjoint(xi, yi, dir(s).0, dir(s).1, dxi, dyi, i2, i);
                        assert(false);
                    }
                }
                assert forall|k: int|
                    #[trigger] capture_run(gc, n, disk, xi, yi, dxi, dyi, k) == capture_run(
                        g0,
                        n,
                        disk,
                        xi,
                        yi,
                        dxi,
                        dyi,
                        k,
                    ) by {
                    lemma_capture_run_frame(g0, gc, n, disk, xi, yi, dxi, dyi, k);
                }
            }
            let f = self.flip_dir(disk, x, y, dx, dy);
            proof {
                if captures_dir(gc, n, disk, xi, yi, dxi, dyi) {
                    let k = choose|k: int|
                        {
                            &&& #[trigger] capture_run(gc, n, disk, xi, yi, dxi, dyi, k)
                            &&& f as int == k - 1
                            &&& ray_flipped(gc, self@, disk, xi, yi, dxi, dyi, k)
                        };
                    assert(capture_run(g0, n, disk, xi, yi, dxi, dyi, k));
                    assert(captures_toward(g0, n, disk, xi, yi, t as int));
                    assert forall|u: int, v: int| 0 <= v < n && 0 <= u < n implies #[trigger] cell_at(
                        self@,
                        u,
                        v,
                    ) == (if u == xi && v == yi {
                        Some(disk)
                    } else if flipped_upto(g0, n, disk, xi, yi, t as int + 1, u, v) {
                        Some(disk)
                    } else {
                        cell_at(g0, u, v)
                    }) by {
                        if u == xi && v == yi {
                            if on_open_ray(xi, yi, dxi, dyi, k, u, v) {
                                let i3 = choose|i3: int|
                                    1 <= i3 < k && #[trigger] ray_pt(xi, yi, dxi, dyi, i3) == (
                                    u,
                                    v,
                                    );
                                lemma_ray_origin(xi, yi, dxi, dyi, i3);
                                assert(false);
                            }
                            assert(cell_at(self@, u, v) == cell_at(gc, u, v));
                        } else if on_open_ray(xi, yi, dxi, dyi, k, u, v) {
                            assert(cell_at(self@, u, v) == Some(disk));
                            assert(flipped_toward(g0, n, disk, xi, yi, t as int, u, v));
                            assert(flipped_upto(g0, n, disk, xi, yi, t as int + 1, u, v));
                        } else {
                            assert(cell_at(self@, u, v) == cell_at(gc, u, v));
                            if flipped_upto(g0, n, disk, xi, yi, t as int + 1, u, v) {
                                if !flipped_upto(g0, n, disk, xi, yi, t as int, u, v) {
                                    let s = choose|s: int|
                                        0 <= s < t as int + 1 && #[trigger] flipped_toward(
                                            g0,
                                            n,
                                            disk,
                                            xi,
                                            yi,
                                            s,
                                            u,
                                            v,
                                        );
                                    assert(s == t as int);
                                    let k3 = choose|k3: int|
                                        #[trigger] capture_run(
                                            g0,
                                            n,
                                            disk,
                                            xi,
                                            yi,
                                            dir(s).0,
                                            dir(s).1,
                                            k3,
                                        ) && on_open_ray(xi, yi, dir(s).0, dir(s).1, k3, u, v);
                                    lemma_capture_run_unique(
                                        g0,
                                        n,
                                        disk,
                                        xi,
                                        yi,
                                        dxi,
                                        dyi,
                                        k3,
                                        k,
                                    );
                                    assert(false);
                                }
                            }
                            if flipped_upto(g0, n, disk, xi, yi, t as int, u, v) {
                                assert(flipped_upto(g0, n, disk, xi, yi, t as int + 1, u, v));
                            }
                        }
                    }
                } else {
                    assert(f == 0 && self@ == gc);
                    if captures_dir(g0, n, disk, xi, yi, dxi, dyi) {
                        let k = choose|k: int|
                            #[trigger] capture_run(g0, n, disk, xi, yi, dxi, dyi, k);
                        assert(capture_run(gc, n, disk, xi, yi, dxi, dyi, k));
                        assert(false);
                    }
                    assert forall|u: int, v: int| 0 <= v < n && 0 <= u < n implies #[trigger] cell_at(
                        self@,
                        u,
                        v,
                    ) == (if u == xi && v == yi {
                        Some(disk)
                    } else if flipped_upto(g0, n, disk, xi, yi, t as int + 1, u, v) {
                        Some(disk)
                    } else {
                        cell_at(g0, u, v)
                    }) by {
                        if flipped_upto(g0, n, disk, xi, yi, t as int + 1, u, v)
                            && !flipped_upto(g0, n, disk, xi, yi, t as int, u, v) {
                            let s = choose|s: int|
                                0 <= s < t as int + 1 && #[trigger] flipped_toward(
                                    g0,
                                    n,
                                    disk,
                                    xi,
                                    yi,
                                    s,
                                    u,
                                    v,
                                );
                            assert(s == t as int);
                            let k3 = choose|k3: int|
                                #[trigger] capture_run(
                                    g0,
                                    n,
                                    disk,
                                    xi,
                                    yi,
                                    dir(s).0,
                                    dir(s).1,
                                    k3,
                                ) && on_open_ray(xi, yi, dir(s).0, dir(s).1, k3, u, v);
                            assert(captures_dir(g0, n, disk, xi, yi, dxi, dyi));
                            assert(false);
                        }
                        if flipped_upto(g0, n, disk, xi, yi, t as int, u, v) {
                            assert(flipped_upto(g0, n, disk, xi, yi, t as int + 1, u, v));
                        }
                    }
                }
            }
            flipped = flipped + f;
            t += 1;
        }
        proof {
            let ba = board_after(g0, n, disk, xi, yi);
            assert(ba.len() == n);
            assert forall|v: int| 0 <= v < n implies #[trigger] self@[v] == ba[v] by {
                assert(g0[v].len() == n);
                assert(ba[v].len() == n);
                assert forall|u: int| 0 <= u < n implies self@[v][u] == ba[v][u] by {
                    assert(cell_at(self@, u, v) == (if u == xi && v == yi {
                        Some(disk)
                    } else if flipped_upto(g0, n, disk, xi, yi, 8, u, v) {
                        Some(disk)
                    } else {
                        cell_at(g0, u, v)
                    }));
                }
                assert(self@[v] =~= ba[v]);
            }
            assert(self@ =~= ba);
        }
        Ok(flipped)
    }

    /// Move legality: the cell is empty, in bounds, and at least one of the
    /// 8 directions satisfies the sandwich condition.
    pub fn is_valid_place(&self, disk: Disk, x: u8, y: u8) -> (r: bool)
        requires
            self.wf(),
        ensures
            r == legal_move(self@, self.spec_size(), disk, x as int, y as int),
    {
        let ghost n = self.spec_size();
        let xi = x as i32;
        let yi = y as i32;

        if !self.is_inside_board(xi, yi) {
            return false;
        }
        if self.get(x as usize, y as usize).is_some() {
            return false;
        }
        let mut t: usize = 0;
        while t < 8
            invariant
                self.wf(),
                n == self.spec_size(),
                t <= 8,
                xi == x as i32,
                yi == y as i32,
                in_bounds(n, x as int, y as int),
                cell_at(self@, x as int, y as int) is None,
                forall|s: int|
                    0 <= s < t ==> !(#[trigger] captures_toward(
                        self@,
                        n,
                        disk,
                        x as int,
                        y as int,
                        s,
                    )),
            decreases 8 - t,
        {
            let (dx, dy) = Self::dir_step(t);
            if self.is_flippable_direction(disk, xi, yi, dx, dy) {
                proof {
                    assert(captures_toward(self@, n, disk, x as int, y as int, t as int));
                }
                return true;
            }
            t += 1;
        }
        false
    }

    /// Whether `disk` has at least one legal move anywhere on the board.
    pub fn can_place_disk(&self, disk: Disk) -> (r: bool)
        requires
            self.wf(),
        ensures
            r == any_legal_move(self@, self.spec_size(), disk),
    {
        let ghost n = self.spec_size();
        let size = self.disks.len();
        let mut i: usize = 0;
        while i < size
            invariant
                self.wf(),
                n == self.spec_size(),
                size == self@.len(),
                i <= size,
                forall|x2: int, y2: int|
                    0 <= x2 < i && 0 <= y2 < n ==> !(#[trigger] legal_move(
                        self@,
                        n,
                        disk,
                        x2,
                        y2,
                    )),
            decreases size - i,
        {
            let mut j: usize = 0;
            while j < size
                invariant
                    self.wf(),
                    n == self.spec_size(),
                    size == self@.len(),
                    i < size,
                    j <= size,
                    forall|x2: int, y2: int|
                        0 <= x2 < i && 0 <= y2 < n ==> !(#[trigger] legal_move(
                            self@,
                            n,
                            disk,
                            x2,
                            y2,
                        )),
                    forall|y2: int|
                        0 <= y2 < j ==> !(#[trigger] legal_move(self@, n, disk, i as int, y2)),
                decreases size - j,
            {
                if self.is_valid_place(disk, i as u8, j as u8) {
                    proof {
                        assert(legal_move(self@, n, disk, i as int, j as int));
                    }
                    return true;
                }
                j += 1;
            }
            i += 1;
        }
        proof {
            if any_legal_move(self@, n, disk) {
                let (x2, y2) = choose|x2: int, y2: int| legal_move(self@, n, disk, x2, y2);
                assert(false);
            }
        }
        false
    }

    /// The scorer: the number of Black disks and the number of White disks.
    pub fn count_disks(&self) -> (r: (u8, u8))
        requires
            self.wf(),
        ensures
            r.0 as int == grid_count(self@, Disk::Black),
            r.1 as int == grid_count(self@, Disk::White),
    {
        let ghost n = self.spec_size();
        let size = self.disks.len();
        let mut black: usize = 0;
        let mut white: usize = 0;
        let mut j: usize = 0;
        while j < size
            invariant
                self.wf(),
                n == self.spec_size(),
                size == self@.len(),
                j <= size,
                black as int == grid_count(self@.take(j as int), Disk::Black),
                white as int == grid_count(self@.take(j as int), Disk::White),
                black as int + white as int <= (j as int) * n,
            decreases size - j,
        {
            let ghost row = self@[j as int];
            let mut i: usize = 0;
            while i < size
                invariant
                    self.wf(),
                    n == self.spec_size(),
                    size == self@.len(),
                    j < size,
                    i <= size,
                    row == self@[j as int],
                    row.len() == n,
                    black as int == grid_count(self@.take(j as int), Disk::Black) + row_count(
                        row.take(i as int),
                        Disk::Black,
                    ),
                    white as int == grid_count(self@.take(j as int), Disk::White) + row_count(
                        row.take(i as int),
                        Disk::White,
                    ),
                    black as int + white as int <= (j as int) * n + i,
                decreases size - i,
            {
                proof {
                    lemma_row_count_take_step(row, Disk::Black, i as int);
                    lemma_row_count_take_step(row, Disk::White, i as int);
                    assert((j as int) * n <= 100) by (nonlinear_arith)
                        requires
                            0 <= j as int <= 10,
                            0 <= n <= 10,
                    {}
                }
                match self.get(i, j) {
                    Some(Disk::Black) => {
                        black = black + 1;
                    },
                    Some(Disk::White) => {
                        white = white + 1;
                    },
                    None => {},
                }
                i += 1;
            }
            proof {
                assert(row.take(n) =~= row);
                lemma_grid_count_take_step(self@, Disk::Black, j as int);
                lemma_grid_count_take_step(self@, Disk::White, j as int);
                assert((j as int) * n + n == (j as int + 1) * n) by (nonlinear_arith);
            }
            j += 1;
        }
        proof {
            assert(self@.take(n) =~= self@);
            assert((size as int) * n <= 100) by (nonlinear_arith)
                requires
                    size as int == n,
                    0 <= n <= 10,
            {}
        }
        (black as u8, white as u8)
    }
}

impl Clone for Board {
    /// An exact cell-for-cell copy of the board.
    fn clone(&self) -> (r: Board)
        ensures
            r@ == self@,
    {
        let mut disks: Vec<Vec<Option<Disk>>> = Vec::new();
        let rows = self.disks.len();
        let mut j: usize = 0;
        while j < rows
            invariant
                rows == self.disks@.len(),
                j <= rows,
                disks@.len() == j,
                forall|r2: int| 0 <= r2 < j ==> (#[trigger] disks@[r2])@ == self.disks@[r2]@,
            decreases rows - j,
        {
            let cols = self.disks[j].len();
            let mut row: Vec<Option<Disk>> = Vec::new();
            let mut i: usize = 0;
            while i < cols
                invariant
                    rows == self.disks@.len(),
                    j < rows,
                    cols == self.disks@[j as int]@.len(),
                    i <= cols,
                    row@.len() == i,
                    forall|c: int| 0 <= c < i ==> row@[c] == self.disks@[j as int]@[c],
                decreases cols - i,
            {
                row.push(self.disks[j][i]);
                i += 1;
            }
            proof {
                assert(row@ =~= self.disks@[j as int]@);
            }
            disks.push(row);
            j += 1;
        }
        let r = Board { disks };
        proof {
            assert(r@ =~~= self@);
        }
        r
    }
}

impl PartialEq for Board {
    /// Two boards are equal when they agree cell for cell.
    fn eq(&self, other: &Board) -> (r: bool) {
        let rows = self.disks.len();
        if rows != other.disks.len() {
            proof {
                assert(self@.len() != other@.len());
            }
            return false;
        }
        let mut j: usize = 0;
        while j < rows
            invariant
                rows == self@.len(),
                rows == other@.len(),
                j <= rows,
                forall|r2: int| 0 <= r2 < j ==> #[trigger] self@[r2] == other@[r2],
            decreases rows - j,
        {
            let cols = self.disks[j].len();
            if cols != other.disks[j].len() {
                proof {
                    assert(self@[j as int].len() != other@[j as int].len());
                }
                return false;
            }
            let mut i: usize = 0;
            while i < cols
                invariant
                    rows == self@.len(),
                    rows == other@.len(),
                    j < rows,
                    cols == self@[j as int].len(),
                    cols == other@[j as int].len(),
                    i <= cols,
                    forall|c: int| 0 <= c < i ==> self@[j as int][c] == other@[j as int][c],
                decreases cols - i,
            {
                let a = self.disks[j][i];
                let b = other.disks[j][i];
                let same = match (a, b) {
                    (None, None) => true,
                    (Some(da), Some(db)) => da == db,
                    _ => false,
                };
                if !same {
                    proof {
                        assert(self@[j as int][i as int] != other@[j as int][i as int]);
                    }
                    return false;
                }
                i += 1;
            }
            proof {
                assert(self@[j as int] =~= other@[j as int]);
            }
            j += 1;
        }
        proof {
            assert(self@ =~= other@);
        }
        true
    }
}

impl Eq for Board {

}

impl vstd::std_specs::cmp::PartialEqSpecImpl for Board {
    open spec fn obeys_eq_spec() -> bool {
        true
    }

    open spec fn eq_spec(&self, other: &Board) -> bool {
        self@ == other@
    }
}

} // verus!
