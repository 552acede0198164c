use crate::fraction::Fraction;
use crate::grid::{
    agree_inside, at, cell_at, col, flat, in_grid, interior, lemma_flat_row_col, lemma_grid,
    lemma_row_col_flat, row, set_cell_at,
};
use crate::parallel::par_tabulate;
use crate::random::random_bool;
use vstd::prelude::*;

verus! {

/// One toroidal automaton: a square grid of cells with a one-cell ghost border, held
/// twice so that a step reads one buffer and writes the other.
pub struct Gol {
    pub size: usize,
    pub current: Vec<bool>,
    pub next: Vec<bool>,
}

/// Row (`x`) and column (`y`) of a cell.
#[derive(Debug, Copy, Clone)]
pub struct Point {
    pub x: usize,
    pub y: usize,
}

/// The mathematical content of a [`Gol`]: its side length, ghost border included, and
/// its two buffers, each stored row by row.
pub struct GolView {
    pub size: int,
    pub current: Seq<bool>,
    pub next: Seq<bool>,
}

/// The interior coordinate that a ghost coordinate mirrors: the far interior edge for
/// the near border, the near interior edge for the far border, and the coordinate
/// itself inside.
pub open spec fn wrapped(size: int, k: int) -> int {
    if k == 0 {
        size - 2
    } else if k == size - 1 {
        1
    } else {
        k
    }
}

/// The interior coordinate reached from `k` on a torus whose circumference is the
/// interior extent `size - 2`.
pub open spec fn torus(size: int, k: int) -> int {
    1 + (k - 1) % (size - 2)
}

/// 1 for a live cell, 0 for a dead one.
pub open spec fn alive(g: Seq<bool>, size: int, i: int, j: int) -> int {
    if at(g, size, i, j) {
        1
    } else {
        0
    }
}

/// Number of live cells among the eight cells around `(i, j)`, read as stored.
pub open spec fn live_neighbors(g: Seq<bool>, size: int, i: int, j: int) -> int {
    alive(g, size, i - 1, j - 1) + alive(g, size, i - 1, j) + alive(g, size, i - 1, j + 1) + alive(
        g,
        size,
        i,
        j - 1,
    ) + alive(g, size, i, j + 1) + alive(g, size, i + 1, j - 1) + alive(g, size, i + 1, j) + alive(
        g,
        size,
        i + 1,
        j + 1,
    )
}

/// Number of live cells among the eight neighbours of the interior cell `(i, j)` when
/// the interior is glued into a torus, read from interior cells only.
pub open spec fn torus_neighbors(g: Seq<bool>, size: int, i: int, j: int) -> int {
    alive(g, size, torus(size, i - 1), torus(size, j - 1)) + alive(
        g,
        size,
        torus(size, i - 1),
        torus(size, j),
    ) + alive(g, size, torus(size, i - 1), torus(size, j + 1)) + alive(
        g,
        size,
        torus(size, i),
        torus(size, j - 1),
    ) + alive(g, size, torus(size, i), torus(size, j + 1)) + alive(
        g,
        size,
        torus(size, i + 1),
        torus(size, j - 1),
    ) + alive(g, size, torus(size, i + 1), torus(size, j)) + alive(
        g,
        size,
        torus(size, i + 1),
        torus(size, j + 1),
    )
}

/// The rule: a live cell stays alive with two or three live neighbours, a dead cell
/// comes alive with exactly three.
pub open spec fn survives(is_alive: bool, neighbors: int) -> bool {
    if is_alive {
        neighbors == 2 || neighbors == 3
    } else {
        neighbors == 3
    }
}

/// The grid of side `size` whose interior holds `draws` row by row and whose ghost
/// cells are dead.
pub open spec fn seeded(size: int, draws: Seq<bool>) -> Seq<bool> {
    Seq::new(
        (size * size) as nat,
        |k: int|
            interior(size, row(size, k), col(size, k)) && at(
                draws,
                size - 2,
                row(size, k) - 1,
                col(size, k) - 1,
            ),
    )
}

/// Every cell of the buffer is dead.
pub open spec fn dead(g: Seq<bool>) -> bool {
    forall|k: int| 0 <= k < g.len() ==> !g[k]
}

/// Every ghost cell of the grid is dead.
pub open spec fn dead_border(g: Seq<bool>, size: int) -> bool {
    forall|i: int, j: int|
        in_grid(size, i, j) && !interior(size, i, j) ==> !#[trigger] at(g, size, i, j)
}

/// Every interior cell of the grid is alive.
pub open spec fn live_interior(g: Seq<bool>, size: int) -> bool {
    forall|i: int, j: int| interior(size, i, j) ==> #[trigger] at(g, size, i, j)
}

impl GolView {
    /// The side holds at least one interior cell and both buffers cover the grid.
    pub open spec fn wf(self) -> bool {
        &&& 3 <= self.size
        &&& self.current.len() == self.size * self.size
        &&& self.next.len() == self.size * self.size
    }

    /// State of cell `(i, j)` after one generation, computed from `current`.
    pub open spec fn next_state(self, i: int, j: int) -> bool {
        survives(at(self.current, self.size, i, j), live_neighbors(self.current, self.size, i, j))
    }

    /// `current` with every cell replaced by the interior cell it mirrors; interior
    /// cells mirror themselves.
    pub open spec fn ghost_filled(self) -> GolView {
        GolView {
            size: self.size,
            current: Seq::new(
                self.current.len(),
                |k: int|
                    at(
                        self.current,
                        self.size,
                        wrapped(self.size, row(self.size, k)),
                        wrapped(self.size, col(self.size, k)),
                    ),
            ),
            next: self.next,
        }
    }

    /// The two buffers exchanged.
    pub open spec fn swapped(self) -> GolView {
        GolView { size: self.size, current: self.next, next: self.current }
    }

    /// One sequential step: the interior of the new `current` is the next generation
    /// of the old one, its border is whatever the old `next` held there, and the old
    /// `current` is kept as `next`.
    pub open spec fn stepped(self) -> GolView {
        GolView {
            size: self.size,
            current: Seq::new(
                self.next.len(),
                |k: int|
                    if interior(self.size, row(self.size, k), col(self.size, k)) {
                        self.next_state(row(self.size, k), col(self.size, k))
                    } else {
                        self.next[k]
                    },
            ),
            next: self.current,
        }
    }

    /// What the parallel step writes at position `k`: the next generation inside, a
    /// dead cell on the border.
    pub open spec fn par_cell(self, k: int) -> bool {
        if interior(self.size, row(self.size, k), col(self.size, k)) {
            self.next_state(row(self.size, k), col(self.size, k))
        } else {
            false
        }
    }

    /// One parallel step: as [`GolView::stepped`], but with a dead border.
    pub open spec fn stepped_par(self) -> GolView {
        GolView {
            size: self.size,
            current: Seq::new(self.next.len(), |k: int| self.par_cell(k)),
            next: self.current,
        }
    }
}

impl View for Gol {
    type V = GolView;

    open spec fn view(&self) -> GolView {
        GolView { size: self.size as int, current: self.current@, next: self.next@ }
    }
}

/// 1 for a live cell, 0 for a dead one.
fn as_count(live: bool) -> (n: u8)
    ensures
        n == (if live { 1int } else { 0int }),
{
    if live {
        1
    } else {
        0
    }
}

impl Gol {
    /// The invariant every method keeps: see [`GolView::wf`].
    pub open spec fn wf(&self) -> bool {
        self@.wf()
    }

    /// A fresh automaton with `grid_size` interior cells per side. Each interior cell
    /// is alive with probability `density`, drawn independently; every ghost cell and
    /// the whole spare buffer start dead.
    pub fn new(grid_size: usize, density: Fraction) -> (gol: Gol)
        requires
            grid_size > 0,
            (grid_size + 2) * (grid_size + 2) <= usize::MAX,
            density.in_unit_interval(),
        ensures
            gol.wf(),
            gol@.size == grid_size + 2,
            dead(gol@.next),
            dead_border(gol@.current, gol@.size),
            density.num == 0 ==> dead(gol@.current),
            density.num == density.den ==> live_interior(gol@.current, gol@.size),
    {
        assert(grid_size * grid_size <= (grid_size + 2) * (grid_size + 2)) by (nonlinear_arith);
        let mut draws: Vec<bool> = Vec::new();
        for n in 0..grid_size * grid_size
            invariant
                density.in_unit_interval(),
                draws.len() == n,
                density.num == 0 ==> forall|k: int| 0 <= k < n ==> !draws@[k],
                density.num == density.den ==> forall|k: int| 0 <= k < n ==> draws@[k],
        {
            draws.push(random_bool(density.num, density.den));
        }

        let gol = Gol::from_draws(grid_size, &draws);
        proof {
            lemma_grid(grid_size + 2);
            lemma_grid(grid_size as int);
        }
        gol
    }

    /// The automaton with `grid_size` interior cells per side whose interior holds
    /// `draws`, row by row; every ghost cell and the whole spare buffer are dead.
    pub fn from_draws(grid_size: usize, draws: &Vec<bool>) -> (gol: Gol)
        requires
            grid_size > 0,
            (grid_size + 2) * (grid_size + 2) <= usize::MAX,
            draws.len() == grid_size * grid_size,
        ensures
            gol.wf(),
            gol@.size == grid_size + 2,
            gol@.current == seeded(grid_size + 2, draws@),
            dead(gol@.next),
    {
        assert(grid_size + 2 <= (grid_size + 2) * (grid_size + 2)) by (nonlinear_arith);
        let size = grid_size + 2;
        let mut current = vec![false; size * size];
        let next = vec![false; size * size];

        Gol::init_grid(&mut current, size, draws);

        Gol { size, current, next }
    }

    /// Copies `draws` into the interior of a dead grid.
    fn init_grid(current: &mut Vec<bool>, size: usize, draws: &Vec<bool>)
        requires
            3 <= size,
            old(current).len() == size * size,
            dead(old(current)@),
            draws.len() == (size - 2) * (size - 2),
        ensures
            final(current)@ == seeded(size as int, draws@),
    {
        proof {
            lemma_grid(size as int);
        }
        for i in 1..size - 1
            invariant
                3 <= size,
                current.len() == size * size,
                draws.len() == (size - 2) * (size - 2),
                forall|r: int, c: int|
                    in_grid(size as int, r, c) ==> #[trigger] at(current@, size as int, r, c) == (
                    interior(size as int, r, c) && r < i && at(draws@, size - 2, r - 1, c - 1)),
        {
            for j in 1..size - 1
                invariant
                    3 <= size,
                    1 <= i < size - 1,
                    current.len() == size * size,
                    draws.len() == (size - 2) * (size - 2),
                    forall|r: int, c: int|
                        in_grid(size as int, r, c) ==> #[trigger] at(current@, size as int, r, c)
                            == (interior(size as int, r, c) && (r < i || (r == i && c < j)) && at(
                            draws@,
                            size - 2,
                            r - 1,
                            c - 1,
                        )),
            {
                let live = cell_at(draws, size - 2, i - 1, j - 1);
                set_cell_at(current, size, i, j, live);
            }
        }
        proof {
            lemma_grid(size as int);
            assert forall|k: int| 0 <= k < current@.len() implies current@[k] == seeded(
                size as int,
                draws@,
            )[k] by {
                assert(current@[k] == at(
                    current@,
                    size as int,
                    row(size as int, k),
                    col(size as int, k),
                ));
            }
        }
    }

    /// Position of cell `(i, j)` in a row-by-row buffer of side `size`.
    pub fn idx(size: usize, i: usize, j: usize) -> (index: usize)
        requires
            i * size + j <= usize::MAX,
        ensures
            index == flat(size as int, i as int, j as int),
    {
        i * size + j
    }

    /// Row and column of the cell stored at `index`; the inverse of [`Gol::idx`].
    pub fn point(size: usize, index: usize) -> (p: Point)
        requires
            size > 0,
        ensures
            p.x == row(size as int, index as int),
            p.y == col(size as int, index as int),
    {
        Point { x: index / size, y: index % size }
    }

    /// The rule applied to one cell.
    pub fn next_state(is_alive: bool, alive_neighbors: u8) -> (alive: bool)
        ensures
            alive == survives(is_alive, alive_neighbors as int),
    {
        (is_alive && !(alive_neighbors < 2 || alive_neighbors > 3)) || (!is_alive
            && alive_neighbors == 3)
    }

    /// Counts the live cells among the eight cells around the interior cell `(i, j)`
    /// of `current`.
    pub fn count_alive_neighbors(&self, i: usize, j: usize) -> (n: u8)
        requires
            self.wf(),
            interior(self@.size, i as int, j as int),
        ensures
            n == live_neighbors(self@.current, self@.size, i as int, j as int),
    {
        let size = self.size;
        as_count(cell_at(&self.current, size, i - 1, j - 1)) + as_count(
            cell_at(&self.current, size, i - 1, j),
        ) + as_count(cell_at(&self.current, size, i - 1, j + 1)) + as_count(
            cell_at(&self.current, size, i, j - 1),
        ) + as_count(cell_at(&self.current, size, i, j + 1)) + as_count(
            cell_at(&self.current, size, i + 1, j - 1),
        ) + as_count(cell_at(&self.current, size, i + 1, j)) + as_count(
            cell_at(&self.current, size, i + 1, j + 1),
        )
    }

    /// Exchanges the two buffers without copying a cell.
    pub fn swap_grids(&mut self)
        ensures
            final(self)@ == old(self)@.swapped(),
    {
        std::mem::swap(&mut self.current, &mut self.next);
    }

    /// Computes the next generation of every interior cell from `current` into `next`
    /// and then exchanges the buffers.
    pub fn step(&mut self)
        requires
            old(self).wf(),
        ensures
            final(self).wf(),
            final(self)@ == old(self)@.stepped(),
    {
        let size = self.size;
        for i in 1..size - 1
            invariant
                self.wf(),
                self.size == size,
                self.current@ == old(self).current@,
                old(self)@.size == size,
                forall|r: int, c: int|
                    in_grid(size as int, r, c) ==> #[trigger] at(self.next@, size as int, r, c) == (
                    if interior(size as int, r, c) && r < i {
                        old(self)@.next_state(r, c)
                    } else {
                        at(old(self).next@, size as int, r, c)
                    }),
        {
            for j in 1..size - 1
                invariant
                    self.wf(),
                    self.size == size,
                    1 <= i < size - 1,
                    self.current@ == old(self).current@,
                    old(self)@.size == size,
                    forall|r: int, c: int|
                        in_grid(size as int, r, c) ==> #[trigger] at(self.next@, size as int, r, c)
                            == (if interior(size as int, r, c) && (r < i || (r == i && c < j)) {
                            old(self)@.next_state(r, c)
                        } else {
                            at(old(self).next@, size as int, r, c)
                        }),
            {
                let alive_neighbors = self.count_alive_neighbors(i, j);

                proof {
                    lemma_flat_row_col(size as int, i as int, j as int);
                    assert(self.current.len() == size * size);
                }
                let is_alive = self.current[Gol::idx(size, i, j)];

                let next_state = Gol::next_state(is_alive, alive_neighbors);

                set_cell_at(&mut self.next, size, i, j, next_state);
            }
        }
        proof {
            lemma_grid(size as int);
            assert forall|k: int| 0 <= k < self.next@.len() implies self.next@[k] == old(
                self,
            )@.stepped().current[k] by {
                let r = row(size as int, k);
                let c = col(size as int, k);
                assert(self.next@[k] == at(self.next@, size as int, r, c));
            }
            assert(self.next@ =~= old(self)@.stepped().current);
        }
        self.swap_grids();
    }

    /// What the parallel step stores at position `k`: the next generation for an
    /// interior cell, a dead cell on the border.
    pub fn par_cell(&self, k: usize) -> (alive: bool)
        requires
            self.wf(),
            k < self.current.len(),
        ensures
            alive == self@.par_cell(k as int),
    {
        let size = self.size;
        proof {
            lemma_grid(size as int);
        }
        let point = Gol::point(size, k);
        if point.x == 0 || point.x == size - 1 || point.y == 0 || point.y == size - 1 {
            return false;
        }
        let alive_neighbors = self.count_alive_neighbors(point.x, point.y);

        let is_alive = self.current[Gol::idx(size, point.x, point.y)];

        Gol::next_state(is_alive, alive_neighbors)
    }

    /// Computes every cell of the next generation independently, in parallel, from
    /// `current`; the result replaces `next`, with a dead border, and the buffers are
    /// then exchanged.
    pub fn step_par(&mut self)
        requires
            old(self).wf(),
        ensures
            final(self).wf(),
            final(self)@ == old(self)@.stepped_par(),
    {
        let len = self.next.len();
        let layer: &Gol = &*self;
        let fresh = par_tabulate(len, |k: usize| -> (alive: bool)
            requires
                k < len,
            ensures
                alive == layer@.par_cell(k as int),
        {
            layer.par_cell(k)
        });
        assert(fresh@ =~= old(self)@.stepped_par().current);
        self.next = fresh;
        self.swap_grids();
    }

    /// Copies the opposite interior edge into every ghost cell, so that the eight
    /// cells around an interior cell are its neighbours on the torus.
    pub fn fill_ghost_cells(&mut self)
        requires
            old(self).wf(),
        ensures
            final(self).wf(),
            final(self)@ == old(self)@.ghost_filled(),
    {
        let size = self.size;

        // Left and right borders
        for i in 1..size - 1
            invariant
                self.wf(),
                self.size == size,
                old(self).size == size,
                self.next@ == old(self).next@,
                forall|r: int, c: int|
                    in_grid(size as int, r, c) ==> #[trigger] at(self.current@, size as int, r, c)
                        == (if 1 <= r < i {
                        at(old(self).current@, size as int, r, wrapped(size as int, c))
                    } else {
                        at(old(self).current@, size as int, r, c)
                    }),
        {
            let east = cell_at(&self.current, size, i, size - 2);
            set_cell_at(&mut self.current, size, i, 0, east);
            let west = cell_at(&self.current, size, i, 1);
            set_cell_at(&mut self.current, size, i, size - 1, west);
        }

        // Top and bottom borders
        for j in 0..size
            invariant
                self.wf(),
                self.size == size,
                old(self).size == size,
                self.next@ == old(self).next@,
                forall|r: int, c: int|
                    in_grid(size as int, r, c) ==> #[trigger] at(self.current@, size as int, r, c)
                        == (if 1 <= r < size - 1 || c < j {
                        at(
                            old(self).current@,
                            size as int,
                            wrapped(size as int, r),
                            wrapped(size as int, c),
                        )
                    } else {
                        at(old(self).current@, size as int, r, c)
                    }),
        {
            let south = cell_at(&self.current, size, size - 2, j);
            set_cell_at(&mut self.current, size, 0, j, south);
            let north = cell_at(&self.current, size, 1, j);
            set_cell_at(&mut self.current, size, size - 1, j, north);
        }

        // Corners
        let far = cell_at(&self.current, size, size - 2, size - 2);
        set_cell_at(&mut self.current, size, 0, 0, far);
        let far_near = cell_at(&self.current, size, size - 2, 1);
        set_cell_at(&mut self.current, size, 0, size - 1, far_near);
        let near_far = cell_at(&self.current, size, 1, size - 2);
        set_cell_at(&mut self.current, size, size - 1, 0, near_far);
        let near = cell_at(&self.current, size, 1, 1);
        set_cell_at(&mut self.current, size, size - 1, size - 1, near);

        proof {
            lemma_grid(size as int);
            assert forall|k: int| 0 <= k < self.current@.len() implies self.current@[k] == old(
                self,
            )@.ghost_filled().current[k] by {
                let r = row(size as int, k);
                let c = col(size as int, k);
                assert(self.current@[k] == at(self.current@, size as int, r, c));
            }
            assert(self.current@ =~= old(self)@.ghost_filled().current);
        }
    }
}

/// A ghost coordinate mirrors the interior coordinate that lies at the same place on
/// the torus.
pub proof fn lemma_wrapped_is_torus(size: int, k: int)
    requires
        3 <= size,
        0 <= k < size,
    ensures
        wrapped(size, k) == torus(size, k),
        1 <= torus(size, k) <= size - 2,
{
    let n = size - 2;
    if k == 0 {
        vstd::arithmetic::div_mod::lemma_mod_add_multiples_vanish(-1, n);
        vstd::arithmetic::div_mod::lemma_small_mod((n - 1) as nat, n as nat);
    } else if k == size - 1 {
        vstd::arithmetic::div_mod::lemma_mod_self_0(n);
    } else {
        vstd::arithmetic::div_mod::lemma_small_mod((k - 1) as nat, n as nat);
    }
}

/// After the ghost cells are filled, the cell stored at `(i, j)` is the interior cell
/// at the same place on the torus.
pub proof fn lemma_ghost_cell(v: GolView, i: int, j: int)
    requires
        v.wf(),
        in_grid(v.size, i, j),
    ensures
        at(v.ghost_filled().current, v.size, i, j) == at(
            v.current,
            v.size,
            torus(v.size, i),
            torus(v.size, j),
        ),
{
    lemma_flat_row_col(v.size, i, j);
    lemma_wrapped_is_torus(v.size, i);
    lemma_wrapped_is_torus(v.size, j);
}

/// [`Gol::point`] undoes [`Gol::idx`]: the position of row `x`, column `y` splits into
/// row `x` and column `y` again.
pub proof fn point_inverts_idx(size: int, x: int, y: int)
    requires
        size > 0,
        0 <= x,
        0 <= y < size,
    ensures
        row(size, flat(size, x, y)) == x,
        col(size, flat(size, x, y)) == y,
{
    lemma_flat_row_col(size, x, y);
}

/// [`Gol::idx`] undoes [`Gol::point`]: the row and column of a position lead back to
/// that position.
pub proof fn idx_inverts_point(size: int, index: int)
    requires
        size > 0,
        0 <= index,
    ensures
        0 <= col(size, index) < size,
        flat(size, row(size, index), col(size, index)) == index,
{
    lemma_row_col_flat(size, index);
}

/// Wraparound: once the ghost cells are filled, the count of live cells stored around
/// any interior cell is the count of its live neighbours on the torus formed by the
/// interior.
pub proof fn ghost_cells_wrap_around(v: GolView, i: int, j: int)
    requires
        v.wf(),
        interior(v.size, i, j),
    ensures
        live_neighbors(v.ghost_filled().current, v.size, i, j) == torus_neighbors(
            v.current,
            v.size,
            i,
            j,
        ),
{
    lemma_ghost_cell(v, i - 1, j - 1);
    lemma_ghost_cell(v, i - 1, j);
    lemma_ghost_cell(v, i - 1, j + 1);
    lemma_ghost_cell(v, i, j - 1);
    lemma_ghost_cell(v, i, j + 1);
    lemma_ghost_cell(v, i + 1, j - 1);
    lemma_ghost_cell(v, i + 1, j);
    lemma_ghost_cell(v, i + 1, j + 1);
    lemma_wrapped_is_torus(v.size, i);
    lemma_wrapped_is_torus(v.size, j);
}

/// The rule is the classic one: three live neighbours give a live cell whatever it
/// was; a live cell survives with two or three and dies with any other count; a dead
/// cell stays dead unless it has exactly three.
pub proof fn rule_is_classic(is_alive: bool, neighbors: int)
    requires
        0 <= neighbors <= 8,
    ensures
        neighbors == 3 ==> survives(is_alive, neighbors),
        neighbors == 2 ==> survives(is_alive, neighbors) == is_alive,
        neighbors < 2 || neighbors > 3 ==> !survives(is_alive, neighbors),
{
}

/// The sequential and the parallel step compute the same interior and keep the same
/// buffer as `next`. They differ only on the border of the new `current`, where the
/// sequential step keeps what the spare buffer held: with a dead border there, or
/// after the next ghost fill, the two results are equal.
pub proof fn step_variants_agree(v: GolView)
    requires
        v.wf(),
    ensures
        v.stepped().next == v.stepped_par().next,
        agree_inside(v.stepped().current, v.stepped_par().current, v.size),
        dead_border(v.next, v.size) ==> v.stepped() == v.stepped_par(),
        v.stepped().ghost_filled().current == v.stepped_par().ghost_filled().current,
{
    let size = v.size;
    let a = v.stepped();
    let b = v.stepped_par();
    lemma_grid(size);
    assert forall|i: int, j: int| interior(size, i, j) implies #[trigger] at(a.current, size, i, j)
        == at(b.current, size, i, j) by {
        lemma_flat_row_col(size, i, j);
    }
    if dead_border(v.next, size) {
        assert forall|k: int| 0 <= k < a.current.len() implies a.current[k] == b.current[k] by {
            let r = row(size, k);
            let c = col(size, k);
            if !interior(size, r, c) {
                assert(!at(v.next, size, r, c));
            }
        }
        assert(a.current =~= b.current);
    }
    assert forall|k: int| 0 <= k < a.current.len() implies a.ghost_filled().current[k]
        == b.ghost_filled().current[k] by {
        assert(interior(size, wrapped(size, row(size, k)), wrapped(size, col(size, k))));
    }
}

/// Two layers with the same interior have the same cells once their ghost cells are
/// filled, and the same interior again after a step of either kind.
pub proof fn layers_stay_alike(u: GolView, v: GolView)
    requires
        u.wf(),
        v.wf(),
        u.size == v.size,
        agree_inside(u.current, v.current, u.size),
    ensures
        u.ghost_filled().current == v.ghost_filled().current,
        agree_inside(
            u.ghost_filled().stepped().current,
            v.ghost_filled().stepped_par().current,
            u.size,
        ),
{
    let size = u.size;
    let a = u.ghost_filled();
    let b = v.ghost_filled();
    lemma_grid(size);
    assert forall|k: int| 0 <= k < a.current.len() implies a.current[k] == b.current[k] by {
        assert(interior(size, wrapped(size, row(size, k)), wrapped(size, col(size, k))));
    }
    assert forall|i: int, j: int| interior(size, i, j) implies #[trigger] at(
        a.stepped().current,
        size,
        i,
        j,
    ) == at(b.stepped_par().current, size, i, j) by {
        lemma_flat_row_col(size, i, j);
    }
}

} // verus!
