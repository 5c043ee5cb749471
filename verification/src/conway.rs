//! Conway's Game of Life on a toroidal grid.
//!
//! The grid is a rectangular boolean matrix addressed by `CellLocation`
//! pairs. Neighbor lookups wrap around the edges (the grid is a torus),
//! a generational update follows the standard birth/survival rule, and
//! resizing produces a new grid that preserves the overlapping region.

use vstd::arithmetic::div_mod::{
    lemma_fundamental_div_mod, lemma_fundamental_div_mod_converse_div,
    lemma_fundamental_div_mod_converse_mod, lemma_mod_division_less_than_divisor,
    lemma_mod_multiples_vanish,
};
use vstd::prelude::*;

verus! {

/// The coordinate `coord + offset`, wrapped into `[0, dim)` by modular
/// arithmetic; `dim` is added first so that the dividend is non-negative
/// for every offset down to `-dim`.
pub open spec fn wrap(coord: int, offset: int, dim: int) -> int {
    (coord + offset + dim) % dim
}

/// A wrapped coordinate always lands inside `[0, dim)`.
pub proof fn lemma_wrap_range(coord: int, offset: int, dim: int)
    requires
        dim >= 1,
    ensures
        0 <= wrap(coord, offset, dim) < dim,
{
    lemma_mod_division_less_than_divisor(coord + offset + dim, dim);
}

/// Wrapping twice is the same as wrapping once with the combined offset.
pub proof fn lemma_wrap_compose(coord: int, offset1: int, offset2: int, dim: int)
    requires
        dim >= 1,
    ensures
        wrap(wrap(coord, offset1, dim), offset2, dim) == wrap(coord, offset1 + offset2, dim),
{
    let q = (coord + offset1 + dim) / dim;
    lemma_fundamental_div_mod(coord + offset1 + dim, dim);
    assert(wrap(coord, offset1, dim) == coord + offset1 + dim - dim * q);
    lemma_mod_multiples_vanish(1 - q, coord + offset1 + offset2 + dim, dim);
    assert(dim * (1 - q) == dim - dim * q) by (nonlinear_arith);
    assert(dim * (1 - q) + (coord + offset1 + offset2 + dim)
        == wrap(coord, offset1, dim) + offset2 + dim);
}

/// One cell position, given as a column index `x` and a row index `y`.
/// A location is a pure value; it may lie outside any particular grid.
#[derive(Debug, PartialEq, Eq, Structural, Clone, Copy)]
pub struct CellLocation {
    pub x: usize,
    pub y: usize,
}

impl CellLocation {
    pub fn new(x: usize, y: usize) -> (r: CellLocation)
        ensures
            r == (CellLocation { x, y }),
    {
        CellLocation { x, y }
    }
}

/// A Game of Life grid: `height` rows of `width` boolean cells, `true`
/// meaning alive. The dimensions are fixed at construction; `update` and
/// `resize` return fresh grids and leave their receiver untouched.
pub struct Game {
    width: usize,
    height: usize,
    matrix: Vec<Vec<bool>>,
}

impl Game {
    /// The number of columns.
    pub closed spec fn spec_width(&self) -> usize {
        self.width
    }

    /// The number of rows.
    pub closed spec fn spec_height(&self) -> usize {
        self.height
    }

    /// The stored state of the cell in column `x` of row `y`.
    pub closed spec fn cell(&self, x: int, y: int) -> bool {
        self.matrix@[y]@[x]
    }

    /// The rectangular invariant: exactly `height` rows, each of exactly
    /// `width` cells.
    pub closed spec fn wf(&self) -> bool {
        &&& self.matrix@.len() == self.height
        &&& forall|y: int|
            0 <= y < self.matrix@.len() ==> (#[trigger] self.matrix@[y])@.len() == self.width
    }

    /// Whether `location` addresses a cell of this grid.
    pub open spec fn spec_contains(&self, location: CellLocation) -> bool {
        location.x < self.spec_width() && location.y < self.spec_height()
    }

    /// A fully dead grid of the given dimensions. Zero for either
    /// dimension yields a valid, degenerate grid with no cells.
    pub fn new(width: usize, height: usize) -> (r: Game)
        ensures
            r.wf(),
            r.spec_width() == width,
            r.spec_height() == height,
            forall|x: int, y: int| 0 <= x < width && 0 <= y < height ==> !r.cell(x, y),
    {
        let mut matrix: Vec<Vec<bool>> = Vec::new();
        let mut i: usize = 0;
        while i < height
            invariant
                i <= height,
                matrix@.len() == i,
                forall|y: int|
                    0 <= y < i ==> (#[trigger] matrix@[y])@.len() == width,
                forall|x: int, y: int| 0 <= x < width && 0 <= y < i ==> !matrix@[y]@[x],
            decreases height - i,
        {
            matrix.push(Self::dead_row(width));
            i = i + 1;
        }
        Game { width, height, matrix }
    }

    /// A row of `width` dead cells.
    fn dead_row(width: usize) -> (r: Vec<bool>)
        ensures
            r@.len() == width,
            forall|x: int| 0 <= x < width ==> !r@[x],
    {
        let mut row: Vec<bool> = Vec::new();
        let mut i: usize = 0;
        while i < width
            invariant
                i <= width,
                row@.len() == i,
                forall|x: int| 0 <= x < i ==> !row@[x],
            decreases width - i,
        {
            row.push(false);
            i = i + 1;
        }
        row
    }

    pub fn height(&self) -> (r: usize)
        ensures
            r == self.spec_height(),
    {
        self.height
    }

    pub fn width(&self) -> (r: usize)
        ensures
            r == self.spec_width(),
    {
        self.width
    }

    /// The stored state at `cell`, which must lie inside the grid.
    pub fn is_alive(&self, cell: CellLocation) -> (r: bool)
        requires
            self.wf(),
            self.spec_contains(cell),
        ensures
            r == self.cell(cell.x as int, cell.y as int),
    {
        self.matrix[cell.y][cell.x]
    }

    /// Stores `alive` at `cell`, which must lie inside the grid; every
    /// other cell and the dimensions are untouched.
    pub fn set_state(&mut self, cell: CellLocation, alive: bool)
        requires
            old(self).wf(),
            old(self).spec_contains(cell),
        ensures
            final(self).wf(),
            final(self).spec_width() == old(self).spec_width(),
            final(self).spec_height() == old(self).spec_height(),
            final(self).cell(cell.x as int, cell.y as int) == alive,
            forall|x: int, y: int|
                0 <= x < old(self).spec_width() && 0 <= y < old(self).spec_height()
                    && !(x == cell.x && y == cell.y)
                    ==> #[trigger] final(self).cell(x, y) == old(self).cell(x, y),
    {
        self.matrix[cell.y][cell.x] = alive;
    }

    /// Whether `location` addresses a cell of this grid.
    pub fn contains(&self, location: CellLocation) -> (r: bool)
        ensures
            r == self.spec_contains(location),
    {
        location.x < self.width && location.y < self.height
    }

    /// The `i`-th entry (row-major over the 3-by-3 offset block, offsets
    /// `-1, 0, +1` in increasing order on each axis) of the wrapped
    /// neighborhood of the cell at `(cx, cy)`. Index 4 is the center.
    pub open spec fn spec_neighbor(&self, cx: int, cy: int, i: int) -> CellLocation {
        CellLocation {
            x: wrap(cx, i % 3 - 1, self.spec_width() as int) as usize,
            y: wrap(cy, i / 3 - 1, self.spec_height() as int) as usize,
        }
    }

    /// Whether the `i`-th neighborhood entry of `(cx, cy)` is alive.
    pub open spec fn spec_neighbor_alive(&self, cx: int, cy: int, i: int) -> bool {
        self.cell(
            self.spec_neighbor(cx, cy, i).x as int,
            self.spec_neighbor(cx, cy, i).y as int,
        )
    }

    /// How many of the first `i` neighborhood entries of `(cx, cy)` are
    /// alive, the center entry (index 4) excepted.
    pub open spec fn spec_live_prefix(&self, cx: int, cy: int, i: int) -> int
        decreases i,
    {
        if i <= 0 {
            0
        } else {
            self.spec_live_prefix(cx, cy, i - 1) + if i - 1 != 4
                && self.spec_neighbor_alive(cx, cy, i - 1) {
                1int
            } else {
                0int
            }
        }
    }

    /// The live-neighbor count of the cell at `(cx, cy)`: how many of its
    /// eight wrapped neighborhood positions hold a live cell. Positions
    /// are counted per entry of the offset block, so on a grid narrower
    /// than three cells one coordinate can be counted more than once.
    pub open spec fn spec_live_neighbors(&self, cx: int, cy: int) -> int {
        self.spec_live_prefix(cx, cy, 9)
    }

    /// The nine locations of the 3-by-3 block around `center_cell`, with
    /// each coordinate wrapped around the grid edge, in row-major order
    /// of the offsets (y offset outermost, `-1, 0, +1` on each axis).
    /// The fifth entry is `center_cell` itself.
    pub fn adjacent_cells(&self, center_cell: CellLocation) -> (r: Vec<CellLocation>)
        requires
            self.spec_contains(center_cell),
        ensures
            r@.len() == 9,
            forall|i: int|
                0 <= i < 9 ==> #[trigger] r@[i] == self.spec_neighbor(
                    center_cell.x as int,
                    center_cell.y as int,
                    i,
                ),
            forall|i: int| 0 <= i < 9 ==> self.spec_contains(#[trigger] r@[i]),
    {
        let mut cells: Vec<CellLocation> = Vec::new();
        let max_x: usize = self.width - 1;
        let max_y: usize = self.height - 1;

        let x = Game::wrapping_sub(center_cell.x, 1, max_x);
        let y = Game::wrapping_sub(center_cell.y, 1, max_y);

        let ghost cx = center_cell.x as int;
        let ghost cy = center_cell.y as int;
        let ghost w = self.spec_width() as int;
        let ghost h = self.spec_height() as int;

        let mut yi: usize = 0;
        while yi < 3
            invariant
                yi <= 3,
                max_x + 1 == self.spec_width(),
                max_y + 1 == self.spec_height(),
                0 <= cx <= max_x,
                0 <= cy <= max_y,
                w == self.spec_width() as int,
                h == self.spec_height() as int,
                x as int == wrap(cx, -1, w),
                y as int == wrap(cy, -1, h),
                cells@.len() == 3 * yi,
                forall|i: int|
                    0 <= i < 3 * yi ==> #[trigger] cells@[i] == self.spec_neighbor(cx, cy, i),
                forall|i: int| 0 <= i < 3 * yi ==> self.spec_contains(#[trigger] cells@[i]),
            decreases 3 - yi,
        {
            let cell_y = Game::wrapping_add(y, yi, max_y);
            proof {
                lemma_wrap_compose(cy, -1, yi as int, h);
                lemma_wrap_range(cy, yi - 1, h);
            }
            let mut xi: usize = 0;
            while xi < 3
                invariant
                    yi < 3,
                    xi <= 3,
                    max_x + 1 == self.spec_width(),
                    max_y + 1 == self.spec_height(),
                    0 <= cx <= max_x,
                    0 <= cy <= max_y,
                    w == self.spec_width() as int,
                    h == self.spec_height() as int,
                    x as int == wrap(cx, -1, w),
                    cell_y as int == wrap(cy, yi - 1, h),
                    cell_y <= max_y,
                    cells@.len() == 3 * yi + xi,
                    forall|i: int|
                        0 <= i < 3 * yi + xi ==> #[trigger] cells@[i] == self.spec_neighbor(
                            cx,
                            cy,
                            i,
                        ),
                    forall|i: int| 0 <= i < 3 * yi + xi ==> self.spec_contains(#[trigger] cells@[i]),
                decreases 3 - xi,
            {
                let cell_x = Game::wrapping_add(x, xi, max_x);
                proof {
                    lemma_wrap_compose(cx, -1, xi as int, w);
                    lemma_wrap_range(cx, xi - 1, w);
                    let i = 3 * yi + xi;
                    assert(i % 3 == xi && i / 3 == yi) by (nonlinear_arith)
                        requires
                            0 <= xi < 3,
                            0 <= yi < 3,
                            i == 3 * yi + xi,
                    ;
                }
                cells.push(CellLocation::new(cell_x, cell_y));
                xi = xi + 1;
            }
            yi = yi + 1;
        }
        cells
    }

    /// The wrapped difference `(left - right) mod (max + 1)`, the
    /// coordinate `right` steps before `left` on an axis whose largest
    /// index is `max`.
    fn wrapping_sub(left: usize, right: usize, max: usize) -> (r: usize)
        requires
            max < usize::MAX,
            left <= max,
            right <= max + 1,
        ensures
            r <= max,
            r as int == wrap(left as int, -(right as int), max as int + 1),
    {
        proof {
            let c = left as int;
            let o = right as int;
            let d = max as int + 1;
            if right <= left {
                lemma_fundamental_div_mod_converse_mod(c - o + d, d, 1, c - o);
            } else {
                lemma_fundamental_div_mod_converse_mod(c - o + d, d, 0, c - o + d);
            }
        }
        if right <= left {
            left - right
        } else {
            left + (max + 1 - right)
        }
    }

    /// The wrapped sum `(left + right) mod (max + 1)`, the coordinate
    /// `right` steps after `left` on an axis whose largest index is `max`.
    fn wrapping_add(left: usize, right: usize, max: usize) -> (r: usize)
        requires
            max < usize::MAX,
            left <= max,
        ensures
            r <= max,
            r as int == wrap(left as int, right as int, max as int + 1),
    {
        let reduced = right % (max + 1);
        proof {
            let d = max as int + 1;
            let q = right as int / d;
            lemma_fundamental_div_mod(right as int, d);
            lemma_mod_division_less_than_divisor(right as int, d);
            if reduced <= max - left {
                assert((q + 1) * d == d * q + d) by (nonlinear_arith);
                lemma_fundamental_div_mod_converse_mod(
                    left as int + right as int + d,
                    d,
                    q + 1,
                    left as int + reduced as int,
                );
            } else {
                assert((q + 2) * d == d * q + 2 * d) by (nonlinear_arith);
                lemma_fundamental_div_mod_converse_mod(
                    left as int + right as int + d,
                    d,
                    q + 2,
                    left as int + reduced as int - d,
                );
            }
        }
        if reduced <= max - left {
            left + reduced
        } else {
            left - (max - reduced + 1)
        }
    }

    /// The live-neighbor count of `cell`, its own state not counted.
    pub fn count_adjacent_live(&self, cell: CellLocation) -> (r: usize)
        requires
            self.wf(),
            self.spec_contains(cell),
        ensures
            r == self.spec_live_neighbors(cell.x as int, cell.y as int),
            r <= 8,
    {
        let adjacent = self.adjacent_cells(cell);
        let ghost cx = cell.x as int;
        let ghost cy = cell.y as int;
        let mut count: usize = 0;
        let mut i: usize = 0;
        while i < 9
            invariant
                i <= 9,
                self.wf(),
                adjacent@.len() == 9,
                forall|j: int|
                    0 <= j < 9 ==> #[trigger] adjacent@[j] == self.spec_neighbor(cx, cy, j),
                forall|j: int| 0 <= j < 9 ==> self.spec_contains(#[trigger] adjacent@[j]),
                count == self.spec_live_prefix(cx, cy, i as int),
                count <= if i <= 4 { i as int } else { i - 1 },
            decreases 9 - i,
        {
            if i != 4 {
                let location = adjacent[i];
                if self.is_alive(location) {
                    count = count + 1;
                }
            }
            i = i + 1;
        }
        count
    }

    /// The next generation: a fresh grid of the same dimensions in which
    /// every cell's state follows the birth/survival rule applied to this
    /// grid. This grid itself is only read, never changed.
    pub fn update(&self) -> (r: Game)
        requires
            self.wf(),
        ensures
            r.wf(),
            is_update_of(r, *self),
    {
        let mut new_game = Game::new(self.width, self.height);
        let mut y: usize = 0;
        while y < self.height
            invariant
                y <= self.spec_height(),
                self.wf(),
                new_game.wf(),
                new_game.spec_width() == self.spec_width(),
                new_game.spec_height() == self.spec_height(),
                forall|xx: int, yy: int|
                    0 <= xx < self.spec_width() && 0 <= yy < y ==> #[trigger] new_game.cell(xx, yy)
                        == spec_next_state(self.cell(xx, yy), self.spec_live_neighbors(xx, yy)),
            decreases self.spec_height() - y,
        {
            let mut x: usize = 0;
            while x < self.width
                invariant
                    x <= self.spec_width(),
                    y < self.spec_height(),
                    self.wf(),
                    new_game.wf(),
                    new_game.spec_width() == self.spec_width(),
                    new_game.spec_height() == self.spec_height(),
                    forall|xx: int, yy: int|
                        0 <= xx < self.spec_width() && 0 <= yy < self.spec_height() && (yy < y || (
                        yy == y && xx < x)) ==> #[trigger] new_game.cell(xx, yy) == spec_next_state(
                            self.cell(xx, yy),
                            self.spec_live_neighbors(xx, yy),
                        ),
                decreases self.spec_width() - x,
            {
                let location = CellLocation::new(x, y);
                let state = self.is_alive(location);
                let adjacent_live_cells = self.count_adjacent_live(location);
                let new_state = Game::get_new_state(state, adjacent_live_cells);
                new_game.set_state(location, new_state);
                x = x + 1;
            }
            y = y + 1;
        }
        new_game
    }

    /// A fresh grid of the given dimensions holding this grid's state on
    /// the overlapping region and dead cells everywhere else. This grid
    /// itself is only read, never changed.
    pub fn resize(&self, new_w: usize, new_h: usize) -> (r: Game)
        requires
            self.wf(),
        ensures
            r.wf(),
            r.spec_width() == new_w,
            r.spec_height() == new_h,
            forall|x: int, y: int|
                0 <= x < new_w && 0 <= y < new_h ==> #[trigger] r.cell(x, y) == (x
                    < self.spec_width() && y < self.spec_height() && self.cell(x, y)),
    {
        let mut new_game = Game::new(new_w, new_h);
        let mut y: usize = 0;
        while y < new_h
            invariant
                y <= new_h,
                self.wf(),
                new_game.wf(),
                new_game.spec_width() == new_w,
                new_game.spec_height() == new_h,
                forall|xx: int, yy: int|
                    0 <= xx < new_w && 0 <= yy < y ==> #[trigger] new_game.cell(xx, yy) == (xx
                        < self.spec_width() && yy < self.spec_height() && self.cell(xx, yy)),
                forall|xx: int, yy: int|
                    0 <= xx < new_w && y <= yy < new_h ==> !#[trigger] new_game.cell(xx, yy),
            decreases new_h - y,
        {
            let mut x: usize = 0;
            while x < new_w
                invariant
                    x <= new_w,
                    y < new_h,
                    self.wf(),
                    new_game.wf(),
                    new_game.spec_width() == new_w,
                    new_game.spec_height() == new_h,
                    forall|xx: int, yy: int|
                        0 <= xx < new_w && (0 <= yy < y || (yy == y && 0 <= xx < x))
                            ==> #[trigger] new_game.cell(xx, yy) == (xx < self.spec_width() && yy
                            < self.spec_height() && self.cell(xx, yy)),
                    forall|xx: int, yy: int|
                        0 <= xx < new_w && y <= yy < new_h && !(yy == y && xx < x)
                            ==> !#[trigger] new_game.cell(xx, yy),
                decreases new_w - x,
            {
                let loc = CellLocation::new(x, y);
                if self.contains(loc) {
                    new_game.set_state(loc, self.is_alive(loc));
                }
                x = x + 1;
            }
            y = y + 1;
        }
        new_game
    }

    /// Every location of the grid exactly once, in row-major order: the
    /// entry at index `y * width + x` is the location `(x, y)`. A fresh
    /// vector is produced on every call; it is empty for a degenerate
    /// grid.
    pub fn locations(&self) -> (r: Vec<CellLocation>)
        ensures
            r@.len() == self.spec_width() * self.spec_height(),
            forall|i: int|
                0 <= i < r@.len() ==> #[trigger] r@[i] == (CellLocation {
                    x: (i % (self.spec_width() as int)) as usize,
                    y: (i / (self.spec_width() as int)) as usize,
                }),
            forall|i: int| 0 <= i < r@.len() ==> self.spec_contains(#[trigger] r@[i]),
    {
        let ghost w = self.spec_width() as int;
        let mut locations: Vec<CellLocation> = Vec::new();
        let mut y: usize = 0;
        while y < self.height
            invariant
                y <= self.spec_height(),
                w == self.spec_width() as int,
                locations@.len() == y * w,
                forall|i: int|
                    0 <= i < locations@.len() ==> #[trigger] locations@[i] == (CellLocation {
                        x: (i % w) as usize,
                        y: (i / w) as usize,
                    }),
                forall|i: int|
                    0 <= i < locations@.len() ==> self.spec_contains(#[trigger] locations@[i]),
            decreases self.spec_height() - y,
        {
            let mut x: usize = 0;
            while x < self.width
                invariant
                    x <= self.spec_width(),
                    y < self.spec_height(),
                    w == self.spec_width() as int,
                    locations@.len() == y * w + x,
                    forall|i: int|
                        0 <= i < locations@.len() ==> #[trigger] locations@[i] == (CellLocation {
                            x: (i % w) as usize,
                            y: (i / w) as usize,
                        }),
                    forall|i: int|
                        0 <= i < locations@.len() ==> self.spec_contains(#[trigger] locations@[i]),
                decreases self.spec_width() - x,
            {
                proof {
                    let i = y * w + x;
                    lemma_fundamental_div_mod_converse_mod(i, w, y as int, x as int);
                    lemma_fundamental_div_mod_converse_div(i, w, y as int, x as int);
                    assert(w * (y as int) == (y as int) * w) by (nonlinear_arith);
                }
                locations.push(CellLocation::new(x, y));
                x = x + 1;
            }
            proof {
                assert((y + 1) * w == y * w + w) by (nonlinear_arith);
            }
            y = y + 1;
        }
        proof {
            let h = self.spec_height() as int;
            assert(h * w == w * h) by (nonlinear_arith);
        }
        locations
    }

    /// The birth/survival rule for one cell: alive in the next generation
    /// iff it has exactly three live neighbors, or it is alive now and
    /// has exactly two.
    fn get_new_state(is_alive: bool, live_cell_count: usize) -> (r: bool)
        ensures
            r == spec_next_state(is_alive, live_cell_count as int),
    {
        live_cell_count == 3 || (is_alive && live_cell_count == 2)
    }
}

/// The birth/survival rule: a cell that is `alive` with `live_neighbors`
/// live neighbors is alive in the next generation iff `live_neighbors`
/// is three, or the cell is alive and `live_neighbors` is two.
pub open spec fn spec_next_state(alive: bool, live_neighbors: int) -> bool {
    live_neighbors == 3 || (alive && live_neighbors == 2)
}

/// `next` is the generation after `prev`: the dimensions agree and every
/// cell of `next` follows the birth/survival rule applied to `prev`.
pub open spec fn is_update_of(next: Game, prev: Game) -> bool {
    &&& next.spec_width() == prev.spec_width()
    &&& next.spec_height() == prev.spec_height()
    &&& forall|x: int, y: int|
        0 <= x < prev.spec_width() && 0 <= y < prev.spec_height() ==> #[trigger] next.cell(x, y)
            == spec_next_state(prev.cell(x, y), prev.spec_live_neighbors(x, y))
}

/// Law: every location the wrapped neighborhood produces lies inside the
/// grid, for any grid with at least one cell.
pub proof fn lemma_neighbors_in_bounds(g: Game, center: CellLocation, i: int)
    requires
        g.spec_width() >= 1,
        g.spec_height() >= 1,
        g.spec_contains(center),
        0 <= i < 9,
    ensures
        g.spec_contains(g.spec_neighbor(center.x as int, center.y as int, i)),
{
    lemma_wrap_range(center.x as int, i % 3 - 1, g.spec_width() as int);
    lemma_wrap_range(center.y as int, i / 3 - 1, g.spec_height() as int);
}

/// Law: under one generational update, a live cell with exactly two or
/// three live neighbors survives, every other live cell dies, and a dead
/// cell comes alive exactly when it has three live neighbors.
pub proof fn lemma_update_rule(prev: Game, next: Game, x: int, y: int)
    requires
        is_update_of(next, prev),
        0 <= x < prev.spec_width(),
        0 <= y < prev.spec_height(),
    ensures
        prev.cell(x, y) && (prev.spec_live_neighbors(x, y) == 2 || prev.spec_live_neighbors(x, y)
            == 3) ==> next.cell(x, y),
        prev.cell(x, y) && !(prev.spec_live_neighbors(x, y) == 2 || prev.spec_live_neighbors(x, y)
            == 3) ==> !next.cell(x, y),
        !prev.cell(x, y) ==> (next.cell(x, y) <==> prev.spec_live_neighbors(x, y) == 3),
{
    assert(next.cell(x, y) == spec_next_state(prev.cell(x, y), prev.spec_live_neighbors(x, y)));
}

} // verus!
