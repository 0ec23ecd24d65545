pub mod bitstore;
pub mod shape;

use vstd::prelude::*;

verus! {

use crate::bitstore::{BitStore, bit_of, byte_count};
use crate::shape::{Transformation, transform, transformed, GLIDER};
use vstd::arithmetic::div_mod::{
    lemma_small_mod,
    lemma_fundamental_div_mod_converse,
    lemma_add_mod_noop_right,
    lemma_mod_add_multiples_vanish,
    lemma_mod_bound,
    lemma_div_pos_is_pos,
    lemma_multiply_divide_lt,
};

/// The state of a universe as mathematics sees it: cell `(x, y)` is `cells[y * width + x]`.
pub struct Grid {
    pub width: int,
    pub height: int,
    pub cells: Seq<bool>,
}

/// Positive dimensions and one cell for each position.
pub open spec fn grid_wf(g: Grid) -> bool {
    &&& g.width > 0
    &&& g.height > 0
    &&& g.cells.len() == g.width * g.height
}

/// The linear index of `(x, y)`, wrapping both coordinates around the torus.
pub open spec fn index_of(g: Grid, x: int, y: int) -> int {
    (y % g.height) * g.width + x % g.width
}

/// Whether the cell at `(x, y)`, wrapped, is alive.
pub open spec fn alive(g: Grid, x: int, y: int) -> bool {
    g.cells[index_of(g, x, y)]
}

/// What the neighbor at offset `(a, b)` adds to the count; the offset `(0, 0)` is the cell itself.
pub open spec fn neighbor_term(g: Grid, x: int, y: int, a: int, b: int) -> int {
    if a == 0 && b == 0 {
        0
    } else if alive(g, x + a, y + b) {
        1
    } else {
        0
    }
}

/// The neighbors in the row at vertical offset `b`, for horizontal offsets `width - 1`, `0`, `1`.
pub open spec fn row_neighbors(g: Grid, x: int, y: int, b: int) -> int {
    neighbor_term(g, x, y, g.width - 1, b) + neighbor_term(g, x, y, 0, b) + neighbor_term(g, x, y, 1, b)
}

/// The live cells among the Moore neighborhood of `(x, y)`, offsets taken as
/// `width - 1`, `0`, `1` and `height - 1`, `0`, `1`.
pub open spec fn neighbor_count(g: Grid, x: int, y: int) -> int {
    row_neighbors(g, x, y, g.height - 1) + row_neighbors(g, x, y, 0) + row_neighbors(g, x, y, 1)
}

/// Conway's rule: a live cell survives with two or three neighbors, a dead one is born with three.
pub open spec fn next_state(live: bool, n: int) -> bool {
    if live {
        n == 2 || n == 3
    } else {
        n == 3
    }
}

/// The next generation of `g`.
pub open spec fn step(g: Grid) -> Grid {
    Grid {
        width: g.width,
        height: g.height,
        cells: Seq::new(
            g.cells.len(),
            |k: int| next_state(g.cells[k], neighbor_count(g, k % g.width, k / g.width)),
        ),
    }
}

/// `g` with the cells at `pts`, shifted by `(dx, dy)` and wrapped, made alive.
pub open spec fn placed(g: Grid, pts: Seq<(int, int)>, dx: int, dy: int) -> Grid {
    Grid {
        width: g.width,
        height: g.height,
        cells: Seq::new(
            g.cells.len(),
            |k: int|
                g.cells[k] || exists|i: int|
                    0 <= i < pts.len() && #[trigger] index_of(g, pts[i].0 + dx, pts[i].1 + dy) == k,
        ),
    }
}

/// The coordinates of a list of points as integers.
pub open spec fn points(pts: Seq<(u32, u32)>) -> Seq<(int, int)> {
    pts.map_values(|p: (u32, u32)| (p.0 as int, p.1 as int))
}

/// The glider's cells mapped through `t` within its three by three box.
pub open spec fn glider_cells(t: Transformation) -> Seq<(int, int)> {
    points(GLIDER@).map_values(|p: (int, int)| transformed(p, 3, 3, t))
}

/// The character that shows a cell: `X` for a live one, `-` for a dead one.
pub open spec fn cell_char(live: bool) -> char {
    if live {
        'X'
    } else {
        '-'
    }
}

/// Row `y` as text: one character per cell, then a line break.
pub open spec fn row_text(g: Grid, y: int) -> Seq<char> {
    Seq::new(g.width as nat, |x: int| cell_char(alive(g, x, y))).push('\n')
}

/// The first `n` rows as text.
pub open spec fn rows_text(g: Grid, n: nat) -> Seq<char>
    decreases n,
{
    if n == 0 {
        Seq::empty()
    } else {
        rows_text(g, (n - 1) as nat) + row_text(g, n - 1)
    }
}

proof fn lemma_index_bound(x: int, y: int, w: int, h: int)
    requires
        w > 0,
        h > 0,
    ensures
        0 <= (y % h) * w + x % w < w * h,
{
    let (a, b) = (x % w, y % h);
    assert(0 <= a < w && 0 <= b < h);
    assert(0 <= b * w + a < w * h) by (nonlinear_arith)
        requires
            0 <= a < w,
            0 <= b < h,
    ;
}

/// A toroidal grid of cells that steps under Conway's rule.
#[derive(Debug, PartialEq, Eq)]
pub struct Universe {
    width: u32,
    height: u32,
    cells: BitStore,
}

impl View for Universe {
    type V = Grid;

    closed spec fn view(&self) -> Grid {
        Grid {
            width: self.width as int,
            height: self.height as int,
            cells: self.cells@.subrange(0, self.width * self.height),
        }
    }
}

impl Universe {
    /// Positive dimensions whose product fits in `u32`, and a store with a bit for every cell.
    pub closed spec fn wf(&self) -> bool {
        &&& self.width > 0
        &&& self.height > 0
        &&& self.width * self.height <= u32::MAX
        &&& self.cells.bytes().len() == byte_count((self.width * self.height) as nat)
    }

    /// The store that holds the cells.
    pub closed spec fn store(&self) -> BitStore {
        self.cells
    }

    /// What well-formedness tells of the model.
    pub proof fn lemma_wf_view(&self)
        requires
            self.wf(),
        ensures
            grid_wf(self@),
            self@.width * self@.height <= u32::MAX,
            self.store().bytes().len() == byte_count((self@.width * self@.height) as nat),
            self@.cells == self.store()@.subrange(0, self@.width * self@.height),
    {
        assert(self.width * self.height <= 8 * byte_count((self.width * self.height) as nat));
    }

    /// The index of the cell at `(x, y)`, wrapping both coordinates.
    pub fn idx(&self, x: u32, y: u32) -> (r: usize)
        requires
            self.wf(),
        ensures
            r as int == index_of(self@, x as int, y as int),
            (r as int) < self@.width * self@.height,
    {
        proof {
            lemma_index_bound(x as int, y as int, self.width as int, self.height as int);
        }
        (y % self.height * self.width + x % self.width) as usize
    }

    /// Whether the cell at `(x, y)`, wrapped, is alive.
    pub fn is_alive(&self, x: u32, y: u32) -> (r: bool)
        requires
            self.wf(),
        ensures
            r == alive(self@, x as int, y as int),
    {
        let i = self.idx(x, y);
        proof {
            self.lemma_wf_view();
        }
        self.cells.get(i)
    }

    fn neighbor_term(&self, x: u32, y: u32, a: u32, b: u32) -> (r: u32)
        requires
            self.wf(),
        ensures
            r as int == neighbor_term(self@, x as int, y as int, a as int, b as int),
    {
        if a == 0 && b == 0 {
            return 0;
        }
        let i = self.shifted_idx(x, y, a, b);
        proof {
            self.lemma_wf_view();
        }
        if self.cells.get(i) {
            1
        } else {
            0
        }
    }

    fn row_neighbors(&self, x: u32, y: u32, b: u32) -> (r: u32)
        requires
            self.wf(),
        ensures
            r as int == row_neighbors(self@, x as int, y as int, b as int),
            r <= 3,
    {
        self.neighbor_term(x, y, self.width - 1, b) + self.neighbor_term(x, y, 0, b)
            + self.neighbor_term(x, y, 1, b)
    }

    /// The number of live cells around `(x, y)`.
    pub fn live_neighbor_count(&self, x: u32, y: u32) -> (r: u32)
        requires
            self.wf(),
        ensures
            r as int == neighbor_count(self@, x as int, y as int),
            r <= 8,
    {
        self.row_neighbors(x, y, self.height - 1) + self.row_neighbors(x, y, 0)
            + self.row_neighbors(x, y, 1)
    }

    /// Advances the universe by one generation under Conway's rule.
    pub fn tick(&mut self)
        requires
            old(self).wf(),
        ensures
            final(self).wf(),
            final(self)@ == step(old(self)@),
    {
        let mut next = self.cells.duplicate();
        let w = self.width;
        let h = self.height;
        let ghost n = (w * h) as int;
        proof {
            self.lemma_wf_view();
        }
        let mut y: u32 = 0;
        while y < h
            invariant
                self.wf(),
                self.width == w,
                self.height == h,
                n == w * h,
                y <= h,
                y * w <= n,
                next@.len() == self.cells@.len(),
                next.bytes().len() == self.cells.bytes().len(),
                n <= self.cells@.len(),
                forall|k: int|
                    0 <= k < y * w ==> #[trigger] next@[k] == next_state(
                        self.cells@[k],
                        neighbor_count(self@, k % (w as int), k / (w as int)),
                    ),
                forall|k: int| y * w <= k < next@.len() ==> #[trigger] next@[k] == self.cells@[k],
            decreases h - y,
        {
            assert(y * w + w <= n) by (nonlinear_arith)
                requires
                    y < h,
                    n == w * h,
            ;
            let mut x: u32 = 0;
            while x < w
                invariant
                    self.wf(),
                    self.width == w,
                    self.height == h,
                    n == w * h,
                    y < h,
                    x <= w,
                    y * w + w <= n,
                    next@.len() == self.cells@.len(),
                    next.bytes().len() == self.cells.bytes().len(),
                    n <= self.cells@.len(),
                    forall|k: int|
                        0 <= k < y * w + x ==> #[trigger] next@[k] == next_state(
                            self.cells@[k],
                            neighbor_count(self@, k % (w as int), k / (w as int)),
                        ),
                    forall|k: int| y * w + x <= k < next@.len() ==> #[trigger] next@[k] == self.cells@[k],
                decreases w - x,
            {
                let idx = self.idx(x, y);
                proof {
                    lemma_small_mod(x as nat, w as nat);
                    lemma_small_mod(y as nat, h as nat);
                    lemma_fundamental_div_mod_converse(idx as int, w as int, y as int, x as int);
                }
                let count = self.live_neighbor_count(x, y);
                let live = self.cells.get(idx);
                if live && count < 2 {
                    next.set(idx, false);
                } else if live && count > 3 {
                    next.set(idx, false);
                } else if !live && count == 3 {
                    next.set(idx, true);
                }
                assert(next@[idx as int] == next_state(self.cells@[idx as int], neighbor_count(self@, x as int, y as int)));
                x = x + 1;
            }
            assert((y + 1) * w == y * w + w) by (nonlinear_arith);
            y = y + 1;
        }
        proof {
            assert(self@.cells.len() == n);
            assert(y * w == n) by (nonlinear_arith)
                requires
                    y == h,
                    n == w * h,
            ;
        }
        let ghost before = self@;
        self.cells = next;
        proof {
            assert(self@.cells =~= step(before).cells);
        }
    }

    /// The grid as text, one line per row from the top.
    pub fn render(&self) -> (s: String)
        requires
            self.wf(),
        ensures
            s@ == rows_text(self@, self@.height as nat),
    {
        let mut s = String::new();
        let mut y: u32 = 0;
        while y < self.height
            invariant
                self.wf(),
                y <= self.height,
                s@ == rows_text(self@, y as nat),
            decreases self.height - y,
        {
            let mut x: u32 = 0;
            while x < self.width
                invariant
                    self.wf(),
                    y < self.height,
                    x <= self.width,
                    s@ == rows_text(self@, y as nat) + Seq::new(
                        x as nat,
                        |i: int| cell_char(alive(self@, i, y as int)),
                    ),
                decreases self.width - x,
            {
                if self.is_alive(x, y) {
                    s.append("X");
                } else {
                    s.append("-");
                }
                proof {
                    reveal_strlit("X");
                    reveal_strlit("-");
                    assert(s@ =~= rows_text(self@, y as nat) + Seq::new(
                        (x + 1) as nat,
                        |i: int| cell_char(alive(self@, i, y as int)),
                    ));
                }
                x = x + 1;
            }
            s.append("\n");
            proof {
                reveal_strlit("\n");
                assert(s@ =~= rows_text(self@, (y + 1) as nat));
            }
            y = y + 1;
        }
        s
    }

    /// A universe of `width` by `height` dead cells.
    pub fn empty(width: u32, height: u32) -> (r: Self)
        requires
            width > 0,
            height > 0,
            width * height <= u32::MAX,
        ensures
            r.wf(),
            r@.width == width,
            r@.height == height,
            r@.cells == Seq::new((width * height) as nat, |k: int| false),
    {
        let cells = BitStore::empty((width * height) as usize);
        let r = Universe { width, height, cells };
        proof {
            r.lemma_wf_view();
            assert(r@.cells =~= Seq::new((width * height) as nat, |k: int| false));
        }
        r
    }

    /// A universe of `width` by `height` cells whose states are the bits of the given
    /// random bytes, least significant bit first.
    pub fn random(width: u32, height: u32, bytes: Vec<u8>) -> (r: Self)
        requires
            width > 0,
            height > 0,
            width * height <= u32::MAX,
            bytes@.len() == byte_count((width * height) as nat),
        ensures
            r.wf(),
            r@.width == width,
            r@.height == height,
            r.store().bytes() == bytes@,
            r@.cells == Seq::new(
                (width * height) as nat,
                |k: int| bit_of(bytes@[k / 8], (k % 8) as u8),
            ),
    {
        let cells = BitStore::random((width * height) as usize, bytes);
        let r = Universe { width, height, cells };
        proof {
            r.lemma_wf_view();
            assert(r@.cells =~= Seq::new(
                (width * height) as nat,
                |k: int| bit_of(bytes@[k / 8], (k % 8) as u8),
            ));
        }
        r
    }

    /// The store that holds the cells; its first `width * height` bits are the grid.
    pub fn cells(&self) -> (r: &BitStore)
        requires
            self.wf(),
        ensures
            *r == self.store(),
    {
        &self.cells
    }

    /// The width of the universe in cells.
    pub fn width(&self) -> (r: u32)
        ensures
            r == self@.width,
    {
        self.width
    }

    /// The height of the universe in cells.
    pub fn height(&self) -> (r: u32)
        ensures
            r == self@.height,
    {
        self.height
    }

    /// The number of bytes that hold the cells.
    pub fn cells_size(&self) -> (r: usize)
        requires
            self.wf(),
        ensures
            r == byte_count((self@.width * self@.height) as nat),
    {
        self.cells.size()
    }

    /// The index of the cell at `(x + dx, y + dy)`, computed without overflow and wrapped.
    fn shifted_idx(&self, x: u32, y: u32, dx: u32, dy: u32) -> (r: usize)
        requires
            self.wf(),
        ensures
            r as int == index_of(self@, x + dx, y + dy),
            (r as int) < self@.width * self@.height,
    {
        let nx = ((x as u64 + dx as u64) % (self.width as u64)) as u32;
        let ny = ((y as u64 + dy as u64) % (self.height as u64)) as u32;
        proof {
            lemma_small_mod(nx as nat, self.width as nat);
            lemma_small_mod(ny as nat, self.height as nat);
        }
        self.idx(nx, ny)
    }

    /// Makes alive every cell at a listed coordinate shifted by `(x_offset, y_offset)`,
    /// wrapping around the edges; no cell is cleared.
    pub fn place(&mut self, cells: &[(u32, u32)], x_offset: u32, y_offset: u32)
        requires
            old(self).wf(),
        ensures
            final(self).wf(),
            final(self)@ == placed(old(self)@, points(cells@), x_offset as int, y_offset as int),
    {
        let ghost g = self@;
        let ghost pts = points(cells@);
        let ghost dx = x_offset as int;
        let ghost dy = y_offset as int;
        proof {
            self.lemma_wf_view();
        }
        let mut i: usize = 0;
        while i < cells.len()
            invariant
                self.wf(),
                grid_wf(g),
                pts == points(cells@),
                dx == x_offset,
                dy == y_offset,
                self@.width == g.width,
                self@.height == g.height,
                self@.cells.len() == g.cells.len(),
                i <= cells@.len(),
                forall|k: int|
                    0 <= k < g.cells.len() ==> #[trigger] self@.cells[k] == (g.cells[k] || exists|j: int|
                        0 <= j < i && #[trigger] index_of(g, pts[j].0 + dx, pts[j].1 + dy) == k),
            decreases cells.len() - i,
        {
            let (cx, cy) = cells[i];
            let t = self.shifted_idx(cx, cy, x_offset, y_offset);
            proof {
                self.lemma_wf_view();
            }
            let ghost before = self@;
            self.cells.set(t, true);
            proof {
                self.lemma_wf_view();
                assert(pts[i as int] == (cx as int, cy as int));
                assert forall|k: int| 0 <= k < g.cells.len() implies #[trigger] self@.cells[k] == (
                g.cells[k] || exists|j: int|
                    0 <= j < i + 1 && #[trigger] index_of(g, pts[j].0 + dx, pts[j].1 + dy) == k) by {
                    if k == t as int {
                        assert(index_of(g, pts[i as int].0 + dx, pts[i as int].1 + dy) == k);
                    } else {
                        assert(self@.cells[k] == before.cells[k]);
                    }
                }
            }
            i = i + 1;
        }
        proof {
            assert(self@.cells =~= placed(g, pts, dx, dy).cells);
        }
    }

    /// Makes alive every cell at a listed coordinate, wrapping around the edges.
    pub fn set_cells(&mut self, cells: &[(u32, u32)])
        requires
            old(self).wf(),
        ensures
            final(self).wf(),
            final(self)@ == placed(old(self)@, points(cells@), 0, 0),
    {
        self.place(cells, 0, 0)
    }

    /// Flips the cell at `(x, y)`, wrapped, between alive and dead.
    pub fn toggle(&mut self, x: u32, y: u32)
        requires
            old(self).wf(),
        ensures
            final(self).wf(),
            final(self)@ == (Grid {
                cells: old(self)@.cells.update(
                    index_of(old(self)@, x as int, y as int),
                    !alive(old(self)@, x as int, y as int),
                ),
                ..old(self)@
            }),
    {
        let ghost g = self@;
        let i = self.idx(x, y);
        proof {
            self.lemma_wf_view();
        }
        let v = self.cells.get(i);
        self.cells.set(i, !v);
        proof {
            self.lemma_wf_view();
            assert(self@.cells =~= g.cells.update(i as int, !v));
        }
    }

    /// Places a glider turned by `t`, centered on `(x, y)`: its three by three box starts
    /// one cell up and to the left, wrapping around the edges.
    pub fn spawn_shape_at(&mut self, x: u32, y: u32, t: Transformation)
        requires
            old(self).wf(),
        ensures
            final(self).wf(),
            final(self)@ == placed(old(self)@, glider_cells(t), x - 1, y - 1),
    {
        let ghost g = self@;
        let mut pts: Vec<(u32, u32)> = Vec::new();
        let mut i: usize = 0;
        while i < 5
            invariant
                i <= 5,
                pts@.len() == i,
                forall|j: int| 0 <= j < i ==> #[trigger] points(pts@)[j] == glider_cells(t)[j],
            decreases 5 - i,
        {
            let q = GLIDER[i];
            assert(q == GLIDER@[i as int]);
            let p = transform(q, 3, 3, t);
            let ghost before = pts@;
            pts.push(p);
            assert forall|j: int| 0 <= j < i + 1 implies #[trigger] points(pts@)[j] == glider_cells(t)[j] by {
                if j < i {
                    assert(points(pts@)[j] == points(before)[j]);
                }
            }
            i = i + 1;
        }
        assert(points(pts@) =~= glider_cells(t));
        let w = self.width;
        let h = self.height;
        let dx = ((x as u64 + w as u64 - 1) % (w as u64)) as u32;
        let dy = ((y as u64 + h as u64 - 1) % (h as u64)) as u32;
        let slice = pts.as_slice();
        assert(slice@ == pts@);
        self.place(slice, dx, dy);
        proof {
            let cs = glider_cells(t);
            assert(self@ == placed(g, cs, dx as int, dy as int));
            assert forall|j: int| 0 <= j < cs.len() implies index_of(g, cs[j].0 + dx, cs[j].1 + dy)
                == index_of(g, cs[j].0 + (x - 1), cs[j].1 + (y - 1)) by {
                lemma_add_mod_noop_right(cs[j].0, x + w - 1, w as int);
                lemma_mod_add_multiples_vanish(cs[j].0 + x - 1, w as int);
                lemma_add_mod_noop_right(cs[j].1, y + h - 1, h as int);
                lemma_mod_add_multiples_vanish(cs[j].1 + y - 1, h as int);
            }
            assert forall|k: int| 0 <= k < g.cells.len() implies #[trigger] self@.cells[k]
                == placed(g, cs, x - 1, y - 1).cells[k] by {
                if exists|j: int|
                    0 <= j < cs.len() && #[trigger] index_of(g, cs[j].0 + dx, cs[j].1 + dy) == k {
                    let j = choose|j: int|
                        0 <= j < cs.len() && #[trigger] index_of(g, cs[j].0 + dx, cs[j].1 + dy) == k;
                    assert(index_of(g, cs[j].0 + (x - 1), cs[j].1 + (y - 1)) == k);
                }
                if exists|j: int|
                    0 <= j < cs.len() && #[trigger] index_of(g, cs[j].0 + (x - 1), cs[j].1 + (y - 1)) == k {
                    let j = choose|j: int|
                        0 <= j < cs.len() && #[trigger] index_of(g, cs[j].0 + (x - 1), cs[j].1 + (y - 1))
                            == k;
                    assert(index_of(g, cs[j].0 + dx, cs[j].1 + dy) == k);
                }
            }
            assert(self@.cells =~= placed(g, cs, x - 1, y - 1).cells);
        }
    }
}

/// Every cell has between zero and eight live neighbors.
pub proof fn lemma_neighbor_count_bounds(g: Grid, x: int, y: int)
    ensures
        0 <= neighbor_count(g, x, y) <= 8,
{
}

/// The next generation depends on the current cells alone: two universes that hold the
/// same grid step to the same grid.
pub proof fn lemma_tick_deterministic(a: Universe, b: Universe)
    requires
        a@ == b@,
    ensures
        step(a@) == step(b@),
        grid_wf(a@) ==> grid_wf(step(a@)),
{
}

/// Every cell but the one at `(x, y)` is dead.
pub open spec fn at_most_one_live(g: Grid, x: int, y: int) -> bool {
    forall|k: int| 0 <= k < g.cells.len() && k != y * g.width + x ==> !#[trigger] g.cells[k]
}

proof fn lemma_hit_only_at(g: Grid, cx: int, cy: int, a: int, b: int, x: int, y: int)
    requires
        grid_wf(g),
        0 <= x < g.width,
        0 <= y < g.height,
        at_most_one_live(g, x, y),
    ensures
        neighbor_term(g, cx, cy, a, b) == 0 || neighbor_term(g, cx, cy, a, b) == 1,
        neighbor_term(g, cx, cy, a, b) == 1 ==> (cx + a) % g.width == x && (cy + b) % g.height == y,
{
    let (w, h) = (g.width, g.height);
    let i = index_of(g, cx + a, cy + b);
    lemma_index_bound(cx + a, cy + b, w, h);
    if neighbor_term(g, cx, cy, a, b) == 1 {
        assert(i == y * w + x);
        lemma_mod_bound(cx + a, w);
        lemma_mod_bound(cy + b, h);
        lemma_fundamental_div_mod_converse(i, w, (cy + b) % h, (cx + a) % w);
        lemma_fundamental_div_mod_converse(i, w, y, x);
    }
}

proof fn lemma_wrapped_steps(c: int, n: int)
    requires
        0 <= c < n,
    ensures
        c % n == c,
        (c + n - 1) % n == if c == 0 { n - 1 } else { c - 1 },
        (c + 1) % n == if c == n - 1 { 0 } else { c + 1 },
{
    lemma_fundamental_div_mod_converse(c, n, 0, c);
    if c == 0 {
        lemma_fundamental_div_mod_converse(c + n - 1, n, 0, n - 1);
    } else {
        lemma_fundamental_div_mod_converse(c + n - 1, n, 1, c - 1);
    }
    if c == n - 1 {
        lemma_fundamental_div_mod_converse(c + 1, n, 1, 0);
    } else {
        lemma_fundamental_div_mod_converse(c + 1, n, 0, c + 1);
    }
}

/// On a grid at least three cells wide and high, a cell with no live neighbor dies and
/// no cell is born beside a lone live cell: a grid with at most one live cell steps to
/// an empty grid.
pub proof fn lemma_lone_cell_dies(g: Grid, x: int, y: int)
    requires
        grid_wf(g),
        g.width >= 3,
        g.height >= 3,
        0 <= x < g.width,
        0 <= y < g.height,
        at_most_one_live(g, x, y),
    ensures
        step(g).cells == Seq::new(g.cells.len(), |k: int| false),
{
    let (w, h) = (g.width, g.height);
    assert forall|k: int| 0 <= k < g.cells.len() implies !#[trigger] step(g).cells[k] by {
        let cx = k % w;
        let cy = k / w;
        lemma_mod_bound(k, w);
        lemma_div_pos_is_pos(k, w);
        lemma_multiply_divide_lt(k, w, h);
        lemma_wrapped_steps(cx, w);
        lemma_wrapped_steps(cy, h);
        lemma_hit_only_at(g, cx, cy, w - 1, h - 1, x, y);
        lemma_hit_only_at(g, cx, cy, 0, h - 1, x, y);
        lemma_hit_only_at(g, cx, cy, 1, h - 1, x, y);
        lemma_hit_only_at(g, cx, cy, w - 1, 0, x, y);
        lemma_hit_only_at(g, cx, cy, 0, 0, x, y);
        lemma_hit_only_at(g, cx, cy, 1, 0, x, y);
        lemma_hit_only_at(g, cx, cy, w - 1, 1, x, y);
        lemma_hit_only_at(g, cx, cy, 0, 1, x, y);
        lemma_hit_only_at(g, cx, cy, 1, 1, x, y);
        assert(neighbor_count(g, cx, cy) <= 1);
    }
    assert(step(g).cells =~= Seq::new(g.cells.len(), |k: int| false));
}

} // verus!
