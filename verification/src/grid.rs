use vstd::prelude::*;
use vstd::arithmetic::div_mod::{lemma_fundamental_div_mod_converse_div, lemma_fundamental_div_mod_converse_mod};

verus! {

/// Mathematical model of a toroidal Game of Life grid: positive dimensions
/// plus a row-major sequence of cell liveness values, indexed by
/// `y * width + x` (column `x`, row `y`).
pub ghost struct GridModel {
    pub width: int,
    pub height: int,
    pub cells: Seq<bool>,
}

/// The column (or row) one step to the left (or up) of `v` on a torus of
/// extent `m`: the last line stands in place of `-1`.
pub open spec fn wrap_dec(v: int, m: int) -> int {
    if v == 0 {
        m - 1
    } else {
        v - 1
    }
}

/// The column (or row) one step to the right (or down) of `v` on a torus of
/// extent `m`: past the last line comes line `0`.
pub open spec fn wrap_inc(v: int, m: int) -> int {
    if v + 1 == m {
        0
    } else {
        v + 1
    }
}

pub open spec fn b2i(b: bool) -> int {
    if b {
        1
    } else {
        0
    }
}

/// The transition rule of the simulation, identical for every strategy:
/// a live cell survives with two or three live neighbors and otherwise dies;
/// a dead cell comes alive with exactly three live neighbors.
pub open spec fn next_cell_spec(alive: bool, live_neighbors: int) -> bool {
    if alive {
        2 <= live_neighbors <= 3
    } else {
        live_neighbors == 3
    }
}

impl GridModel {
    pub open spec fn valid(self) -> bool {
        &&& 0 < self.width
        &&& 0 < self.height
        &&& self.width * self.height <= u32::MAX as int
        &&& self.cells.len() == self.width * self.height
    }

    pub open spec fn in_bounds(self, x: int, y: int) -> bool {
        0 <= x < self.width && 0 <= y < self.height
    }

    pub open spec fn idx(self, x: int, y: int) -> int {
        y * self.width + x
    }

    pub open spec fn cell(self, x: int, y: int) -> bool {
        self.cells[self.idx(x, y)]
    }

    /// Number of live cells among the 8 toroidal neighbors of `(x, y)`,
    /// read from the dense encoding. Positions that coincide on a degenerate
    /// torus (extent 1 or 2) are counted once per offset, as the update
    /// strategies do.
    pub open spec fn live_neighbors(self, x: int, y: int) -> int {
        let xl = wrap_dec(x, self.width);
        let xr = wrap_inc(x, self.width);
        let yu = wrap_dec(y, self.height);
        let yd = wrap_inc(y, self.height);
        b2i(self.cell(xl, yu)) + b2i(self.cell(x, yu)) + b2i(self.cell(xr, yu)) + b2i(
            self.cell(xl, y),
        ) + b2i(self.cell(xr, y)) + b2i(self.cell(xl, yd)) + b2i(self.cell(x, yd)) + b2i(
            self.cell(xr, yd),
        )
    }

    /// One full generation: every cell is rewritten by the transition rule,
    /// from a read-only view of the current generation.
    pub open spec fn step(self) -> GridModel {
        GridModel {
            width: self.width,
            height: self.height,
            cells: Seq::new(
                self.cells.len(),
                |i: int|
                    next_cell_spec(
                        self.cells[i],
                        self.live_neighbors(i % self.width, i / self.width),
                    ),
            ),
        }
    }

    pub open spec fn step_n(self, n: nat) -> GridModel
        decreases n,
    {
        if n == 0 {
            self
        } else {
            self.step_n((n - 1) as nat).step()
        }
    }

    pub open spec fn all_dead(self) -> bool {
        forall|i: int| 0 <= i < self.cells.len() ==> !self.cells[i]
    }
}

/// The sparse encoding of a dense liveness sequence: the set of row-major
/// indices of exactly the live cells.
pub open spec fn alive_set(cells: Seq<bool>) -> Set<u64> {
    Set::new(|k: u64| (k as int) < cells.len() && cells[k as int])
}

/// The dense encoding of a sparse set of live indices.
pub open spec fn dense_of(s: Set<u64>, len: nat) -> Seq<bool> {
    Seq::new(len, |i: int| s.contains(i as u64))
}

/// Liveness of cell `(x, y)` read from a sparse set of live indices.
pub open spec fn set_cell(s: Set<u64>, w: int, x: int, y: int) -> bool {
    s.contains((y * w + x) as u64)
}

/// Number of live cells among the 8 toroidal neighbors of `(x, y)`, read
/// from the sparse encoding.
pub open spec fn set_live_neighbors(s: Set<u64>, w: int, h: int, x: int, y: int) -> int {
    let xl = wrap_dec(x, w);
    let xr = wrap_inc(x, w);
    let yu = wrap_dec(y, h);
    let yd = wrap_inc(y, h);
    b2i(set_cell(s, w, xl, yu)) + b2i(set_cell(s, w, x, yu)) + b2i(set_cell(s, w, xr, yu)) + b2i(
        set_cell(s, w, xl, y),
    ) + b2i(set_cell(s, w, xr, y)) + b2i(set_cell(s, w, xl, yd)) + b2i(set_cell(s, w, x, yd))
        + b2i(set_cell(s, w, xr, yd))
}

/// One full generation computed entirely in the sparse encoding.
pub open spec fn set_step(s: Set<u64>, w: int, h: int) -> Set<u64> {
    Set::new(
        |k: u64|
            (k as int) < w * h && next_cell_spec(
                s.contains(k),
                set_live_neighbors(s, w, h, (k as int) % w, (k as int) / w),
            ),
    )
}

/// Does index `k` name the cell `c` itself or one of `c`'s 8 toroidal
/// neighbors?
pub open spec fn ring_contains(w: int, h: int, c: u64, k: u64) -> bool {
    let x = (c as int) % w;
    let y = (c as int) / w;
    let xl = wrap_dec(x, w);
    let xr = wrap_inc(x, w);
    let yu = wrap_dec(y, h);
    let yd = wrap_inc(y, h);
    ||| k == c
    ||| k as int == yu * w + xl
    ||| k as int == yu * w + x
    ||| k as int == yu * w + xr
    ||| k as int == y * w + xl
    ||| k as int == y * w + xr
    ||| k as int == yd * w + xl
    ||| k as int == yd * w + x
    ||| k as int == yd * w + xr
}

/// The candidate set of the sparse strategy: every live cell together with
/// its full neighbor ring. Every cell that is live now or can be live after
/// one generation lies in here.
pub open spec fn frontier(s: Set<u64>, w: int, h: int) -> Set<u64> {
    Set::new(|k: u64| exists|c: u64| s.contains(c) && ring_contains(w, h, c, k))
}

pub open spec fn grid_of(width: int, height: int, cells: Seq<bool>) -> GridModel {
    GridModel { width, height, cells }
}

/// Every cell of `c`'s ring lies in `t`.
pub open spec fn ring_covered(t: Set<u64>, w: int, h: int, c: u64) -> bool {
    forall|k: u64| #[trigger] ring_contains(w, h, c, k) ==> t.contains(k)
}

pub proof fn lemma_idx_bounds(w: int, h: int, x: int, y: int)
    requires
        0 <= x < w,
        0 <= y < h,
    ensures
        0 <= y * w + x < w * h,
{
    assert(y * w + x < w * h) by (nonlinear_arith)
        requires
            0 <= x < w,
            0 <= y < h,
    ;
    assert(y * w + x >= 0) by (nonlinear_arith)
        requires
            0 <= x,
            0 <= y,
            0 < w,
    ;
}

pub proof fn lemma_idx_decode(w: int, h: int, x: int, y: int)
    requires
        0 <= x < w,
        0 <= y < h,
    ensures
        (y * w + x) % w == x,
        (y * w + x) / w == y,
{
    lemma_fundamental_div_mod_converse_div(y * w + x, w, y, x);
    lemma_fundamental_div_mod_converse_mod(y * w + x, w, y, x);
}

pub proof fn lemma_decode_bounds(w: int, h: int, k: int)
    requires
        0 < w,
        0 < h,
        0 <= k < w * h,
    ensures
        0 <= k % w < w,
        0 <= k / w < h,
        (k / w) * w + (k % w) == k,
{
    vstd::arithmetic::div_mod::lemma_fundamental_div_mod(k, w);
    assert((k / w) * w == w * (k / w)) by (nonlinear_arith);
    assert(0 <= k % w < w);
    assert(k / w < h) by (nonlinear_arith)
        requires
            0 < w,
            0 < h,
            0 <= k < w * h,
            k == w * (k / w) + k % w,
            0 <= k % w < w,
    ;
    assert(k / w >= 0) by (nonlinear_arith)
        requires
            0 < w,
            0 <= k,
            k == w * (k / w) + k % w,
            k % w < w,
    ;
}

/// The two neighbor counters agree: for any valid grid, the sparse count over
/// the grid's alive-index set equals the dense count, at every in-bounds cell.
pub proof fn lemma_counts_agree(g: GridModel, x: int, y: int)
    requires
        g.valid(),
        g.in_bounds(x, y),
    ensures
        set_live_neighbors(alive_set(g.cells), g.width, g.height, x, y) == g.live_neighbors(x, y),
{
    let s = alive_set(g.cells);
    let xl = wrap_dec(x, g.width);
    let xr = wrap_inc(x, g.width);
    let yu = wrap_dec(y, g.height);
    let yd = wrap_inc(y, g.height);
    lemma_set_cell_agrees(g, xl, yu);
    lemma_set_cell_agrees(g, x, yu);
    lemma_set_cell_agrees(g, xr, yu);
    lemma_set_cell_agrees(g, xl, y);
    lemma_set_cell_agrees(g, xr, y);
    lemma_set_cell_agrees(g, xl, yd);
    lemma_set_cell_agrees(g, x, yd);
    lemma_set_cell_agrees(g, xr, yd);
}

pub proof fn lemma_set_cell_agrees(g: GridModel, x: int, y: int)
    requires
        g.valid(),
        g.in_bounds(x, y),
    ensures
        set_cell(alive_set(g.cells), g.width, x, y) == g.cell(x, y),
{
    lemma_idx_bounds(g.width, g.height, x, y);
    let i = y * g.width + x;
    assert((i as u64) as int == i);
    assert(alive_set(g.cells).contains(i as u64) <==> g.cells[i]);
}

/// The dense and the sparse update agree: one generation computed in the
/// sparse encoding over a grid's alive-index set yields exactly the
/// alive-index set of one generation computed in the dense encoding. The
/// dense sequential strategy, the sparse strategy and the parallel strategy
/// each produce these models, so all three yield the same alive cells.
pub proof fn lemma_strategies_agree(g: GridModel)
    requires
        g.valid(),
    ensures
        set_step(alive_set(g.cells), g.width, g.height) == alive_set(g.step().cells),
{
    let w = g.width;
    let h = g.height;
    let s = alive_set(g.cells);
    assert forall|k: u64| set_step(s, w, h).contains(k) implies alive_set(
        g.step().cells,
    ).contains(k) by {
        lemma_step_members_agree(g, k);
    }
    assert forall|k: u64| alive_set(g.step().cells).contains(k) implies set_step(
        s,
        w,
        h,
    ).contains(k) by {
        lemma_step_members_agree(g, k);
    }
    assert(set_step(s, w, h) =~= alive_set(g.step().cells));
}

proof fn lemma_step_members_agree(g: GridModel, k: u64)
    requires
        g.valid(),
        0 <= (k as int) < g.width * g.height,
    ensures
        set_step(alive_set(g.cells), g.width, g.height).contains(k) <==> alive_set(
            g.step().cells,
        ).contains(k),
{
    let w = g.width;
    let h = g.height;
    let i = k as int;
    lemma_decode_bounds(w, h, i);
    lemma_counts_agree(g, i % w, i / w);
    assert(alive_set(g.cells).contains(k) <==> g.cells[i]);
    assert(g.step().cells[i] == next_cell_spec(g.cells[i], g.live_neighbors(i % w, i / w)));
}

/// Whichever cell was live at `(a, b)`, the cell `(x, y)` that counted it
/// among its neighbors lies in that cell's own ring: the toroidal neighbor
/// relation is symmetric.
proof fn lemma_ring_back(s: Set<u64>, w: int, h: int, k: u64, x: int, y: int, a: int, b: int)
    requires
        0 < w,
        0 < h,
        w * h <= u32::MAX as int,
        0 <= (k as int) < w * h,
        x == (k as int) % w,
        y == (k as int) / w,
        0 <= a < w,
        0 <= b < h,
        a == wrap_dec(x, w) || a == x || a == wrap_inc(x, w),
        b == wrap_dec(y, h) || b == y || b == wrap_inc(y, h),
        s.contains((b * w + a) as u64),
    ensures
        frontier(s, w, h).contains(k),
{
    lemma_idx_bounds(w, h, a, b);
    lemma_idx_decode(w, h, a, b);
    lemma_decode_bounds(w, h, k as int);
    let c = (b * w + a) as u64;
    assert(c as int == b * w + a);
    assert(wrap_inc(wrap_dec(x, w), w) == x);
    assert(wrap_dec(wrap_inc(x, w), w) == x);
    assert(wrap_inc(wrap_dec(y, h), h) == y);
    assert(wrap_dec(wrap_inc(y, h), h) == y);
    assert(k as int == y * w + x);
    assert(ring_contains(w, h, c, k));
    assert(frontier(s, w, h).contains(k)) by {
        assert(s.contains(c) && ring_contains(w, h, c, k));
    }
}

/// Completeness of the sparse strategy's candidate set: every cell that is
/// live after one generation lies in the frontier of the current alive set.
/// A cell outside the frontier is dead with no live neighbors, and the
/// transition rule keeps it dead.
pub proof fn lemma_next_alive_in_frontier(s: Set<u64>, w: int, h: int, k: u64)
    requires
        0 < w,
        0 < h,
        w * h <= u32::MAX as int,
        forall|c: u64| s.contains(c) ==> (c as int) < w * h,
        set_step(s, w, h).contains(k),
    ensures
        frontier(s, w, h).contains(k),
{
    let i = k as int;
    lemma_decode_bounds(w, h, i);
    let x = i % w;
    let y = i / w;
    if s.contains(k) {
        assert(frontier(s, w, h).contains(k)) by {
            assert(s.contains(k) && ring_contains(w, h, k, k));
        }
    } else {
        let xl = wrap_dec(x, w);
        let xr = wrap_inc(x, w);
        let yu = wrap_dec(y, h);
        let yd = wrap_inc(y, h);
        assert(set_live_neighbors(s, w, h, x, y) == 3);
        if set_cell(s, w, xl, yu) {
            lemma_ring_back(s, w, h, k, x, y, xl, yu);
        } else if set_cell(s, w, x, yu) {
            lemma_ring_back(s, w, h, k, x, y, x, yu);
        } else if set_cell(s, w, xr, yu) {
            lemma_ring_back(s, w, h, k, x, y, xr, yu);
        } else if set_cell(s, w, xl, y) {
            lemma_ring_back(s, w, h, k, x, y, xl, y);
        } else if set_cell(s, w, xr, y) {
            lemma_ring_back(s, w, h, k, x, y, xr, y);
        } else if set_cell(s, w, xl, yd) {
            lemma_ring_back(s, w, h, k, x, y, xl, yd);
        } else if set_cell(s, w, x, yd) {
            lemma_ring_back(s, w, h, k, x, y, x, yd);
        } else {
            assert(set_cell(s, w, xr, yd));
            lemma_ring_back(s, w, h, k, x, y, xr, yd);
        }
    }
}

proof fn lemma_cell_of_dead(g: GridModel, x: int, y: int)
    requires
        g.valid(),
        g.all_dead(),
        g.in_bounds(x, y),
    ensures
        !g.cell(x, y),
{
    lemma_idx_bounds(g.width, g.height, x, y);
}

proof fn lemma_dead_one_step(g: GridModel)
    requires
        g.valid(),
        g.all_dead(),
    ensures
        g.step().valid(),
        g.step().all_dead(),
{
    assert forall|i: int| 0 <= i < g.step().cells.len() implies !g.step().cells[i] by {
        lemma_decode_bounds(g.width, g.height, i);
        let x = i % g.width;
        let y = i / g.width;
        let xl = wrap_dec(x, g.width);
        let xr = wrap_inc(x, g.width);
        let yu = wrap_dec(y, g.height);
        let yd = wrap_inc(y, g.height);
        lemma_cell_of_dead(g, xl, yu);
        lemma_cell_of_dead(g, x, yu);
        lemma_cell_of_dead(g, xr, yu);
        lemma_cell_of_dead(g, xl, y);
        lemma_cell_of_dead(g, xr, y);
        lemma_cell_of_dead(g, xl, yd);
        lemma_cell_of_dead(g, x, yd);
        lemma_cell_of_dead(g, xr, yd);
        assert(g.live_neighbors(x, y) == 0);
    }
}

/// No spontaneous life: a fully dead grid is still fully dead after any
/// number of generations.
pub proof fn lemma_dead_grid_stays_dead(g: GridModel, n: nat)
    requires
        g.valid(),
        g.all_dead(),
    ensures
        g.step_n(n).valid(),
        g.step_n(n).all_dead(),
    decreases n,
{
    if n > 0 {
        lemma_dead_grid_stays_dead(g, (n - 1) as nat);
        lemma_dead_one_step(g.step_n((n - 1) as nat));
    }
}

/// A single isolated live cell dies after exactly one generation, and wakes
/// no dead cell, on any grid of extent at least 3 in both directions (so
/// that no cell's neighbor ring folds back onto one position twice).
pub proof fn lemma_lone_cell_dies(g: GridModel, i0: int)
    requires
        g.valid(),
        g.width >= 3,
        g.height >= 3,
        0 <= i0 < g.cells.len(),
        g.cells[i0],
        forall|j: int| 0 <= j < g.cells.len() && j != i0 ==> !g.cells[j],
    ensures
        g.step().all_dead(),
{
    let w = g.width;
    let h = g.height;
    lemma_decode_bounds(w, h, i0);
    let x0 = i0 % w;
    let y0 = i0 / w;
    assert forall|i: int| 0 <= i < g.step().cells.len() implies !g.step().cells[i] by {
        lemma_decode_bounds(w, h, i);
        let x = i % w;
        let y = i / w;
        let xl = wrap_dec(x, w);
        let xr = wrap_inc(x, w);
        let yu = wrap_dec(y, h);
        let yd = wrap_inc(y, h);
        lemma_idx_bounds(w, h, xl, yu);
        lemma_idx_bounds(w, h, x, yu);
        lemma_idx_bounds(w, h, xr, yu);
        lemma_idx_bounds(w, h, xl, y);
        lemma_idx_bounds(w, h, xr, y);
        lemma_idx_bounds(w, h, xl, yd);
        lemma_idx_bounds(w, h, x, yd);
        lemma_idx_bounds(w, h, xr, yd);
        lemma_idx_decode(w, h, xl, yu);
        lemma_idx_decode(w, h, x, yu);
        lemma_idx_decode(w, h, xr, yu);
        lemma_idx_decode(w, h, xl, y);
        lemma_idx_decode(w, h, xr, y);
        lemma_idx_decode(w, h, xl, yd);
        lemma_idx_decode(w, h, x, yd);
        lemma_idx_decode(w, h, xr, yd);
        assert(xl != x && xr != x && xl != xr);
        assert(yu != y && yd != y && yu != yd);
        assert(g.live_neighbors(x, y) <= 1);
        if g.cells[i] {
            assert(i == i0);
            assert(g.live_neighbors(x, y) == 0);
        }
    }
}

/// Toroidal wraparound: a live cell in column 0 is counted as a neighbor of
/// the cell in the last column of the same row, and the other way round.
pub proof fn lemma_wraparound_columns(g: GridModel, y: int)
    requires
        g.valid(),
        0 <= y < g.height,
    ensures
        g.cell(0, y) ==> g.live_neighbors(g.width - 1, y) >= 1,
        g.cell(g.width - 1, y) ==> g.live_neighbors(0, y) >= 1,
{
    assert(wrap_inc(g.width - 1, g.width) == 0);
    assert(wrap_dec(0, g.width) == g.width - 1);
}

/// Converting the dense encoding to the sparse one and back yields the
/// original liveness sequence.
pub proof fn lemma_dense_sparse_dense(cells: Seq<bool>)
    requires
        cells.len() <= u32::MAX,
    ensures
        dense_of(alive_set(cells), cells.len()) == cells,
{
    assert forall|i: int| 0 <= i < cells.len() implies dense_of(alive_set(cells), cells.len())[i]
        == cells[i] by {
        assert((i as u64) as int == i);
    }
    assert(dense_of(alive_set(cells), cells.len()) =~= cells);
}

/// Converting a sparse set of in-range live indices to the dense encoding
/// and back yields the original set.
pub proof fn lemma_sparse_dense_sparse(s: Set<u64>, len: nat)
    requires
        forall|k: u64| s.contains(k) ==> (k as int) < len,
    ensures
        alive_set(dense_of(s, len)) == s,
{
    assert forall|k: u64| alive_set(dense_of(s, len)).contains(k) <==> s.contains(k) by {
        assert(((k as int) as u64) == k);
    }
    assert(alive_set(dense_of(s, len)) =~= s);
}

} // verus!
