use vstd::prelude::*;
use vstd::std_specs::iter::IteratorSpec;
use std::collections::HashSet;
use rayon::iter::{IndexedParallelIterator, IntoParallelIterator, ParallelIterator};
use crate::grid::{
    GridModel, grid_of, alive_set, dense_of, set_live_neighbors, set_step, frontier,
    ring_contains, ring_covered, next_cell_spec, wrap_dec, wrap_inc, lemma_idx_bounds,
    lemma_decode_bounds, lemma_strategies_agree, lemma_next_alive_in_frontier,
    lemma_dense_sparse_dense,
};

verus! {

broadcast use vstd::std_specs::hash::group_hash_axioms;

/// Selects which update strategy a `Universe` runs; fixed for the lifetime
/// of one simulation run.
#[derive(Clone, Copy, Debug, PartialEq, Eq, Structural)]
pub enum Implementation {
    Naive,
    HashSet,
    Parallel,
}

/// A toroidal Game of Life grid together with the strategy that advances it.
///
/// The liveness data is held in two encodings, a dense row-major vector and
/// a sparse set of live cell indices. The two are kept semantically
/// equivalent at every observation point: each generation is computed from a
/// read-only view of the current one and swapped in whole, and the passive
/// encoding is re-derived at that boundary.
pub struct Universe {
    width: u32,
    height: u32,
    cells: Vec<bool>,
    cells_hashset: HashSet<u64>,
    implementation: Implementation,
}

impl View for Universe {
    type V = GridModel;

    closed spec fn view(&self) -> GridModel {
        grid_of(self.width as int, self.height as int, self.cells@)
    }
}

/// Relies on rand::random::<bool>: one boolean drawn from the thread-local
/// generator. Nothing can be promised of a random draw.
#[verifier::external_body]
fn random_cell() -> bool {
    rand::random::<bool>()
}

/// Relies on rayon: a range is an indexed parallel iterator, `map` keeps it
/// indexed, and `collect_into_vec` places each result at its input's index.
/// Every element is computed by the verified `next_cell_at`, whose contract
/// gives the value stated here.
#[verifier::external_body]
fn par_next_cells(cells: &Vec<bool>, width: u32, height: u32) -> (next: Vec<bool>)
    requires
        0 < width,
        0 < height,
        (width as int) * (height as int) <= u32::MAX as int,
        cells@.len() == (width as int) * (height as int),
    ensures
        next@.len() == cells@.len(),
        forall|i: int|
            0 <= i < next@.len() ==> next@[i] == (grid_of(
                width as int,
                height as int,
                cells@,
            ).step().cells[i]),
{
    let total = width * height;
    let mut next = Vec::new();
    (0..total).into_par_iter().map(|i| next_cell_at(cells, width, height, i)).collect_into_vec(
        &mut next,
    );
    next
}

/// The next state of the cell at row-major index `i`, computed from the
/// prior-generation snapshot alone.
fn next_cell_at(cells: &Vec<bool>, width: u32, height: u32, i: u32) -> (next: bool)
    requires
        0 < width,
        0 < height,
        (width as int) * (height as int) <= u32::MAX as int,
        cells@.len() == (width as int) * (height as int),
        (i as int) < (width as int) * (height as int),
    ensures
        next == grid_of(width as int, height as int, cells@).step().cells[i as int],
{
    proof {
        lemma_decode_bounds(width as int, height as int, i as int);
    }
    let x = i % width;
    let y = i / width;
    let alive = cells[i as usize];
    let n = count_live_dense(cells, width, height, x, y);
    next_cell_state(alive, n)
}

/// The transition rule: a live cell survives exactly with two or three live
/// neighbors; a dead cell comes alive exactly with three.
pub fn next_cell_state(alive: bool, live_neighbors: u8) -> (next: bool)
    ensures
        next == next_cell_spec(alive, live_neighbors as int),
{
    if alive {
        live_neighbors == 2 || live_neighbors == 3
    } else {
        live_neighbors == 3
    }
}

fn wrap_dec_u32(v: u32, m: u32) -> (r: u32)
    requires
        v < m,
    ensures
        r as int == wrap_dec(v as int, m as int),
        r < m,
{
    if v == 0 {
        m - 1
    } else {
        v - 1
    }
}

fn wrap_inc_u32(v: u32, m: u32) -> (r: u32)
    requires
        v < m,
    ensures
        r as int == wrap_inc(v as int, m as int),
        r < m,
{
    if v + 1 == m {
        0
    } else {
        v + 1
    }
}

fn index_of(width: u32, height: u32, x: u32, y: u32) -> (i: u32)
    requires
        x < width,
        y < height,
        (width as int) * (height as int) <= u32::MAX as int,
    ensures
        i as int == (y as int) * (width as int) + (x as int),
        (i as int) < (width as int) * (height as int),
{
    proof {
        lemma_idx_bounds(width as int, height as int, x as int, y as int);
    }
    y * width + x
}

/// Live cells among the 8 toroidal neighbors of `(x, y)`, by dense lookups.
fn count_live_dense(cells: &Vec<bool>, width: u32, height: u32, x: u32, y: u32) -> (n: u8)
    requires
        0 < width,
        0 < height,
        (width as int) * (height as int) <= u32::MAX as int,
        cells@.len() == (width as int) * (height as int),
        x < width,
        y < height,
    ensures
        n as int == grid_of(width as int, height as int, cells@).live_neighbors(
            x as int,
            y as int,
        ),
        n <= 8,
{
    let xl = wrap_dec_u32(x, width);
    let xr = wrap_inc_u32(x, width);
    let yu = wrap_dec_u32(y, height);
    let yd = wrap_inc_u32(y, height);
    let mut n: u8 = 0;
    if cells[index_of(width, height, xl, yu) as usize] {
        n = n + 1;
    }
    if cells[index_of(width, height, x, yu) as usize] {
        n = n + 1;
    }
    if cells[index_of(width, height, xr, yu) as usize] {
        n = n + 1;
    }
    if cells[index_of(width, height, xl, y) as usize] {
        n = n + 1;
    }
    if cells[index_of(width, height, xr, y) as usize] {
        n = n + 1;
    }
    if cells[index_of(width, height, xl, yd) as usize] {
        n = n + 1;
    }
    if cells[index_of(width, height, x, yd) as usize] {
        n = n + 1;
    }
    if cells[index_of(width, height, xr, yd) as usize] {
        n = n + 1;
    }
    n
}

/// Live cells among the 8 toroidal neighbors of `(x, y)`, by sparse lookups.
fn count_live_sparse(s: &HashSet<u64>, width: u32, height: u32, x: u32, y: u32) -> (n: u8)
    requires
        0 < width,
        0 < height,
        (width as int) * (height as int) <= u32::MAX as int,
        x < width,
        y < height,
    ensures
        n as int == set_live_neighbors(s@, width as int, height as int, x as int, y as int),
        n <= 8,
{
    let xl = wrap_dec_u32(x, width);
    let xr = wrap_inc_u32(x, width);
    let yu = wrap_dec_u32(y, height);
    let yd = wrap_inc_u32(y, height);
    let mut n: u8 = 0;
    if s.contains(&(index_of(width, height, xl, yu) as u64)) {
        n = n + 1;
    }
    if s.contains(&(index_of(width, height, x, yu) as u64)) {
        n = n + 1;
    }
    if s.contains(&(index_of(width, height, xr, yu) as u64)) {
        n = n + 1;
    }
    if s.contains(&(index_of(width, height, xl, y) as u64)) {
        n = n + 1;
    }
    if s.contains(&(index_of(width, height, xr, y) as u64)) {
        n = n + 1;
    }
    if s.contains(&(index_of(width, height, xl, yd) as u64)) {
        n = n + 1;
    }
    if s.contains(&(index_of(width, height, x, yd) as u64)) {
        n = n + 1;
    }
    if s.contains(&(index_of(width, height, xr, yd) as u64)) {
        n = n + 1;
    }
    n
}

/// Drains the keys of a hash set into a vector, in the set's own order.
fn collect_keys(m: &HashSet<u64>) -> (keys: Vec<u64>)
    ensures
        forall|k: u64| #[trigger] keys@.contains(k) <==> m@.contains(k),
{
    let mut keys: Vec<u64> = Vec::new();
    proof {
        let sq = vstd::std_specs::hash::spec_hash_keys_iter(m).remaining();
        assert(sq.unref().to_set() == m@);
        assert forall|k: u64| m@.contains(k) implies (exists|j: int|
            0 <= j < sq.len() && *sq[j] == k) by {
            assert(sq.unref().contains(k));
            let j = choose|j: int| 0 <= j < sq.unref().len() && sq.unref()[j] == k;
            assert(*sq[j] == k);
        }
    }
    for kref in it: m.iter()
        invariant
            keys@.len() == it.index(),
            forall|j: int| 0 <= j < keys@.len() ==> keys@[j] == *it.seq()[j],
            forall|k: u64| #[trigger] keys@.contains(k) ==> m@.contains(k),
            forall|k: u64|
                m@.contains(k) ==> keys@.contains(k) || (exists|j: int|
                    it.index() <= j < it.seq().len() && *it.seq()[j] == k),
            it.seq().unref().to_set() == m@,
    {
        let ghost i0 = it.index();
        let ghost keys0 = keys@;
        keys.push(*kref);
        proof {
            assert(keys@ == keys0.push(*kref));
            assert(keys@[i0] == *kref);
            assert forall|k: u64| #[trigger] keys@.contains(k) implies m@.contains(k) by {
                let jj = choose|jj: int| 0 <= jj < keys@.len() && keys@[jj] == k;
                if jj < i0 {
                    assert(keys0[jj] == k);
                    assert(keys0.contains(k));
                } else {
                    assert(k == *kref);
                    assert(it.seq().unref()[i0] == k);
                    assert(it.seq().unref().to_set().contains(k));
                }
            }
            assert forall|k: u64|
                m@.contains(k) implies keys@.contains(k) || (exists|j: int|
                i0 + 1 <= j < it.seq().len() && *it.seq()[j] == k) by {
                if !keys@.contains(k) {
                    assert(!keys0.contains(k)) by {
                        if keys0.contains(k) {
                            let jj = choose|jj: int| 0 <= jj < keys0.len() && keys0[jj] == k;
                            assert(keys@[jj] == k);
                        }
                    }
                    let j = choose|j: int| i0 <= j < it.seq().len() && *it.seq()[j] == k;
                    if j == i0 {
                        assert(keys@[i0] == k);
                    }
                    assert(i0 + 1 <= j < it.seq().len() && *it.seq()[j] == k);
                }
            }
        }
    }
    keys
}

/// Records one candidate cell: `seen` holds every candidate so far, and
/// `candidates` lists each exactly once.
fn insert_candidate(seen: &mut HashSet<u64>, candidates: &mut Vec<u64>, k: u64)
    requires
        old(seen)@ == old(candidates)@.to_set(),
    ensures
        final(seen)@ == old(seen)@.insert(k),
        final(candidates)@.to_set() == final(seen)@,
{
    let ghost c0 = candidates@;
    if !seen.contains(&k) {
        candidates.push(k);
        proof {
            assert forall|x: u64|
                candidates@.to_set().contains(x) <==> c0.to_set().contains(x) || x == k by {
                if candidates@.contains(x) {
                    let j = choose|j: int| 0 <= j < candidates@.len() && candidates@[j] == x;
                    if j < c0.len() {
                        assert(c0[j] == x);
                        assert(c0.contains(x));
                    }
                }
                if c0.contains(x) {
                    let j = choose|j: int| 0 <= j < c0.len() && c0[j] == x;
                    assert(candidates@[j] == x);
                    assert(candidates@.contains(x));
                }
                if x == k {
                    assert(candidates@[c0.len() as int] == x);
                    assert(candidates@.contains(x));
                }
            }
            assert(candidates@.to_set() =~= c0.to_set().insert(k));
        }
    } else {
        proof {
            assert(candidates@.to_set() =~= c0.to_set().insert(k));
        }
    }
    seen.insert(k);
}

/// Rebuilds the dense encoding from a sparse set of live indices.
#[verifier::loop_isolation(false)]
pub fn dense_from_hashset(s: &HashSet<u64>, width: u32, height: u32) -> (cells: Vec<bool>)
    requires
        0 < width,
        0 < height,
        (width as int) * (height as int) <= u32::MAX as int,
    ensures
        cells@ == dense_of(s@, ((width as int) * (height as int)) as nat),
{
    let total = width * height;
    let mut cells: Vec<bool> = Vec::new();
    for i in 0..total
        invariant
            cells@.len() == i,
            forall|j: int| 0 <= j < i ==> cells@[j] == s@.contains(j as u64),
    {
        proof {
            assert(((i as u64) as int) == i as int);
        }
        cells.push(s.contains(&(i as u64)));
    }
    proof {
        assert(cells@ =~= dense_of(s@, ((width as int) * (height as int)) as nat));
    }
    cells
}

/// Derives the sparse encoding from a dense liveness vector: the set of the
/// indices of exactly the live cells.
#[verifier::loop_isolation(false)]
pub fn create_hashset(cells: &Vec<bool>, width: u32, height: u32) -> (s: HashSet<u64>)
    requires
        0 < width,
        0 < height,
        (width as int) * (height as int) <= u32::MAX as int,
        cells@.len() == (width as int) * (height as int),
    ensures
        s@ == alive_set(cells@),
{
    let total = width * height;
    let mut s: HashSet<u64> = HashSet::new();
    for i in 0..total
        invariant
            s@ == alive_set(cells@.take(i as int)),
    {
        let alive = cells[i as usize];
        if alive {
            s.insert(i as u64);
        }
        proof {
            let t0 = cells@.take(i as int);
            let t1 = cells@.take(i as int + 1);
            assert(((i as u64) as int) == i as int);
            if alive {
                assert(alive_set(t1) =~= alive_set(t0).insert(i as u64));
            } else {
                assert(alive_set(t1) =~= alive_set(t0));
            }
        }
    }
    proof {
        assert(cells@.take(total as int) =~= cells@);
    }
    s
}

impl Universe {
    /// Both encodings match the dense model, and the dimensions are positive
    /// with `width * height` representable.
    pub closed spec fn wf(&self) -> bool {
        &&& self@.valid()
        &&& self.cells_hashset@ == alive_set(self.cells@)
    }

    pub closed spec fn strategy(&self) -> Implementation {
        self.implementation
    }

    /// Builds a universe from a given dense liveness vector; the sparse
    /// encoding is derived from it.
    pub fn from_cells(width: u32, height: u32, cells: Vec<bool>, implementation: Implementation) -> (u:
        Universe)
        requires
            0 < width,
            0 < height,
            (width as int) * (height as int) <= u32::MAX as int,
            cells@.len() == (width as int) * (height as int),
        ensures
            u.wf(),
            u@ == grid_of(width as int, height as int, cells@),
            u.strategy() == implementation,
    {
        let cells_hashset = create_hashset(&cells, width, height);
        Universe { width, height, cells, cells_hashset, implementation }
    }

    /// Builds a universe of the given dimensions with every cell drawn
    /// independently from a uniform random boolean distribution.
    #[verifier::loop_isolation(false)]
    pub fn new(width: u32, height: u32, implementation: Implementation) -> (u: Universe)
        requires
            0 < width,
            0 < height,
            (width as int) * (height as int) <= u32::MAX as int,
        ensures
            u.wf(),
            u@.width == width as int,
            u@.height == height as int,
            u.strategy() == implementation,
    {
        let total = width * height;
        let mut cells: Vec<bool> = Vec::new();
        for i in 0..total
            invariant
                cells@.len() == i,
        {
            cells.push(random_cell());
        }
        Universe::from_cells(width, height, cells, implementation)
    }

    pub fn width(&self) -> (w: u32)
        ensures
            w as int == self@.width,
    {
        self.width
    }

    pub fn height(&self) -> (h: u32)
        ensures
            h as int == self@.height,
    {
        self.height
    }

    /// Liveness of the in-bounds cell at row `row`, column `col`, read
    /// through the strategy the universe was built with.
    pub fn get_cell(&self, row: u32, col: u32) -> (alive: bool)
        requires
            self.wf(),
            (row as int) < self@.height,
            (col as int) < self@.width,
        ensures
            alive == self@.cell(col as int, row as int),
    {
        match self.implementation {
            Implementation::Naive => self.get_cell_naive(row, col),
            Implementation::HashSet => self.get_cell_hashset(row, col),
            Implementation::Parallel => self.get_cell_parallel(row, col),
        }
    }

    /// Liveness of the in-bounds cell at row `row`, column `col`, by a
    /// dense-array lookup.
    pub fn get_cell_naive(&self, row: u32, col: u32) -> (alive: bool)
        requires
            self.wf(),
            (row as int) < self@.height,
            (col as int) < self@.width,
        ensures
            alive == self@.cell(col as int, row as int),
    {
        let i = index_of(self.width, self.height, col, row);
        self.cells[i as usize]
    }

    /// Liveness of the in-bounds cell at row `row`, column `col`, by a
    /// sparse-set membership test.
    pub fn get_cell_hashset(&self, row: u32, col: u32) -> (alive: bool)
        requires
            self.wf(),
            (row as int) < self@.height,
            (col as int) < self@.width,
        ensures
            alive == self@.cell(col as int, row as int),
    {
        let i = index_of(self.width, self.height, col, row);
        proof {
            assert(((i as u64) as int) == i as int);
        }
        self.cells_hashset.contains(&(i as u64))
    }

    /// Liveness of the in-bounds cell at row `row`, column `col`, from the
    /// dense snapshot that the parallel strategy reads and writes.
    pub fn get_cell_parallel(&self, row: u32, col: u32) -> (alive: bool)
        requires
            self.wf(),
            (row as int) < self@.height,
            (col as int) < self@.width,
        ensures
            alive == self@.cell(col as int, row as int),
    {
        let i = index_of(self.width, self.height, col, row);
        self.cells[i as usize]
    }

    /// Advances the universe one generation with the strategy it was built
    /// with. All three strategies produce the same grid.
    pub fn tick(&mut self)
        requires
            old(self).wf(),
        ensures
            final(self).wf(),
            final(self)@ == old(self)@.step(),
            final(self).strategy() == old(self).strategy(),
    {
        match self.implementation {
            Implementation::Naive => self.tick_naive(),
            Implementation::HashSet => self.tick_hashset(),
            Implementation::Parallel => self.tick_parallel(),
        }
    }

    /// One generation by the dense sequential strategy: a full scan in
    /// row-major order, then the new array replaces the old in one step.
    #[verifier::loop_isolation(false)]
    pub fn tick_naive(&mut self)
        requires
            old(self).wf(),
        ensures
            final(self).wf(),
            final(self)@ == old(self)@.step(),
            final(self).strategy() == old(self).strategy(),
    {
        let ghost g = self@;
        let width = self.width;
        let height = self.height;
        let total = width * height;
        let mut next: Vec<bool> = Vec::new();
        for i in 0..total
            invariant
                next@.len() == i,
                forall|j: int| 0 <= j < next@.len() ==> next@[j] == g.step().cells[j],
        {
            next.push(next_cell_at(&self.cells, width, height, i));
        }
        proof {
            assert(next@ =~= g.step().cells);
        }
        self.cells = next;
        self.cells_hashset = create_hashset(&self.cells, width, height);
    }

    /// One generation by the parallel strategy: every cell's next state is
    /// computed independently from the prior-generation snapshot and the
    /// results are collected in index order before the swap.
    pub fn tick_parallel(&mut self)
        requires
            old(self).wf(),
        ensures
            final(self).wf(),
            final(self)@ == old(self)@.step(),
            final(self).strategy() == old(self).strategy(),
    {
        let ghost g = self@;
        let next = par_next_cells(&self.cells, self.width, self.height);
        proof {
            assert(next@ =~= g.step().cells);
        }
        self.cells = next;
        self.cells_hashset = create_hashset(&self.cells, self.width, self.height);
    }

    /// One generation by the sparse strategy: the candidate set is every
    /// live cell plus its full neighbor ring; only candidates are evaluated,
    /// and every cell outside the candidate set stays dead.
    #[verifier::loop_isolation(false)]
    pub fn tick_hashset(&mut self)
        requires
            old(self).wf(),
        ensures
            final(self).wf(),
            final(self)@ == old(self)@.step(),
            final(self).strategy() == old(self).strategy(),
    {
        let ghost g = self@;
        let ghost s0 = self.cells_hashset@;
        let ghost w = self.width as int;
        let ghost h = self.height as int;
        let width = self.width;
        let height = self.height;
        let keys = collect_keys(&self.cells_hashset);
        let mut seen: HashSet<u64> = HashSet::new();
        let mut candidates: Vec<u64> = Vec::new();
        let mut t: usize = 0;
        while t < keys.len()
            invariant
                t <= keys@.len(),
                seen@ == candidates@.to_set(),
                forall|k: u64| #[trigger]
                    seen@.contains(k) ==> (k as int) < w * h && frontier(s0, w, h).contains(k),
                forall|j: int| 0 <= j < t ==> ring_covered(seen@, w, h, keys@[j]),
            decreases keys@.len() - t,
        {
            let c = keys[t];
            proof {
                assert(keys@.contains(c));
                assert(s0.contains(c));
                lemma_decode_bounds(w, h, c as int);
            }
            let x = (c % (width as u64)) as u32;
            let y = (c / (width as u64)) as u32;
            let xl = wrap_dec_u32(x, width);
            let xr = wrap_inc_u32(x, width);
            let yu = wrap_dec_u32(y, height);
            let yd = wrap_inc_u32(y, height);
            let ghost seen_before = seen@;
            let r1 = index_of(width, height, xl, yu);
            let r2 = index_of(width, height, x, yu);
            let r3 = index_of(width, height, xr, yu);
            let r4 = index_of(width, height, xl, y);
            let r5 = index_of(width, height, xr, y);
            let r6 = index_of(width, height, xl, yd);
            let r7 = index_of(width, height, x, yd);
            let r8 = index_of(width, height, xr, yd);
            insert_candidate(&mut seen, &mut candidates, c);
            insert_candidate(&mut seen, &mut candidates, r1 as u64);
            insert_candidate(&mut seen, &mut candidates, r2 as u64);
            insert_candidate(&mut seen, &mut candidates, r3 as u64);
            insert_candidate(&mut seen, &mut candidates, r4 as u64);
            insert_candidate(&mut seen, &mut candidates, r5 as u64);
            insert_candidate(&mut seen, &mut candidates, r6 as u64);
            insert_candidate(&mut seen, &mut candidates, r7 as u64);
            insert_candidate(&mut seen, &mut candidates, r8 as u64);
            proof {
                assert forall|k: u64| #[trigger] seen@.contains(k) implies (k as int) < w * h
                    && frontier(s0, w, h).contains(k) by {
                    if !seen_before.contains(k) {
                        assert(ring_contains(w, h, c, k));
                        assert(frontier(s0, w, h).contains(k)) by {
                            assert(s0.contains(c) && ring_contains(w, h, c, k));
                        }
                    }
                }
                assert forall|k: u64| #[trigger] ring_contains(w, h, c, k) implies seen@.contains(
                    k,
                ) by {
                    assert(k == c || k == r1 as u64 || k == r2 as u64 || k == r3 as u64 || k == r4
                        as u64 || k == r5 as u64 || k == r6 as u64 || k == r7 as u64 || k == r8
                        as u64);
                }
            }
            t = t + 1;
        }
        let mut next_set: HashSet<u64> = HashSet::new();
        let mut t2: usize = 0;
        while t2 < candidates.len()
            invariant
                t2 <= candidates@.len(),
                forall|k: u64| #[trigger]
                    next_set@.contains(k) ==> set_step(s0, w, h).contains(k),
                forall|j: int|
                    0 <= j < t2 ==> (set_step(s0, w, h).contains(candidates@[j])
                        ==> next_set@.contains(candidates@[j])),
            decreases candidates@.len() - t2,
        {
            let k = candidates[t2];
            proof {
                assert(candidates@.contains(k));
                assert(candidates@.to_set().contains(k));
                assert(seen@.contains(k));
                lemma_decode_bounds(w, h, k as int);
            }
            let x = (k % (width as u64)) as u32;
            let y = (k / (width as u64)) as u32;
            let n = count_live_sparse(&self.cells_hashset, width, height, x, y);
            let alive = self.cells_hashset.contains(&k);
            if next_cell_state(alive, n) {
                next_set.insert(k);
            }
            t2 = t2 + 1;
        }
        proof {
            assert forall|k: u64| set_step(s0, w, h).contains(k) implies next_set@.contains(
                k,
            ) by {
                lemma_next_alive_in_frontier(s0, w, h, k);
                let c = choose|c: u64| s0.contains(c) && ring_contains(w, h, c, k);
                assert(keys@.contains(c));
                let j = choose|j: int| 0 <= j < keys@.len() && keys@[j] == c;
                assert(ring_covered(seen@, w, h, c));
                assert(seen@.contains(k));
                assert(candidates@.to_set().contains(k));
                let tt = choose|tt: int| 0 <= tt < candidates@.len() && candidates@[tt] == k;
                assert(next_set@.contains(k));
            }
            assert(next_set@ =~= set_step(s0, w, h));
            lemma_strategies_agree(g);
        }
        let next_cells = dense_from_hashset(&next_set, width, height);
        proof {
            lemma_dense_sparse_dense(g.step().cells);
            assert(next_cells@ =~= g.step().cells);
        }
        self.cells = next_cells;
        self.cells_hashset = next_set;
    }

    /// Runs the configured number of generations with the universe's
    /// strategy, one full generation at a time.
    #[verifier::loop_isolation(false)]
    pub fn game_of_life(&mut self, iterations: u32)
        requires
            old(self).wf(),
        ensures
            final(self).wf(),
            final(self)@ == old(self)@.step_n(iterations as nat),
            final(self).strategy() == old(self).strategy(),
    {
        let ghost g0 = self@;
        let ghost strat0 = self.strategy();
        for t in 0..iterations
            invariant
                self.wf(),
                self@ == g0.step_n(t as nat),
                self.strategy() == strat0,
        {
            self.tick();
        }
    }
}

} // verus!
