use game_of_life::universe::{
    create_hashset, dense_from_hashset, next_cell_state, Implementation, Universe,
};

fn grid_from(width: u32, height: u32, alive: &[(u32, u32)], imp: Implementation) -> Universe {
    let mut cells = vec![false; (width * height) as usize];
    for &(x, y) in alive {
        cells[(y * width + x) as usize] = true;
    }
    Universe::from_cells(width, height, cells, imp)
}

fn alive_coords(u: &Universe) -> Vec<(u32, u32)> {
    let mut out = Vec::new();
    for y in 0..u.height() {
        for x in 0..u.width() {
            if u.get_cell(y, x) {
                out.push((x, y));
            }
        }
    }
    out
}

#[test]
fn transition_rule_table() {
    for n in 0..=8u8 {
        assert_eq!(next_cell_state(true, n), n == 2 || n == 3);
        assert_eq!(next_cell_state(false, n), n == 3);
    }
}

#[test]
fn getters_and_construction() {
    let u = grid_from(4, 3, &[(0, 0), (3, 2)], Implementation::Naive);
    assert_eq!(u.width(), 4);
    assert_eq!(u.height(), 3);
    assert!(u.get_cell(0, 0));
    assert!(u.get_cell(2, 3));
    assert!(!u.get_cell(1, 1));
    assert!(u.get_cell_naive(0, 0));
    assert!(u.get_cell_hashset(0, 0));
    assert!(u.get_cell_parallel(0, 0));
    assert!(!u.get_cell_naive(2, 0));
    assert!(!u.get_cell_hashset(2, 0));
    assert!(!u.get_cell_parallel(2, 0));
}

#[test]
fn random_universe_has_requested_shape() {
    let u = Universe::new(7, 5, Implementation::HashSet);
    assert_eq!(u.width(), 7);
    assert_eq!(u.height(), 5);
    for y in 0..5 {
        for x in 0..7 {
            assert_eq!(u.get_cell_naive(y, x), u.get_cell_hashset(y, x));
        }
    }
}

#[test]
fn strategies_agree_one_generation() {
    let pattern = [(1u32, 0u32), (2, 1), (0, 2), (1, 2), (2, 2), (4, 4), (5, 4), (4, 5)];
    let mut naive = grid_from(6, 6, &pattern, Implementation::Naive);
    let mut hash = grid_from(6, 6, &pattern, Implementation::HashSet);
    let mut par = grid_from(6, 6, &pattern, Implementation::Parallel);
    naive.tick();
    hash.tick();
    par.tick();
    let a = alive_coords(&naive);
    let b = alive_coords(&hash);
    let c = alive_coords(&par);
    assert_eq!(a, b);
    assert_eq!(a, c);
    assert!(!a.is_empty());
}

#[test]
fn encoding_round_trip_dense_sparse_dense() {
    let cells = vec![true, false, false, true, true, false, false, false, true, false, true, true];
    let set = create_hashset(&cells, 4, 3);
    for (i, &alive) in cells.iter().enumerate() {
        assert_eq!(set.contains(&(i as u64)), alive);
    }
    let back = dense_from_hashset(&set, 4, 3);
    assert_eq!(back, cells);
}

#[test]
fn dead_grid_stays_dead() {
    for imp in [Implementation::Naive, Implementation::HashSet, Implementation::Parallel] {
        let mut u = grid_from(4, 4, &[], imp);
        u.game_of_life(6);
        assert!(alive_coords(&u).is_empty());
    }
}

#[test]
fn lone_cell_dies_in_one_generation() {
    for imp in [Implementation::Naive, Implementation::HashSet, Implementation::Parallel] {
        let mut u = grid_from(5, 5, &[(2, 2)], imp);
        u.tick();
        assert!(alive_coords(&u).is_empty());
    }
}

#[test]
fn blinker_oscillates() {
    let horizontal = [(1u32, 2u32), (2, 2), (3, 2)];
    let vertical = vec![(2u32, 1u32), (2, 2), (2, 3)];
    for imp in [Implementation::Naive, Implementation::HashSet, Implementation::Parallel] {
        let mut u = grid_from(5, 5, &horizontal, imp);
        u.tick();
        assert_eq!(alive_coords(&u), vertical);
        u.tick();
        let mut h = horizontal.to_vec();
        h.sort();
        assert_eq!(alive_coords(&u), h);
    }
}

#[test]
fn toroidal_wraparound_births_across_columns() {
    // three live cells hug the right seam; the birth at (0, 0) needs the
    // neighbors in the last column
    let mut u = grid_from(4, 3, &[(3, 0), (3, 1), (0, 1)], Implementation::Naive);
    u.tick();
    assert!(u.get_cell(0, 0));
    // and the mirror image births across the seam in the other direction
    let mut v = grid_from(4, 3, &[(0, 0), (0, 1), (3, 1)], Implementation::HashSet);
    v.tick();
    assert!(v.get_cell(0, 3));
}

#[test]
fn game_of_life_matches_repeated_ticks() {
    let pattern = [(1u32, 1u32), (2, 1), (3, 1), (3, 2), (2, 3)];
    let mut a = grid_from(6, 6, &pattern, Implementation::Naive);
    let mut b = grid_from(6, 6, &pattern, Implementation::Naive);
    a.game_of_life(3);
    b.tick();
    b.tick();
    b.tick();
    assert_eq!(alive_coords(&a), alive_coords(&b));
}

#[test]
fn game_of_life_zero_iterations_keeps_grid() {
    let pattern = [(0u32, 0u32), (1, 1)];
    let mut u = grid_from(3, 3, &pattern, Implementation::Parallel);
    u.game_of_life(0);
    assert_eq!(alive_coords(&u), pattern.to_vec());
}
