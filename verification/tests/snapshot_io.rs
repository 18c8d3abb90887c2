use game_of_life::snapshot::{from_snapshot, parse_snapshot, render_snapshot, SnapshotError};
use game_of_life::universe::{Implementation, Universe};

fn grid_from(width: u32, height: u32, alive: &[(u32, u32)], imp: Implementation) -> Universe {
    let mut cells = vec![false; (width * height) as usize];
    for &(x, y) in alive {
        cells[(y * width + x) as usize] = true;
    }
    Universe::from_cells(width, height, cells, imp)
}

#[test]
fn render_exact_text() {
    let u = grid_from(2, 2, &[(0, 0), (1, 1)], Implementation::Naive);
    let out = render_snapshot(&u, 0);
    assert_eq!(out, b"2 2 0\nO.\n.O\n".to_vec());
}

#[test]
fn render_multi_digit_header() {
    let u = grid_from(12, 1, &[(10, 0)], Implementation::Naive);
    let out = render_snapshot(&u, 305);
    assert_eq!(out, b"12 1 305\n..........O.\n".to_vec());
}

#[test]
fn snapshot_round_trip_reproduces_grid() {
    let pattern = [(0u32, 0u32), (2, 1), (3, 3), (1, 2)];
    let u = grid_from(4, 4, &pattern, Implementation::HashSet);
    let text = render_snapshot(&u, 17);
    let snap = parse_snapshot(4, 4, &text).unwrap();
    assert_eq!(snap.iterations, 17);
    for y in 0..4u32 {
        for x in 0..4u32 {
            assert_eq!(snap.cells[(y * 4 + x) as usize], u.get_cell(y, x));
        }
    }
}

#[test]
fn from_snapshot_builds_matching_universe() {
    let data = b"3 3 5\n.O.\n.O.\n.O.\n".to_vec();
    let (u, prev) = from_snapshot(3, 3, Implementation::Parallel, &data).unwrap();
    assert_eq!(prev, 5);
    assert!(u.get_cell(0, 1) && u.get_cell(1, 1) && u.get_cell(2, 1));
    assert!(!u.get_cell(1, 0) && !u.get_cell(1, 2));
}

#[test]
fn mismatched_dimensions_fail() {
    let u = grid_from(5, 4, &[(1, 1)], Implementation::Naive);
    let text = render_snapshot(&u, 0);
    assert_eq!(parse_snapshot(4, 5, &text).unwrap_err(), SnapshotError::Mismatch);
    let data = b"3 3 7\nOOO\nOOO\nOOO\n".to_vec();
    assert_eq!(parse_snapshot(4, 3, &data).unwrap_err(), SnapshotError::Mismatch);
    assert_eq!(parse_snapshot(3, 4, &data).unwrap_err(), SnapshotError::Mismatch);
}

#[test]
fn wrong_field_count_fails_as_mismatch() {
    let two = b"3 3\nOOO\n".to_vec();
    assert_eq!(parse_snapshot(3, 3, &two).unwrap_err(), SnapshotError::Mismatch);
    let four = b"3 3 1 9\nOOO\n".to_vec();
    assert_eq!(parse_snapshot(3, 3, &four).unwrap_err(), SnapshotError::Mismatch);
}

#[test]
fn non_numeric_header_fails_as_parse_error() {
    let data = b"a b c\n...\n".to_vec();
    assert_eq!(parse_snapshot(3, 1, &data).unwrap_err(), SnapshotError::Parse);
    let empty = Vec::new();
    assert_eq!(parse_snapshot(3, 1, &empty).unwrap_err(), SnapshotError::Parse);
    let overflow = b"2 2 4294967296\nOO\nOO\n".to_vec();
    assert_eq!(parse_snapshot(2, 2, &overflow).unwrap_err(), SnapshotError::Parse);
}

#[test]
fn largest_header_value_is_accepted() {
    let data = b"2 1 4294967295\nO.\n".to_vec();
    let snap = parse_snapshot(2, 1, &data).unwrap();
    assert_eq!(snap.iterations, u32::MAX);
    assert_eq!(snap.cells, vec![true, false]);
}

#[test]
fn short_rows_and_missing_lines_stay_dead() {
    let data = b"3 3 0\nO\n".to_vec();
    let snap = parse_snapshot(3, 3, &data).unwrap();
    assert_eq!(
        snap.cells,
        vec![true, false, false, false, false, false, false, false, false]
    );
}

#[test]
fn extra_rows_and_columns_are_ignored() {
    let data = b"2 2 5\nOOOX\nOO\nOOOO\njunk beyond the matrix\n".to_vec();
    let snap = parse_snapshot(2, 2, &data).unwrap();
    assert_eq!(snap.cells, vec![true, true, true, true]);
    assert_eq!(snap.iterations, 5);
}

#[test]
fn non_alive_characters_count_as_dead() {
    let data = b"4 1 0\nOx O\n".to_vec();
    let snap = parse_snapshot(4, 1, &data).unwrap();
    assert_eq!(snap.cells, vec![true, false, false, true]);
}

#[test]
fn header_tolerates_extra_whitespace() {
    let data = b"  3\t1   2 \n.O.\n".to_vec();
    let snap = parse_snapshot(3, 1, &data).unwrap();
    assert_eq!(snap.iterations, 2);
    assert_eq!(snap.cells, vec![false, true, false]);
}

#[test]
fn run_then_round_trip() {
    let mut u = grid_from(5, 5, &[(1, 2), (2, 2), (3, 2)], Implementation::Naive);
    u.game_of_life(2);
    let text = render_snapshot(&u, 2);
    let (v, prev) = from_snapshot(5, 5, Implementation::HashSet, &text).unwrap();
    assert_eq!(prev, 2);
    for y in 0..5u32 {
        for x in 0..5u32 {
            assert_eq!(v.get_cell(y, x), u.get_cell(y, x));
        }
    }
}
