use sudoku_solver_and_generator::board::{Board, Position, N};

fn pos(row: usize, col: usize) -> Position {
    Position::new(row, col).unwrap()
}

#[test]
fn position_new_accepts_cells_of_the_grid() {
    let p = pos(1, 9);
    assert_eq!(p.row(), 1);
    assert_eq!(p.col(), 9);
    assert_eq!(p.coords(), (0, 8));
    let q = pos(9, 1);
    assert_eq!(q.row(), 9);
    assert_eq!(q.col(), 1);
}

#[test]
fn position_new_refuses_coordinates_off_the_grid() {
    assert!(Position::new(0, 1).is_none());
    assert!(Position::new(1, 0).is_none());
    assert!(Position::new(N + 1, 1).is_none());
    assert!(Position::new(1, N + 1).is_none());
    assert!(Position::new(usize::MAX, usize::MAX).is_none());
}

#[test]
fn position_equality_is_by_row_and_column() {
    assert_eq!(pos(3, 4), pos(3, 4));
    assert_ne!(pos(3, 4), pos(4, 3));
}

#[test]
fn position_index_counts_down_the_columns() {
    assert_eq!(pos(1, 1).index(), 0);
    assert_eq!(pos(2, 1).index(), 1);
    assert_eq!(pos(1, 2).index(), 9);
    assert_eq!(pos(9, 9).index(), 80);
    assert_eq!(pos(4, 7).index(), 3 + 6 * 9);
}

#[test]
fn position_from_index_inverts_index() {
    for i in 0..81 {
        let p = Position::from_index(i).unwrap();
        assert_eq!(p.index(), i);
    }
    assert_eq!(Position::from_index(10), Some(pos(2, 2)));
    assert!(Position::from_index(81).is_none());
    assert!(Position::from_index(usize::MAX).is_none());
}

#[test]
fn position_default_color_alternates_by_block() {
    assert_eq!(pos(1, 1).default_color(3, 3), 7);
    assert_eq!(pos(3, 3).default_color(3, 3), 7);
    assert_eq!(pos(1, 4).default_color(3, 3), 8);
    assert_eq!(pos(4, 1).default_color(3, 3), 8);
    assert_eq!(pos(4, 4).default_color(3, 3), 7);
    assert_eq!(pos(9, 9).default_color(3, 3), 7);
    assert_eq!(pos(9, 9).default_color(2, 4), 7 + ((8 / 2 + 8 / 4) % 2));
}

#[test]
fn board_starts_empty() {
    let b = Board::new(4);
    assert_eq!(b.get_side(), 4);
    assert_eq!(b.get_size(), 16);
    for r in 1..=4 {
        for c in 1..=4 {
            assert_eq!(b.get_value(pos(r, c)), 0);
        }
    }
    assert!(!b.is_filled());
}

#[test]
fn board_of_side_zero_is_full() {
    let b = Board::new(0);
    assert_eq!(b.get_size(), 0);
    assert!(b.is_filled());
}

#[test]
fn board_set_get_clear() {
    let mut b = Board::new(4);
    let p = pos(2, 3);
    b.set_value(p, 4);
    assert_eq!(b.get_value(p), 4);
    assert_eq!(b.get_value(pos(3, 2)), 0);
    b.set_value(p, 2);
    assert_eq!(b.get_value(p), 2);
    b.clear_value(p);
    assert_eq!(b.get_value(p), 0);
    b.clear_value(p);
    assert_eq!(b.get_value(p), 0);
}

#[test]
fn board_accepts_values_beyond_its_side() {
    let mut b = Board::new(2);
    b.set_value(pos(1, 1), 77);
    assert_eq!(b.get_value(pos(1, 1)), 77);
}

#[test]
fn board_is_filled_follows_the_content() {
    let mut b = Board::new(2);
    b.set_value(pos(1, 1), 1);
    b.set_value(pos(1, 2), 2);
    b.set_value(pos(2, 1), 2);
    assert!(!b.is_filled());
    b.set_value(pos(2, 2), 1);
    assert!(b.is_filled());
    b.set_value(pos(2, 2), 2);
    assert!(b.is_filled());
    b.set_value(pos(1, 1), 0);
    assert!(!b.is_filled());
    b.set_value(pos(1, 1), 0);
    b.set_value(pos(1, 1), 5);
    assert!(b.is_filled());
}

#[test]
fn board_clone_is_independent() {
    let mut b = Board::new(3);
    b.set_value(pos(1, 1), 3);
    let mut copy = b.clone();
    copy.set_value(pos(1, 1), 1);
    copy.set_value(pos(2, 2), 2);
    assert_eq!(b.get_value(pos(1, 1)), 3);
    assert_eq!(b.get_value(pos(2, 2)), 0);
    assert_eq!(copy.get_value(pos(1, 1)), 1);
}

#[test]
fn board_rows_round_trip() {
    let mut b = Board::new(3);
    b.set_value(pos(1, 2), 3);
    b.set_value(pos(3, 1), 2);
    let rows = b.rows();
    assert_eq!(rows, vec![vec![0, 3, 0], vec![0, 0, 0], vec![2, 0, 0]]);
    let back = Board::from_rows(rows).unwrap();
    assert_eq!(back.get_side(), 3);
    assert_eq!(back.get_value(pos(1, 2)), 3);
    assert_eq!(back.get_value(pos(3, 1)), 2);
    assert_eq!(back.get_value(pos(2, 2)), 0);
    assert!(!back.is_filled());
}

#[test]
fn board_from_rows_counts_the_filled_cells() {
    let full = Board::from_rows(vec![vec![1, 2], vec![2, 1]]).unwrap();
    assert!(full.is_filled());
    let mut part = Board::from_rows(vec![vec![1, 0], vec![2, 1]]).unwrap();
    assert!(!part.is_filled());
    part.set_value(pos(1, 2), 2);
    assert!(part.is_filled());
}

#[test]
fn board_from_rows_refuses_what_is_not_square() {
    assert!(Board::from_rows(vec![vec![1, 2], vec![2]]).is_none());
    assert!(Board::from_rows(vec![vec![1, 2, 3], vec![2, 3, 1]]).is_none());
    assert!(Board::from_rows(vec![vec![]]).is_none());
    assert!(Board::from_rows(vec![]).is_some());
}

#[test]
fn board_text_shows_rows_and_gaps() {
    let mut b = Board::new(3);
    b.set_value(pos(1, 2), 3);
    b.set_value(pos(3, 1), 12);
    assert_eq!(b.to_text(), "_ 3 _ \n_ _ _ \n12 _ _ \n\n");
    assert_eq!(Board::new(0).to_text(), "\n");
    assert_eq!(Board::new(1).to_text(), "_ \n\n");
}
