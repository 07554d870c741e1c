use slide_puzzle::{
    get_coords_from_idx, get_idx_from_coords, get_idx_from_row_col, get_idx_of_val, get_left_top,
    get_row_col_from_idx, get_shuffle_sequence, get_swappable_neighbours, in_bounds,
    initialize_fields, trigger_field, Coords, PuzzleError, SENTINEL,
};

#[test]
fn row_col_round_trip() {
    assert_eq!(get_row_col_from_idx(7, 3), (2, 1));
    assert_eq!(get_idx_from_row_col(2, 1, 3), 7);
    assert_eq!(get_coords_from_idx(5, 4), Coords { row: 1, col: 1 });
    assert_eq!(get_idx_from_coords(Coords { row: 3, col: 2 }, 4), 14);
}

#[test]
fn left_top_scales_column_and_row() {
    assert_eq!(get_left_top(5, 3, 10), (20, 10));
    assert_eq!(get_left_top(0, 3, 10), (0, 0));
}

#[test]
fn bounds_accept_negative_probes() {
    assert!(in_bounds(0, 0, 3, 2));
    assert!(in_bounds(1, 2, 3, 2));
    assert!(!in_bounds(-1, 0, 3, 2));
    assert!(!in_bounds(0, -1, 3, 2));
    assert!(!in_bounds(2, 0, 3, 2));
    assert!(!in_bounds(0, 3, 3, 2));
}

#[test]
fn initialize_gives_solved_board() {
    assert_eq!(initialize_fields(4), vec![0, 1, 2, SENTINEL]);
    assert_eq!(initialize_fields(1), vec![SENTINEL]);
    let full = initialize_fields(256);
    assert_eq!(full.len(), 256);
    assert_eq!(full[254], 254);
    assert_eq!(full[255], SENTINEL);
}

#[test]
fn idx_of_val_finds_first() {
    assert_eq!(get_idx_of_val(&[4, 2, 255, 2], 2), Ok(1));
    assert_eq!(get_idx_of_val(&[4, 2, 255, 2], 255), Ok(2));
    assert_eq!(get_idx_of_val(&[4, 2, 255, 2], 3), Err(PuzzleError::ValueNotFound));
}

#[test]
fn neighbours_in_fixed_order() {
    assert_eq!(get_swappable_neighbours(3, 3, 4), Ok(vec![1, 7, 3, 5]));
    assert_eq!(get_swappable_neighbours(3, 3, 0), Ok(vec![3, 1]));
    assert_eq!(get_swappable_neighbours(3, 3, 8), Ok(vec![5, 7]));
    assert_eq!(get_swappable_neighbours(3, 3, 1), Ok(vec![4, 0, 2]));
    assert_eq!(get_swappable_neighbours(3, 2, 5), Ok(vec![2, 4]));
}

#[test]
fn neighbour_counts_by_position() {
    for (w, h) in [(2usize, 2usize), (3, 3), (4, 3), (2, 5), (16, 16)] {
        for idx in 0..w * h {
            let (row, col) = (idx / w, idx % w);
            let border_row = row == 0 || row == h - 1;
            let border_col = col == 0 || col == w - 1;
            let expected = match (border_row, border_col) {
                (true, true) => 2,
                (false, false) => 4,
                _ => 3,
            };
            assert_eq!(get_swappable_neighbours(w, h, idx).unwrap().len(), expected);
        }
    }
}

#[test]
fn neighbours_reject_bad_dimensions() {
    assert_eq!(get_swappable_neighbours(0, 3, 0), Err(PuzzleError::InvalidDimensions));
    assert_eq!(get_swappable_neighbours(3, 0, 0), Err(PuzzleError::InvalidDimensions));
    assert_eq!(get_swappable_neighbours(17, 16, 0), Err(PuzzleError::InvalidDimensions));
}

#[test]
fn click_next_to_empty_moves_tile() {
    let fields = vec![0, 1, 2, 3, SENTINEL, 5, 6, 4, 7];
    assert_eq!(trigger_field(&fields, 3, 3, 7), vec![0, 1, 2, 3, 4, 5, 6, SENTINEL, 7]);
    assert_eq!(trigger_field(&fields, 3, 3, 3), vec![0, 1, 2, SENTINEL, 3, 5, 6, 4, 7]);
}

#[test]
fn click_on_empty_changes_nothing() {
    let fields = vec![0, 1, 2, 3, SENTINEL, 5, 6, 4, 7];
    assert_eq!(trigger_field(&fields, 3, 3, 4), fields);
}

#[test]
fn click_far_from_empty_changes_nothing() {
    let fields = vec![0, 1, 2, 3, SENTINEL, 5, 6, 4, 7];
    assert_eq!(trigger_field(&fields, 3, 3, 0), fields);
    assert_eq!(trigger_field(&fields, 3, 3, 8), fields);
    assert_eq!(trigger_field(&fields, 3, 3, 42), fields);
}

#[test]
fn shuffle_follows_draws() {
    assert_eq!(get_shuffle_sequence(2, 2, 3, &[0, 5, 7]), Ok(vec![(3, 1), (1, 0), (0, 2)]));
    assert_eq!(get_shuffle_sequence(2, 2, 3, &[1]), Ok(vec![(3, 2)]));
}

#[test]
fn shuffle_never_undoes_last_move_when_it_can_avoid_it() {
    let draws: Vec<usize> = (0..40).map(|i| (i * 7 + 3) % 11).collect();
    let moves = get_shuffle_sequence(3, 3, 8, &draws).unwrap();
    assert_eq!(moves.len(), 40);
    assert_eq!(moves[0].0, 8);
    for pair in moves.windows(2) {
        assert_eq!(pair[1].0, pair[0].1);
        assert_ne!(pair[1].1, pair[0].0);
    }
}

#[test]
fn shuffle_on_narrow_board_may_go_back() {
    assert_eq!(get_shuffle_sequence(2, 1, 1, &[0, 0, 0]), Ok(vec![(1, 0), (0, 1), (1, 0)]));
    assert_eq!(get_shuffle_sequence(1, 1, 0, &[0, 1]), Ok(vec![]));
}

#[test]
fn shuffle_rejects_bad_input() {
    assert_eq!(get_shuffle_sequence(0, 2, 0, &[0]), Err(PuzzleError::InvalidDimensions));
    assert_eq!(get_shuffle_sequence(2, 2, 4, &[0]), Err(PuzzleError::InvalidDimensions));
}
