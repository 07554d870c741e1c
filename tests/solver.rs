use slide_puzzle::{find_swap_order, get_shuffle_sequence, initialize_fields, PuzzleError};

fn apply(fields: &mut Vec<u8>, moves: &[(usize, usize)]) {
    for &(a, b) in moves {
        fields.swap(a, b);
    }
}

#[test]
fn solver_test_find_swap_order_zero_moves() {
    let fields = vec![0, 1, 2, u8::MAX];
    let swap_order = find_swap_order(&fields, 2, 2);
    assert_eq!(swap_order, Ok(Vec::with_capacity(0)));
}

#[test]
fn solver_test_find_swap_order_one_move() {
    let fields = vec![0, 1, u8::MAX, 2];
    let swap_order = find_swap_order(&fields, 2, 2);
    assert_eq!(swap_order, Ok(vec![(2, 3)]));
}

#[test]
fn solver_test_find_swap_order_four_swaps() {
    let fields = vec![u8::MAX, 1, 2, 0, 3, 5, 6, 4, 7];
    let swap_order = find_swap_order(&fields, 3, 3);
    assert_eq!(swap_order, Ok(vec![(0, 3), (3, 4), (4, 7), (7, 8)]));
}

#[test]
fn optimal_test_find_swap_order_zero_moves() {
    let fields = vec![0, 1, 2, u8::MAX];
    let swap_order = find_swap_order(&fields, 2, 2);
    assert_eq!(swap_order, Ok(Vec::with_capacity(0)));
}

#[test]
fn optimal_test_find_swap_order_one_move() {
    let fields = vec![0, 1, u8::MAX, 2];
    let swap_order = find_swap_order(&fields, 2, 2);
    assert_eq!(swap_order, Ok(vec![(2, 3)]));
}

#[test]
fn optimal_test_find_swap_order_four_swaps() {
    let fields = vec![u8::MAX, 1, 2, 0, 3, 5, 6, 4, 7];
    let swap_order = find_swap_order(&fields, 3, 3);
    assert_eq!(swap_order, Ok(vec![(0, 3), (3, 4), (4, 7), (7, 8)]));
}

#[test]
fn unreachable_board_has_no_solution() {
    // Two tiles exchanged: the wrong parity for any sequence of slides.
    let fields = vec![1, 0, 2, u8::MAX];
    assert_eq!(find_swap_order(&fields, 2, 2), Err(PuzzleError::NoSolutionFound));
}

#[test]
fn solver_rejects_bad_dimensions() {
    let fields = vec![0, 1, 2, u8::MAX];
    assert_eq!(find_swap_order(&fields, 0, 4), Err(PuzzleError::InvalidDimensions));
    assert_eq!(find_swap_order(&fields, 4, 0), Err(PuzzleError::InvalidDimensions));
    assert_eq!(find_swap_order(&fields, 3, 2), Err(PuzzleError::InvalidDimensions));
    let big: Vec<u8> = vec![0; 17 * 17];
    assert_eq!(find_swap_order(&big, 17, 17), Err(PuzzleError::InvalidDimensions));
}

#[test]
fn solver_rejects_corrupt_state() {
    assert_eq!(find_swap_order(&[0, 0, 2, u8::MAX], 2, 2), Err(PuzzleError::ValueNotFound));
    assert_eq!(find_swap_order(&[0, 1, 2, 3], 2, 2), Err(PuzzleError::ValueNotFound));
    assert_eq!(find_swap_order(&[0, 1, 7, u8::MAX], 2, 2), Err(PuzzleError::ValueNotFound));
}

#[test]
fn single_cell_board_is_solved() {
    assert_eq!(find_swap_order(&[u8::MAX], 1, 1), Ok(vec![]));
}

#[test]
fn shuffled_board_is_solved_by_solver() {
    let draws: Vec<usize> = vec![3, 1, 4, 1, 5, 9, 2, 6, 5, 3, 5, 8];
    let moves = get_shuffle_sequence(3, 3, 8, &draws).unwrap();
    assert_eq!(moves.len(), draws.len());
    let mut board = initialize_fields(9);
    apply(&mut board, &moves);
    let solution = find_swap_order(&board, 3, 3).unwrap();
    assert!(solution.len() <= moves.len());
    apply(&mut board, &solution);
    assert_eq!(board, initialize_fields(9));
}

#[test]
fn shuffled_wide_board_is_solved_by_solver() {
    let draws: Vec<usize> = vec![7, 0, 2, 11, 4, 4, 1, 9];
    let moves = get_shuffle_sequence(4, 2, 7, &draws).unwrap();
    let mut board = initialize_fields(8);
    apply(&mut board, &moves);
    let solution = find_swap_order(&board, 4, 2).unwrap();
    apply(&mut board, &solution);
    assert_eq!(board, initialize_fields(8));
}

#[test]
fn solving_a_solution_again_gives_nothing() {
    let fields = vec![u8::MAX, 1, 2, 0, 3, 5, 6, 4, 7];
    let solution = find_swap_order(&fields, 3, 3).unwrap();
    let mut board = fields.clone();
    apply(&mut board, &solution);
    assert_eq!(find_swap_order(&board, 3, 3), Ok(vec![]));
}

#[test]
fn solution_is_shortest_for_two_slides() {
    // Empty cell two steps from home along the bottom row.
    let fields = vec![0, 1, 2, 3, 4, 5, u8::MAX, 6, 7];
    assert_eq!(find_swap_order(&fields, 3, 3), Ok(vec![(6, 7), (7, 8)]));
}

#[test]
fn ties_go_to_the_earlier_direction() {
    // Two shortest solutions exist; the one whose first differing move goes
    // down rather than right comes back.
    let fields = vec![u8::MAX, 2, 1, 0];
    assert_eq!(
        find_swap_order(&fields, 2, 2),
        Ok(vec![(0, 2), (2, 3), (3, 1), (1, 0), (0, 2), (2, 3)])
    );
}
