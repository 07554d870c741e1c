use slide_puzzle::{apply_swaps, SlidePuzzle, SlidePuzzleMsg, SENTINEL};

fn puzzle() -> SlidePuzzle {
    SlidePuzzle::create(3, 3, "tiles.png".to_string())
}

#[test]
fn create_starts_solved() {
    let p = puzzle();
    assert_eq!(p.fields(), &vec![0, 1, 2, 3, 4, 5, 6, 7, SENTINEL]);
    assert_eq!((p.width(), p.height()), (3, 3));
    assert_eq!(p.background_url(), "tiles.png");
}

#[test]
fn swap_message_exchanges_cells() {
    let mut p = puzzle();
    assert!(p.update(SlidePuzzleMsg::Swap((8, 5))));
    assert_eq!(p.fields(), &vec![0, 1, 2, 3, 4, SENTINEL, 6, 7, 5]);
    assert!(!p.update(SlidePuzzleMsg::Swap((4, 4))));
    assert_eq!(p.fields(), &vec![0, 1, 2, 3, 4, SENTINEL, 6, 7, 5]);
}

#[test]
fn swap_of_equal_values_still_reports_change() {
    let mut p = puzzle();
    assert!(p.update(SlidePuzzleMsg::CompleteFieldsUpdate(vec![3, 3, 0, 1, 2, 4, 5, 6, SENTINEL])));
    assert!(p.update(SlidePuzzleMsg::Swap((0, 1))));
    assert_eq!(p.fields(), &vec![3, 3, 0, 1, 2, 4, 5, 6, SENTINEL]);
}

#[test]
fn click_message_slides_tile() {
    let mut p = puzzle();
    assert!(p.update(SlidePuzzleMsg::ClickedField(7)));
    assert_eq!(p.fields(), &vec![0, 1, 2, 3, 4, 5, 6, SENTINEL, 7]);
    assert!(!p.update(SlidePuzzleMsg::ClickedField(0)));
    assert!(!p.update(SlidePuzzleMsg::ClickedField(7)));
}

#[test]
fn dimension_messages_reset_board() {
    let mut p = puzzle();
    p.update(SlidePuzzleMsg::ClickedField(7));
    assert!(p.update(SlidePuzzleMsg::WidthUpdate(2)));
    assert_eq!(p.fields(), &vec![0, 1, 2, 3, 4, SENTINEL]);
    assert!(!p.update(SlidePuzzleMsg::WidthUpdate(2)));
    assert!(p.update(SlidePuzzleMsg::HeightUpdate(2)));
    assert_eq!(p.fields(), &vec![0, 1, 2, SENTINEL]);
    assert!(!p.update(SlidePuzzleMsg::HeightUpdate(0)));
    assert!(!p.update(SlidePuzzleMsg::WidthUpdate(200)));
    assert_eq!((p.width(), p.height()), (2, 2));
}

#[test]
fn background_and_board_replacement() {
    let mut p = puzzle();
    assert!(!p.update(SlidePuzzleMsg::BackgroundUrlUpdate("tiles.png".to_string())));
    assert!(p.update(SlidePuzzleMsg::BackgroundUrlUpdate("cat.png".to_string())));
    assert_eq!(p.background_url(), "cat.png");
    let same = p.fields().clone();
    assert!(!p.update(SlidePuzzleMsg::CompleteFieldsUpdate(same)));
    let other = vec![SENTINEL, 1, 2, 0, 3, 5, 6, 4, 7];
    assert!(p.update(SlidePuzzleMsg::CompleteFieldsUpdate(other.clone())));
    assert_eq!(p.fields(), &other);
}

#[test]
fn apply_swaps_in_order() {
    let mut fields = vec![0, 1, 2, 3, 4, 5, 6, 7, SENTINEL];
    apply_swaps(&mut fields, &[(8, 7), (7, 4), (4, 3)]);
    assert_eq!(fields, vec![0, 1, 2, SENTINEL, 3, 5, 6, 4, 7]);
}
