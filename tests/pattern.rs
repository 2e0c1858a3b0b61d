use game_of_life::pattern::parse_starting_cells;

#[test]
fn parses_listed_pairs_in_order() {
    assert_eq!(
        parse_starting_cells("1,0;1,1;1,2"),
        Some(vec![[1, 0], [1, 1], [1, 2]])
    );
}

#[test]
fn parses_single_pair_and_bounds() {
    assert_eq!(parse_starting_cells("0,255"), Some(vec![[0, 255]]));
    assert_eq!(parse_starting_cells("+7,007"), Some(vec![[7, 7]]));
}

#[test]
fn extra_pieces_of_an_item_are_not_read() {
    assert_eq!(parse_starting_cells("3,4,9"), Some(vec![[3, 4]]));
}

#[test]
fn rejects_malformed_items() {
    assert_eq!(parse_starting_cells(""), None);
    assert_eq!(parse_starting_cells("1,2;"), None);
    assert_eq!(parse_starting_cells("1"), None);
    assert_eq!(parse_starting_cells("1,256"), None);
    assert_eq!(parse_starting_cells("1,-2"), None);
    assert_eq!(parse_starting_cells("a,2"), None);
    assert_eq!(parse_starting_cells("1, 2"), None);
    assert_eq!(parse_starting_cells("+,2"), None);
}

#[test]
fn parsed_cells_start_a_game() {
    let cells = parse_starting_cells("1,0;1,1;1,2").unwrap();
    let mut game = game_of_life::gameoflife::Game::new(3, 3, cells);
    game.update();
    assert!(game.is_alive(0, 1) && game.is_alive(1, 1) && game.is_alive(2, 1));
    assert!(!game.is_alive(1, 0) && !game.is_alive(1, 2));
}
