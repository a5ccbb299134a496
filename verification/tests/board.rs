use aislobsterble::board::GameBoard;
use aislobsterble::board::PlacementError;
use aislobsterble::serializers::BoardLayoutSerializer;
use aislobsterble::serializers::GameSerializer;
use aislobsterble::serializers::ModifierSerializer;
use aislobsterble::serializers::PlayedTileSerializer;
use aislobsterble::serializers::PositionedModifierSerializer;
use aislobsterble::serializers::TileSerializer;
use aislobsterble::tiles::Axis;
use aislobsterble::tiles::Coordinates;
use aislobsterble::tiles::Tile;

fn snapshot(
    rows: i32,
    columns: i32,
    modifiers: Vec<PositionedModifierSerializer>,
    board_state: Vec<PlayedTileSerializer>,
) -> GameSerializer {
    GameSerializer {
        board_state,
        game_players: Vec::new(),
        board_layout: BoardLayoutSerializer { rows, columns, modifiers },
        turn_number: 0,
        whose_turn_name: String::from("someone"),
        num_tiles_remaining: 0,
        rack: Vec::new(),
        prev_move: None,
        fetcher_player_id: 0,
    }
}

fn fixed_tile(row: i32, column: i32, letter: &str, value: i32) -> PlayedTileSerializer {
    PlayedTileSerializer {
        tile: TileSerializer { letter: Some(String::from(letter)), is_blank: false, value },
        row,
        column,
    }
}

fn positioned_modifier(
    row: i32,
    column: i32,
    letter_multiplier: i32,
    word_multiplier: i32,
) -> PositionedModifierSerializer {
    PositionedModifierSerializer {
        row,
        column,
        modifier: ModifierSerializer { word_multiplier, letter_multiplier },
    }
}

#[test]
fn out_of_bounds_coordinates_are_rejected() {
    let board = GameBoard::new(&snapshot(15, 15, Vec::new(), Vec::new()));
    assert_eq!(board.get_rows(), 15);
    assert_eq!(board.get_columns(), 15);
    assert_eq!(board.is_occupied(&Coordinates::new(-1, 0)), Err(PlacementError::OutOfBounds));
    assert_eq!(board.is_occupied(&Coordinates::new(0, 15)), Err(PlacementError::OutOfBounds));
    assert_eq!(board.is_occupied(&Coordinates::new(3, 3)), Ok(false));
}

#[test]
fn occupied_start_always_fails_start_occupied() {
    let board = GameBoard::new(&snapshot(
        15,
        15,
        Vec::new(),
        vec![fixed_tile(7, 7, "B", 3)],
    ));
    assert_eq!(board.is_occupied(&Coordinates::new(7, 7)), Ok(true));
    let tile = Tile { letter: Some('A'), is_blank: false, value: 1 };
    let result = board.build_played_tiles(&Coordinates::new(7, 7), vec![&tile], &Axis::Horizontal);
    assert_eq!(result, Err(PlacementError::StartOccupied));
    let vertical = board.build_played_tiles(&Coordinates::new(7, 7), vec![&tile], &Axis::Vertical);
    assert_eq!(vertical, Err(PlacementError::StartOccupied));
}

#[test]
fn walking_off_the_grid_fails_out_of_bounds() {
    let board = GameBoard::new(&snapshot(3, 3, Vec::new(), Vec::new()));
    let tile = Tile { letter: Some('A'), is_blank: false, value: 1 };
    let tiles = vec![&tile, &tile, &tile, &tile];
    let result = board.build_played_tiles(&Coordinates::new(0, 0), tiles, &Axis::Horizontal);
    assert_eq!(result, Err(PlacementError::OutOfBounds));
}

#[test]
fn placement_skips_over_fixed_tiles() {
    let board = GameBoard::new(&snapshot(
        15,
        15,
        Vec::new(),
        vec![fixed_tile(7, 7, "B", 3)],
    ));
    let c = Tile { letter: Some('C'), is_blank: false, value: 3 };
    let a = Tile { letter: Some('A'), is_blank: false, value: 1 };
    let placed = board
        .build_played_tiles(&Coordinates::new(7, 6), vec![&c, &a], &Axis::Horizontal)
        .unwrap();
    assert_eq!(placed.len(), 2);
    assert_eq!(placed[0].get_coordinates_ref().get_column(), 6);
    // The occupied cell (7, 7) is skipped over, not placed upon.
    assert_eq!(placed[1].get_coordinates_ref().get_column(), 8);
    let words = board.words_created(&placed);
    assert_eq!(words, vec![String::from("CBA")]);
    // Fixed tiles contribute their raw value and no multiplier.
    assert_eq!(board.score(&placed), 3 + 3 + 1);
    assert!(board.is_connected(&placed));
    assert!(board.is_continuous(&placed));
}

#[test]
fn cat_through_center_scores_with_modifiers() {
    // Double-letter on the centre cell for the A, and a word multiplier of
    // three read from the same cell.
    let board = GameBoard::new(&snapshot(
        15,
        15,
        vec![positioned_modifier(7, 7, 2, 3)],
        Vec::new(),
    ));
    let c = Tile { letter: Some('C'), is_blank: false, value: 3 };
    let a = Tile { letter: Some('A'), is_blank: false, value: 1 };
    let t = Tile { letter: Some('T'), is_blank: false, value: 1 };
    let placed = board
        .build_played_tiles(&Coordinates::new(7, 6), vec![&c, &a, &t], &Axis::Horizontal)
        .unwrap();
    assert_eq!(placed.len(), 3);
    assert!(board.is_through_center(&placed));
    assert!(board.is_available(&placed));
    assert_eq!(board.words_created(&placed), vec![String::from("CAT")]);
    assert_eq!(board.score(&placed), (3 + 1 * 2 + 1) * 3);
}

#[test]
fn score_is_invariant_under_reordering() {
    let board = GameBoard::new(&snapshot(
        15,
        15,
        vec![positioned_modifier(7, 6, 1, 2)],
        Vec::new(),
    ));
    let c = Tile { letter: Some('C'), is_blank: false, value: 3 };
    let a = Tile { letter: Some('A'), is_blank: false, value: 1 };
    let t = Tile { letter: Some('T'), is_blank: false, value: 1 };
    let placed = board
        .build_played_tiles(&Coordinates::new(7, 6), vec![&c, &a, &t], &Axis::Horizontal)
        .unwrap();
    let mut shuffled = placed.clone();
    shuffled.reverse();
    assert_eq!(board.score(&placed), board.score(&shuffled));
    let mut rotated = placed.clone();
    rotated.rotate_left(1);
    assert_eq!(board.score(&placed), board.score(&rotated));
}

#[test]
fn seven_tiles_add_the_bonus() {
    let board = GameBoard::new(&snapshot(15, 15, Vec::new(), Vec::new()));
    let a = Tile { letter: Some('A'), is_blank: false, value: 1 };
    let tiles = vec![&a, &a, &a, &a, &a, &a, &a];
    let placed = board
        .build_played_tiles(&Coordinates::new(7, 4), tiles, &Axis::Horizontal)
        .unwrap();
    assert_eq!(placed.len(), 7);
    // Non-bonus sub-score of seven unit tiles, plus the fixed 50 bonus.
    assert_eq!(board.score(&placed), 7 + 50);
}

#[test]
fn cross_words_are_reported_and_scored() {
    let board = GameBoard::new(&snapshot(
        15,
        15,
        Vec::new(),
        vec![fixed_tile(8, 7, "T", 1)],
    ));
    let a = Tile { letter: Some('A'), is_blank: false, value: 1 };
    let n = Tile { letter: Some('N'), is_blank: false, value: 1 };
    // AN across (7, 7)-(7, 8); the A over fixed T below forms "AT".
    let placed = board
        .build_played_tiles(&Coordinates::new(7, 7), vec![&a, &n], &Axis::Horizontal)
        .unwrap();
    let words = board.words_created(&placed);
    assert_eq!(words, vec![String::from("AN"), String::from("AT")]);
    // Secondary word AT (1 + 1) plus primary word AN (1 + 1).
    assert_eq!(board.score(&placed), 2 + 2);
}

#[test]
fn later_snapshot_entries_win_and_off_grid_entries_are_ignored() {
    let board = GameBoard::new(&snapshot(
        15,
        15,
        vec![
            positioned_modifier(7, 7, 3, 1),
            positioned_modifier(7, 7, 2, 1),
            positioned_modifier(99, 99, 3, 3),
        ],
        Vec::new(),
    ));
    let a = Tile { letter: Some('A'), is_blank: false, value: 1 };
    let placed = board
        .build_played_tiles(&Coordinates::new(7, 7), vec![&a], &Axis::Horizontal)
        .unwrap();
    // The later (7, 7) modifier, a double letter, is the one in force.
    assert_eq!(board.score(&placed), 2);
}

#[test]
fn disconnected_placement_is_not_continuous_or_connected() {
    let board = GameBoard::new(&snapshot(15, 15, Vec::new(), Vec::new()));
    let a = Tile { letter: Some('A'), is_blank: false, value: 1 };
    let placed = board
        .build_played_tiles(&Coordinates::new(0, 0), vec![&a], &Axis::Horizontal)
        .unwrap();
    assert!(!board.is_connected(&placed));
    assert!(!board.is_through_center(&placed));
}

#[test]
fn build_word_reads_fixed_and_placed_letters() {
    let board = GameBoard::new(&snapshot(
        15,
        15,
        Vec::new(),
        vec![fixed_tile(7, 7, "B", 3)],
    ));
    let c = Tile { letter: Some('C'), is_blank: false, value: 3 };
    let a = Tile { letter: Some('A'), is_blank: false, value: 1 };
    let placed = board
        .build_played_tiles(&Coordinates::new(7, 6), vec![&c, &a], &Axis::Horizontal)
        .unwrap();
    let word = board.build_word(Coordinates::new(7, 6), Coordinates::new(7, 8), &placed);
    assert_eq!(word, String::from("CBA"));
}

#[test]
fn unfilled_gaps_are_not_continuous() {
    let board = GameBoard::new(&snapshot(15, 15, Vec::new(), Vec::new()));
    let a = Tile { letter: Some('A'), is_blank: false, value: 1 };
    let t = Tile { letter: Some('T'), is_blank: false, value: 1 };
    let gapped = vec![
        aislobsterble::tiles::PlayedTile { coordinates: Coordinates::new(7, 6), tile: a },
        aislobsterble::tiles::PlayedTile { coordinates: Coordinates::new(7, 8), tile: t },
    ];
    // Nothing fills (7, 7), so the placement is not continuous.
    assert!(!board.is_continuous(&gapped));
}
