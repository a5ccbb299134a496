use aislobsterble::board::GameBoard;
use aislobsterble::dictionary::Dictionary;
use aislobsterble::rack::Rack;
use aislobsterble::search::candidate_plays;
use aislobsterble::serializers::BoardLayoutSerializer;
use aislobsterble::serializers::GameSerializer;
use aislobsterble::serializers::PlayedTileSerializer;
use aislobsterble::serializers::TileCountSerializer;
use aislobsterble::serializers::TileSerializer;

fn snapshot(
    rows: i32,
    columns: i32,
    board_state: Vec<PlayedTileSerializer>,
    rack: Vec<TileCountSerializer>,
) -> GameSerializer {
    GameSerializer {
        board_state,
        game_players: Vec::new(),
        board_layout: BoardLayoutSerializer { rows, columns, modifiers: Vec::new() },
        turn_number: 0,
        whose_turn_name: String::from("someone"),
        num_tiles_remaining: 0,
        rack,
        prev_move: None,
        fetcher_player_id: 0,
    }
}

fn count(letter: Option<&str>, is_blank: bool, value: i32, count: i32) -> TileCountSerializer {
    TileCountSerializer {
        tile: TileSerializer { letter: letter.map(String::from), is_blank, value },
        count,
    }
}

#[test]
fn candidates_only_create_dictionary_words() {
    let state = snapshot(
        5,
        5,
        Vec::new(),
        vec![count(Some("A"), false, 1, 1), count(Some("T"), false, 1, 1)],
    );
    let board = GameBoard::new(&state);
    let rack = Rack::new(&state);
    let dictionary = Dictionary::new(&vec![String::from("at")]);
    let candidates = candidate_plays(&board, &rack, &dictionary);
    assert!(!candidates.is_empty());
    for (placement, _score) in candidates.iter() {
        for word in board.words_created(placement).iter() {
            assert!(dictionary.contains_folded(word));
        }
    }
}

#[test]
fn unconnected_off_center_placements_are_excluded() {
    let state = snapshot(
        5,
        5,
        Vec::new(),
        vec![count(Some("A"), false, 1, 1), count(Some("T"), false, 1, 1)],
    );
    let board = GameBoard::new(&state);
    let rack = Rack::new(&state);
    let dictionary = Dictionary::new(&vec![String::from("at"), String::from("ta"), String::from(
        "a",
    ), String::from("t")]);
    let candidates = candidate_plays(&board, &rack, &dictionary);
    assert!(!candidates.is_empty());
    // The board is empty, so every candidate must cover the centre cell.
    for (placement, _score) in candidates.iter() {
        assert!(!board.is_connected(placement));
        assert!(board.is_through_center(placement));
    }
}

#[test]
fn candidates_connect_to_existing_tiles() {
    let state = snapshot(
        5,
        5,
        vec![PlayedTileSerializer {
            tile: TileSerializer { letter: Some(String::from("A")), is_blank: false, value: 1 },
            row: 2,
            column: 2,
        }],
        vec![count(Some("T"), false, 1, 1)],
    );
    let board = GameBoard::new(&state);
    let rack = Rack::new(&state);
    let dictionary = Dictionary::new(&vec![String::from("at"), String::from("ta")]);
    let candidates = candidate_plays(&board, &rack, &dictionary);
    // Exactly the cells above and below the fixed A admit the T (the cells
    // beside it would form the word "T"), each found on both axes.
    assert_eq!(candidates.len(), 4);
    for (placement, score) in candidates.iter() {
        assert!(board.is_connected(placement) || board.is_through_center(placement));
        assert_eq!(*score, board.score(placement));
        assert_eq!(*score, 2);
    }
}

#[test]
fn a_single_blank_is_tried_against_every_letter() {
    let state = snapshot(5, 5, Vec::new(), vec![count(None, true, 0, 1)]);
    let board = GameBoard::new(&state);
    let rack = Rack::new(&state);
    let dictionary = Dictionary::new(&vec![String::from("q")]);
    let candidates = candidate_plays(&board, &rack, &dictionary);
    // Of the 26 resolutions only Q yields a word, on the one legal cell,
    // found on both axes.
    assert_eq!(candidates.len(), 2);
    for (placement, score) in candidates.iter() {
        assert_eq!(placement.len(), 1);
        assert_eq!(placement[0].get_tile_ref().get_letter(), Some('Q'));
        // A resolved blank keeps its zero value.
        assert_eq!(*score, 0);
    }
}
