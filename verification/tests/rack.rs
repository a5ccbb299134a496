use aislobsterble::rack::Rack;
use aislobsterble::serializers::BoardLayoutSerializer;
use aislobsterble::serializers::GameSerializer;
use aislobsterble::serializers::TileCountSerializer;
use aislobsterble::serializers::TileSerializer;
use aislobsterble::tiles::Tile;

fn rack_snapshot(counts: Vec<TileCountSerializer>) -> GameSerializer {
    GameSerializer {
        board_state: Vec::new(),
        game_players: Vec::new(),
        board_layout: BoardLayoutSerializer { rows: 15, columns: 15, modifiers: Vec::new() },
        turn_number: 0,
        whose_turn_name: String::from("someone"),
        num_tiles_remaining: 0,
        rack: counts,
        prev_move: None,
        fetcher_player_id: 0,
    }
}

fn count(letter: Option<&str>, is_blank: bool, value: i32, count: i32) -> TileCountSerializer {
    TileCountSerializer {
        tile: TileSerializer { letter: letter.map(String::from), is_blank, value },
        count,
    }
}

#[test]
fn rack_expands_run_length_counts_in_order() {
    let rack = Rack::new(&rack_snapshot(vec![
        count(Some("E"), false, 1, 2),
        count(None, true, 0, 1),
        count(Some("Q"), false, 10, 1),
    ]));
    assert_eq!(rack.tiles.len(), 4);
    assert_eq!(rack.tiles[0].get_letter(), Some('E'));
    assert_eq!(rack.tiles[1].get_letter(), Some('E'));
    assert!(rack.tiles[2].is_letterless());
    assert!(rack.tiles[2].is_blank());
    assert_eq!(rack.tiles[3].get_letter(), Some('Q'));
    assert_eq!(rack.tiles[3].get_value(), 10);
}

#[test]
fn fill_blanks_round_trip_resolves_every_blank() {
    let rack = Rack::new(&rack_snapshot(vec![
        count(Some("C"), false, 3, 1),
        count(None, true, 0, 1),
        count(Some("T"), false, 1, 1),
        count(None, true, 0, 1),
    ]));
    let filled = rack.fill_blanks(&vec!['A', 'S']);
    assert_eq!(filled.tiles.len(), 4);
    // No letterless tile remains.
    assert!(filled.tiles.iter().all(|tile| !tile.is_letterless()));
    // Non-blank tiles are unchanged, in their original positions.
    assert_eq!(filled.tiles[0].get_letter(), Some('C'));
    assert_eq!(filled.tiles[0].get_value(), 3);
    assert_eq!(filled.tiles[2].get_letter(), Some('T'));
    // Blanks take the supplied letters left to right, keeping their
    // blank-origin flag and zero value.
    assert_eq!(filled.tiles[1].get_letter(), Some('A'));
    assert!(filled.tiles[1].is_blank());
    assert_eq!(filled.tiles[1].get_value(), 0);
    assert_eq!(filled.tiles[3].get_letter(), Some('S'));
    assert!(filled.tiles[3].is_blank());
}

#[test]
fn fill_blanks_with_no_blanks_keeps_the_rack() {
    let rack = Rack::new(&rack_snapshot(vec![count(Some("A"), false, 1, 2)]));
    let filled = rack.fill_blanks(&Vec::new());
    assert_eq!(filled.tiles.len(), 2);
    assert_eq!(filled.tiles[0].get_letter(), Some('A'));
    assert_eq!(filled.tiles[1].get_letter(), Some('A'));
}

#[test]
fn non_positive_counts_add_no_tiles() {
    let rack = Rack::new(&rack_snapshot(vec![
        count(Some("A"), false, 1, 0),
        count(Some("B"), false, 3, 1),
    ]));
    assert_eq!(rack.tiles.len(), 1);
    assert_eq!(rack.tiles[0].get_letter(), Some('B'));
    let _unused: Vec<Tile> = rack.tiles.clone();
}
