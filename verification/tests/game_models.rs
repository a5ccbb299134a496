use aislobsterble::tiles::Coordinates;
use aislobsterble::tiles::PlayedTile;
use aislobsterble::tiles::Tile;

#[test]
fn test_tile_order() {
    let none_blank_0 = Tile { letter: None, is_blank: true, value: 1 };
    let a_0 = Tile { letter: Some('A'), is_blank: false, value: 0 };
    let a_blank_0 = Tile { letter: Some('A'), is_blank: true, value: 0 };
    let a_1 = Tile { letter: Some('A'), is_blank: false, value: 1 };
    let a_blank_1 = Tile { letter: Some('A'), is_blank: true, value: 1 };
    let b_0 = Tile { letter: Some('B'), is_blank: false, value: 0 };
    let b_0_copy = Tile { letter: Some('B'), is_blank: false, value: 0 };
    // Letterless blanks are less than non-None letters.
    assert!(none_blank_0 < a_0);
    // Earlier alphabet letter sorts ahead of later alphabet letter.
    assert!(a_0 < b_0);
    // Non-blank letter sorts ahead of blank letter.
    assert!(a_0 < a_blank_0);
    // Lower value sorts ahead of higher value.
    assert!(a_0 < a_1);
    // Letter takes precedence over blankness and value.
    assert!(a_blank_1 < b_0);
    // Blankness takes precedence over value.
    assert!(a_1 < a_blank_0);
    // Tiles with identical entries are equal.
    assert!(b_0 == b_0_copy);
}

#[test]
fn test_played_tile_order() {
    let a_tile = Tile { letter: Some('A'), is_blank: false, value: 1 };
    let b_tile = Tile { letter: Some('B'), is_blank: false, value: 1 };
    let a_1_1 = PlayedTile { coordinates: Coordinates { row: 1, column: 1 }, tile: a_tile.clone() };
    let a_2_1 = PlayedTile { coordinates: Coordinates { row: 2, column: 1 }, tile: a_tile.clone() };
    let a_1_2 = PlayedTile { coordinates: Coordinates { row: 1, column: 2 }, tile: a_tile.clone() };
    let b_1_1 = PlayedTile { coordinates: Coordinates { row: 1, column: 1 }, tile: b_tile.clone() };
    let b_1_2 = PlayedTile { coordinates: Coordinates { row: 1, column: 2 }, tile: b_tile.clone() };
    let b_1_2_copy =
        PlayedTile { coordinates: Coordinates { row: 1, column: 2 }, tile: b_tile.clone() };
    // Lower row sorts ahead of higher row.
    assert!(a_1_1 < a_2_1);
    // Lower column sorts ahead of higher column.
    assert!(a_1_1 < a_1_2);
    // Lower tile sorts ahead of higher Tile.
    assert!(a_1_1 < b_1_1);
    // Row sorts ahead of column and Tile.
    assert!(b_1_2 < a_2_1);
    // Column sorts ahead of Tile.
    assert!(b_1_1 < a_1_2);
    // PlayedTiles with identical entries are equal.
    assert!(b_1_2 == b_1_2_copy);
}

#[test]
fn tile_accessors() {
    let tile = Tile { letter: Some('Q'), is_blank: true, value: 10 };
    assert_eq!(tile.get_letter(), Some('Q'));
    assert!(tile.is_blank());
    assert_eq!(tile.get_value(), 10);
    assert!(!tile.is_letterless());
    let blank = Tile { letter: None, is_blank: true, value: 0 };
    assert!(blank.is_letterless());
}

#[test]
fn coordinates_accessors() {
    let c = Coordinates::new(3, 9);
    assert_eq!(c.get_row(), 3);
    assert_eq!(c.get_column(), 9);
    let placed = PlayedTile {
        coordinates: c,
        tile: Tile { letter: Some('Z'), is_blank: false, value: 10 },
    };
    assert_eq!(placed.get_coordinates_ref().get_row(), 3);
    assert_eq!(placed.get_tile_ref().get_value(), 10);
}
