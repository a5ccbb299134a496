//! Plain snapshot and play records exchanged with the outside collaborators.
//!
//! A polled game snapshot arrives as these records; the engine reads them
//! and never writes them. A chosen play leaves the engine as a list of
//! `FlatPlayedTileSerializer` entries. Timestamps are carried as epoch
//! seconds so the records stay plain values.

use vstd::prelude::*;

verus! {

/// One game in the player's game list.
#[derive(Clone, Debug)]
pub struct GameInfo {
    /// Start time in epoch seconds.
    pub started: i64,
    /// Completion time in epoch seconds, absent while the game is running.
    pub completed: Option<i64>,
    pub whose_turn_name: String,
    pub game_players: GamePlayerInfo,
    pub id: String,
}

#[derive(Clone, Debug)]
pub struct GamePlayerInfo {
    pub score: i32,
    pub player: PlayerInfo,
    pub turn_order: i32,
}

#[derive(Clone, Debug)]
pub struct PlayerInfo {
    pub id: String,
    pub display_name: String,
}

/// A full game snapshot: fixed tiles, players, layout, rack and last move.
pub struct GameSerializer {
    pub board_state: Vec<PlayedTileSerializer>,
    pub game_players: Vec<GamePlayerSerializer>,
    pub board_layout: BoardLayoutSerializer,
    pub turn_number: i32,
    pub whose_turn_name: String,
    pub num_tiles_remaining: i32,
    pub rack: Vec<TileCountSerializer>,
    pub prev_move: Option<PrevMoveSerializer>,
    pub fetcher_player_id: i32,
}

#[derive(Clone, Debug)]
pub struct PlayedTileSerializer {
    pub tile: TileSerializer,
    pub row: i32,
    pub column: i32,
}

#[derive(Clone, Debug)]
pub struct TileSerializer {
    pub letter: Option<String>,
    pub is_blank: bool,
    pub value: i32,
}

#[derive(Clone, Debug)]
pub struct TileCountSerializer {
    pub tile: TileSerializer,
    pub count: i32,
}

#[derive(Clone, Debug)]
pub struct GamePlayerSerializer {
    pub score: i32,
    pub turn_order: i32,
    pub player: PlayerSerializer,
    pub num_tiles_remaining: i32,
}

#[derive(Clone, Debug)]
pub struct PlayerSerializer {
    pub id: i32,
    pub display_name: String,
}

pub struct BoardLayoutSerializer {
    pub rows: i32,
    pub columns: i32,
    pub modifiers: Vec<PositionedModifierSerializer>,
}

#[derive(Clone, Debug)]
pub struct PositionedModifierSerializer {
    pub row: i32,
    pub column: i32,
    pub modifier: ModifierSerializer,
}

#[derive(Clone, Debug)]
pub struct ModifierSerializer {
    pub word_multiplier: i32,
    pub letter_multiplier: i32,
}

#[derive(Clone, Debug)]
pub struct PrevMoveSerializer {
    pub word: Option<String>,
    pub score: i32,
    pub player_id: i32,
    pub display_name: String,
    pub exchanged_count: i32,
}

/// One newly placed tile of a submitted play.
#[derive(Clone, Debug)]
pub struct FlatPlayedTileSerializer {
    pub letter: Option<char>,
    pub is_blank: bool,
    pub value: i32,
    pub row: i32,
    pub column: i32,
    pub is_exchange: bool,
}

/// A serialized tile either has no letter or a letter string with at least
/// one character; the engine reads only the first character.
pub open spec fn tile_serializer_letter_wf(t: TileSerializer) -> bool {
    match t.letter {
        Some(s) => s@.len() >= 1,
        None => true,
    }
}

} // verus!
