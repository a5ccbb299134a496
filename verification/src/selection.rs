//! Play selection and the pure turn decisions: ranking candidates by
//! score, capping submission attempts, flattening a winning placement for
//! submission, verifying the reported score, and picking out the games
//! whose turn it is.

use vstd::prelude::*;
use crate::serializers::FlatPlayedTileSerializer;
use crate::serializers::GameInfo;
use crate::serializers::GamePlayerSerializer;
use crate::serializers::GameSerializer;
use crate::serializers::PrevMoveSerializer;
use crate::tiles::PlayedTile;

verus! {

/// How many of the best candidates a turn may try to submit.
pub const PLAY_ATTEMPTS_LIMIT: u32 = 10;

/// Scores never increase along the list.
pub open spec fn candidates_sorted_desc(s: Seq<(Vec<PlayedTile>, i32)>) -> bool {
    forall|i: int, j: int| 0 <= i < j < s.len() ==> (#[trigger] s[i]).1 >= (#[trigger] s[j]).1
}

/// Sorts the candidates by score, highest first; the result holds exactly
/// the input's candidates.
pub fn rank_candidates(candidates: Vec<(Vec<PlayedTile>, i32)>) -> (r: Vec<(Vec<PlayedTile>, i32)>)
    ensures
        candidates_sorted_desc(r@),
        r@.to_multiset() == candidates@.to_multiset(),
        r@.len() == candidates@.len(),
{
    let mut sorted = candidates;
    let mut i: usize = 1;
    while i < sorted.len()
        invariant
            sorted@.len() == candidates@.len(),
            sorted@.to_multiset() == candidates@.to_multiset(),
            forall|a: int, b: int|
                0 <= a < b < i as int ==> (#[trigger] sorted@[a]).1 >= (#[trigger] sorted@[b]).1,
        decreases sorted@.len() - i,
    {
        let mut j: usize = i;
        while j > 0 && sorted[j - 1].1 < sorted[j].1
            invariant
                j <= i < sorted@.len(),
                sorted@.len() == candidates@.len(),
                sorted@.to_multiset() == candidates@.to_multiset(),
                forall|a: int, b: int|
                    0 <= a < b <= i as int && b != j as int ==> (#[trigger] sorted@[a]).1
                        >= (#[trigger] sorted@[b]).1,
                forall|b: int|
                    (j as int) < b && b <= i as int ==> (sorted@[j as int]).1 >= (
                    #[trigger] sorted@[b]).1,
            decreases j,
        {
            let ghost before = sorted@;
            let moved = sorted.remove(j);
            sorted.insert(j - 1, moved);
            proof {
                let after = before.remove(j as int).insert(j as int - 1, before[j as int]);
                assert(sorted@ == after);
                assert forall|k: int| 0 <= k < after.len() implies after[k] == (if k == j as int
                    - 1 {
                    before[j as int]
                } else if k == j as int {
                    before[j as int - 1]
                } else {
                    before[k]
                }) by {
                    if k < j as int - 1 {
                        assert(before.remove(j as int)[k] == before[k]);
                    } else if k > j as int {
                        assert(before.remove(j as int)[k - 1] == before[k]);
                    }
                }
                vstd::seq_lib::to_multiset_remove(before, j as int);
                vstd::seq_lib::to_multiset_insert(
                    before.remove(j as int),
                    j as int - 1,
                    before[j as int],
                );
                before.to_multiset_ensures();
                assert(before.contains(before[j as int]));
                assert(sorted@.to_multiset() =~= before.to_multiset());
            }
            j = j - 1;
        }
        i = i + 1;
    }
    sorted
}

/// At most the attempt cap, and no more than there are candidates.
pub fn attempt_limit(candidate_count: usize) -> (r: usize)
    ensures
        r as int == (if candidate_count < PLAY_ATTEMPTS_LIMIT as int {
            candidate_count as int
        } else {
            PLAY_ATTEMPTS_LIMIT as int
        }),
{
    if candidate_count < PLAY_ATTEMPTS_LIMIT as usize {
        candidate_count
    } else {
        PLAY_ATTEMPTS_LIMIT as usize
    }
}

/// The submission record one placed tile flattens to.
pub open spec fn spec_flat_of(t: PlayedTile) -> FlatPlayedTileSerializer {
    FlatPlayedTileSerializer {
        letter: t.tile.letter,
        is_blank: t.tile.is_blank,
        value: t.tile.value,
        row: t.coordinates.row,
        column: t.coordinates.column,
        is_exchange: false,
    }
}

/// Flattens a winning placement into submission records, one per tile, in
/// placement order, never marked as an exchange.
pub fn to_flat_play(played_tiles: &Vec<PlayedTile>) -> (r: Vec<FlatPlayedTileSerializer>)
    ensures
        r@.len() == played_tiles@.len(),
        forall|i: int|
            0 <= i < r@.len() ==> #[trigger] r@[i] == spec_flat_of(played_tiles@[i]),
{
    let mut flat: Vec<FlatPlayedTileSerializer> = Vec::new();
    let mut i: usize = 0;
    while i < played_tiles.len()
        invariant
            i <= played_tiles@.len(),
            flat@.len() == i as int,
            forall|m: int|
                0 <= m < i as int ==> #[trigger] flat@[m] == spec_flat_of(played_tiles@[m]),
        decreases played_tiles@.len() - i,
    {
        let t = &played_tiles[i];
        flat.push(
            FlatPlayedTileSerializer {
                letter: t.tile.letter,
                is_blank: t.tile.is_blank,
                value: t.tile.value,
                row: t.coordinates.row,
                column: t.coordinates.column,
                is_exchange: false,
            },
        );
        i = i + 1;
    }
    flat
}

/// The outcome of comparing the server's reported score with the engine's.
#[derive(Clone, Copy, PartialEq, Eq, Structural, Debug)]
pub enum ScoreCheck {
    /// The reported previous move carries exactly the expected score.
    Confirmed,
    /// The reported score differs; a diagnostic, not a rollback.
    Mismatch,
    /// The refetched snapshot reports no previous move.
    MissingPrevMove,
}

/// Decides score verification: confirmed exactly when the refetched
/// snapshot's previous move carries the expected score.
pub fn check_reported_score(prev_move: &Option<PrevMoveSerializer>, expected_score: i32) -> (r:
    ScoreCheck)
    ensures
        r == (match prev_move {
            Some(m) => if m.score == expected_score {
                ScoreCheck::Confirmed
            } else {
                ScoreCheck::Mismatch
            },
            None => ScoreCheck::MissingPrevMove,
        }),
{
    match prev_move {
        Some(m) => {
            if m.score == expected_score {
                ScoreCheck::Confirmed
            } else {
                ScoreCheck::Mismatch
            }
        },
        None => ScoreCheck::MissingPrevMove,
    }
}

/// The first player entry with the given turn order, if any.
pub open spec fn spec_find_turn(players: Seq<GamePlayerSerializer>, turn_order: int) -> Option<int>
    decreases players.len(),
{
    if players.len() == 0 {
        None
    } else if players[0].turn_order == turn_order {
        Some(0)
    } else {
        match spec_find_turn(players.drop_first(), turn_order) {
            Some(k) => Some(k + 1),
            None => None,
        }
    }
}

/// True iff it is the fetching player's turn: the player whose turn order
/// matches the turn number modulo the player count is the fetcher.
pub fn is_ai_turn(game_state: &GameSerializer) -> (r: bool)
    requires
        1 <= game_state.game_players@.len() <= i32::MAX as int,
        game_state.turn_number >= 0,
    ensures
        r == (match spec_find_turn(
            game_state.game_players@,
            game_state.turn_number as int % game_state.game_players@.len() as int,
        ) {
            Some(k) => game_state.game_players@[k].player.id == game_state.fetcher_player_id,
            None => false,
        }),
{
    let ghost players = game_state.game_players@;
    let num_players: i32 = game_state.game_players.len() as i32;
    let turn_order_to_match: i32 = game_state.turn_number % num_players;
    let mut i: usize = 0;
    proof {
        assert(players.skip(0) =~= players);
    }
    while i < game_state.game_players.len()
        invariant
            players == game_state.game_players@,
            i <= players.len(),
            turn_order_to_match as int == game_state.turn_number as int % players.len() as int,
            spec_find_turn(players, turn_order_to_match as int) == (match spec_find_turn(
                players.skip(i as int),
                turn_order_to_match as int,
            ) {
                Some(k) => Some(k + i as int),
                None => None::<int>,
            }),
        decreases players.len() - i,
    {
        proof {
            assert(players.skip(i as int).len() == players.len() - i);
            assert(players.skip(i as int)[0] == players[i as int]);
            assert(players.skip(i as int).drop_first() =~= players.skip(i as int + 1));
        }
        let player = &game_state.game_players[i];
        if player.turn_order == turn_order_to_match {
            return player.player.id == game_state.fetcher_player_id;
        }
        i = i + 1;
    }
    proof {
        assert(players.skip(players.len() as int).len() == 0);
    }
    false
}

/// The games that are not completed, in order.
pub fn filter_active_games(games: Vec<GameInfo>) -> (r: Vec<GameInfo>)
    ensures
        r@ == games@.filter(|game: GameInfo| game.completed is None),
{
    let ghost original = games@;
    let ghost pred = |game: GameInfo| game.completed is None;
    let mut remaining = games;
    let total: usize = remaining.len();
    let mut kept: Vec<GameInfo> = Vec::new();
    let mut i: usize = 0;
    proof {
        reveal(Seq::filter);
        assert(original.take(0) =~= Seq::<GameInfo>::empty());
        assert(original.take(0).filter(pred) =~= Seq::<GameInfo>::empty());
    }
    while remaining.len() > 0
        invariant
            total as int == original.len(),
            i <= total,
            remaining@ =~= original.skip(i as int),
            kept@ == original.take(i as int).filter(pred),
            pred == (|game: GameInfo| game.completed is None),
        decreases remaining@.len(),
    {
        let game = remaining.remove(0);
        proof {
            assert(game == original[i as int]);
            assert(remaining@ =~= original.skip(i as int + 1));
            reveal(Seq::filter);
            assert(original.take(i as int + 1).drop_last() =~= original.take(i as int));
            assert(original.take(i as int + 1).last() == original[i as int]);
        }
        if game.completed.is_none() {
            kept.push(game);
        }
        i = i + 1;
    }
    proof {
        assert(original.take(original.len() as int) =~= original);
    }
    kept
}

/// The games whose turn-name matches the acting player's display name, in
/// order. The name match is the only signal the game list offers.
pub fn filter_by_ai_name(games: Vec<GameInfo>, ai_display_name: &String) -> (r: Vec<GameInfo>)
    ensures
        r@ == games@.filter(|game: GameInfo| game.whose_turn_name@ == ai_display_name@),
{
    let ghost original = games@;
    let ghost pred = |game: GameInfo| game.whose_turn_name@ == ai_display_name@;
    let mut remaining = games;
    let total: usize = remaining.len();
    let mut kept: Vec<GameInfo> = Vec::new();
    let mut i: usize = 0;
    proof {
        reveal(Seq::filter);
        assert(original.take(0) =~= Seq::<GameInfo>::empty());
        assert(original.take(0).filter(pred) =~= Seq::<GameInfo>::empty());
    }
    while remaining.len() > 0
        invariant
            total as int == original.len(),
            i <= total,
            remaining@ =~= original.skip(i as int),
            kept@ == original.take(i as int).filter(pred),
            pred == (|game: GameInfo| game.whose_turn_name@ == ai_display_name@),
        decreases remaining@.len(),
    {
        let game = remaining.remove(0);
        proof {
            assert(game == original[i as int]);
            assert(remaining@ =~= original.skip(i as int + 1));
            reveal(Seq::filter);
            assert(original.take(i as int + 1).drop_last() =~= original.take(i as int));
            assert(original.take(i as int + 1).last() == original[i as int]);
        }
        if game.whose_turn_name == *ai_display_name {
            kept.push(game);
        }
        i = i + 1;
    }
    proof {
        assert(original.take(original.len() as int) =~= original);
    }
    kept
}

} // verus!
