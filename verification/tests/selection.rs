use aislobsterble::selection::ScoreCheck;
use aislobsterble::selection::attempt_limit;
use aislobsterble::selection::check_reported_score;
use aislobsterble::selection::filter_active_games;
use aislobsterble::selection::filter_by_ai_name;
use aislobsterble::selection::is_ai_turn;
use aislobsterble::selection::rank_candidates;
use aislobsterble::selection::to_flat_play;
use aislobsterble::serializers::BoardLayoutSerializer;
use aislobsterble::serializers::GameInfo;
use aislobsterble::serializers::GamePlayerInfo;
use aislobsterble::serializers::GamePlayerSerializer;
use aislobsterble::serializers::GameSerializer;
use aislobsterble::serializers::PlayerInfo;
use aislobsterble::serializers::PlayerSerializer;
use aislobsterble::serializers::PrevMoveSerializer;
use aislobsterble::tiles::Coordinates;
use aislobsterble::tiles::PlayedTile;
use aislobsterble::tiles::Tile;

fn placed(row: i32, column: i32, letter: char) -> PlayedTile {
    PlayedTile {
        coordinates: Coordinates { row, column },
        tile: Tile { letter: Some(letter), is_blank: false, value: 1 },
    }
}

fn game_info(name: &str, completed: Option<i64>) -> GameInfo {
    GameInfo {
        started: 100,
        completed,
        whose_turn_name: String::from(name),
        game_players: GamePlayerInfo {
            score: 0,
            player: PlayerInfo { id: String::from("p1"), display_name: String::from(name) },
            turn_order: 0,
        },
        id: String::from("g1"),
    }
}

fn players_snapshot(turn_number: i32, fetcher_player_id: i32) -> GameSerializer {
    GameSerializer {
        board_state: Vec::new(),
        game_players: vec![
            GamePlayerSerializer {
                score: 0,
                turn_order: 0,
                player: PlayerSerializer { id: 11, display_name: String::from("first") },
                num_tiles_remaining: 7,
            },
            GamePlayerSerializer {
                score: 0,
                turn_order: 1,
                player: PlayerSerializer { id: 22, display_name: String::from("second") },
                num_tiles_remaining: 7,
            },
        ],
        board_layout: BoardLayoutSerializer { rows: 15, columns: 15, modifiers: Vec::new() },
        turn_number,
        whose_turn_name: String::from("someone"),
        num_tiles_remaining: 0,
        rack: Vec::new(),
        prev_move: None,
        fetcher_player_id,
    }
}

#[test]
fn candidates_rank_by_score_descending() {
    let candidates = vec![
        (vec![placed(0, 0, 'A')], 3),
        (vec![placed(0, 1, 'B')], 9),
        (vec![placed(0, 2, 'C')], 5),
        (vec![placed(0, 3, 'D')], 9),
    ];
    let ranked = rank_candidates(candidates);
    let scores: Vec<i32> = ranked.iter().map(|pair| pair.1).collect();
    assert_eq!(scores, vec![9, 9, 5, 3]);
}

#[test]
fn attempt_limit_is_capped_at_ten() {
    assert_eq!(attempt_limit(0), 0);
    assert_eq!(attempt_limit(3), 3);
    assert_eq!(attempt_limit(10), 10);
    assert_eq!(attempt_limit(250), 10);
}

#[test]
fn flattened_plays_carry_every_tile_in_order() {
    let placement = vec![placed(7, 6, 'C'), placed(7, 7, 'A')];
    let flat = to_flat_play(&placement);
    assert_eq!(flat.len(), 2);
    assert_eq!(flat[0].row, 7);
    assert_eq!(flat[0].column, 6);
    assert_eq!(flat[0].letter, Some('C'));
    assert_eq!(flat[1].letter, Some('A'));
    assert!(!flat[0].is_exchange);
    assert!(!flat[1].is_exchange);
}

#[test]
fn score_verification_compares_the_reported_move() {
    let report = |score: i32| {
        Some(PrevMoveSerializer {
            word: Some(String::from("CAT")),
            score,
            player_id: 1,
            display_name: String::from("someone"),
            exchanged_count: 0,
        })
    };
    assert_eq!(check_reported_score(&report(18), 18), ScoreCheck::Confirmed);
    assert_eq!(check_reported_score(&report(17), 18), ScoreCheck::Mismatch);
    assert_eq!(check_reported_score(&None, 18), ScoreCheck::MissingPrevMove);
}

#[test]
fn the_turn_goes_to_the_matching_turn_order() {
    // Turn 4 of two players falls to turn order 0, player 11.
    assert!(is_ai_turn(&players_snapshot(4, 11)));
    assert!(!is_ai_turn(&players_snapshot(4, 22)));
    // Turn 5 falls to turn order 1, player 22.
    assert!(is_ai_turn(&players_snapshot(5, 22)));
    assert!(!is_ai_turn(&players_snapshot(5, 11)));
}

#[test]
fn completed_games_are_filtered_out() {
    let games = vec![
        game_info("ai", None),
        game_info("ai", Some(500)),
        game_info("other", None),
    ];
    let active = filter_active_games(games);
    assert_eq!(active.len(), 2);
    assert!(active.iter().all(|game| game.completed.is_none()));
}

#[test]
fn games_filter_by_display_name() {
    let games = vec![
        game_info("ai", None),
        game_info("other", None),
        game_info("ai", None),
    ];
    let mine = filter_by_ai_name(games, &String::from("ai"));
    assert_eq!(mine.len(), 2);
    assert!(mine.iter().all(|game| game.whose_turn_name == "ai"));
}
