use kdl_rust::board::{Board, BoardLoadError, BoardSpecification};
use kdl_rust::wing::Wing;
use kdl_rust::cancellation::{AtomicCancellationToken, CancelledToken, NeverCancelToken};
use kdl_rust::common_game_state::CommonGameState;
use kdl_rust::history::GameHistory;
use kdl_rust::mutable_game_state::MutableGameState;
use kdl_rust::player::{PlayerAction, PlayerId, PlayerMove};
use kdl_rust::room::{Room, RoomId};
use kdl_rust::rule_helper::{
    CARD_UNIT, HEURISTIC_SCORE_LOSS, HEURISTIC_SCORE_WIN, INVALID_PLAYER_ID, PLAYER_STARTING_MOVE_CARDS,
};
use kdl_rust::simple_turn::SimpleTurn;
use kdl_rust::tree_search::{AppraisedPlayerTurn, TreeSearch, APPRAISAL_EMPTY_MAXIMUM, APPRAISAL_EMPTY_MINIMUM, negate};
use std::collections::HashSet;

fn sample_board() -> Board {
    let rooms = vec![
        Room::new(RoomId(1), "A", vec![RoomId(2)], vec![RoomId(2)]),
        Room::new(RoomId(2), "B", vec![RoomId(1), RoomId(3)], vec![RoomId(1)]),
        Room::new(RoomId(3), "C", vec![RoomId(2)], vec![RoomId(2)]),
    ];
    Board::new("tiny", rooms, RoomId(1), RoomId(1), RoomId(1), RoomId(1), None)
}

fn sample_game_state() -> MutableGameState {
    let common = CommonGameState::from_num_normal_players(true, sample_board(), 3);
    MutableGameState::at_start(common)
}

/// Four rooms in a row, none in sight of another.
fn tiny_board() -> Board {
    let rooms = vec![
        Room::new(RoomId(1), "One", vec![RoomId(2)], vec![]),
        Room::new(RoomId(2), "Two", vec![RoomId(1), RoomId(3)], vec![]),
        Room::new(RoomId(3), "Three", vec![RoomId(2), RoomId(4)], vec![]),
        Room::new(RoomId(4), "Four", vec![RoomId(3)], vec![]),
    ];
    Board::new("Tiny", rooms, RoomId(1), RoomId(1), RoomId(1), RoomId(1), None)
}

fn tiny_two_player_game_state() -> MutableGameState {
    let common = CommonGameState::from_num_normal_players(true, tiny_board(), 2);
    MutableGameState::at_start(common)
}

/// Four rooms in a cycle, each seeing its two neighbours.
fn cyclic_board() -> Board {
    let rooms = vec![
        Room::new(RoomId(1), "N", vec![RoomId(2), RoomId(4)], vec![RoomId(2), RoomId(4)]),
        Room::new(RoomId(2), "E", vec![RoomId(1), RoomId(3)], vec![RoomId(1), RoomId(3)]),
        Room::new(RoomId(3), "S", vec![RoomId(2), RoomId(4)], vec![RoomId(2), RoomId(4)]),
        Room::new(RoomId(4), "W", vec![RoomId(3), RoomId(1)], vec![RoomId(3), RoomId(1)]),
    ];
    Board::new("Ring", rooms, RoomId(1), RoomId(3), RoomId(1), RoomId(1), None)
}

fn turn_by_text(state: &MutableGameState, turn_text: &str) -> SimpleTurn {
    state
        .possible_turns()
        .into_iter()
        .find(|turn| turn.to_string() == turn_text)
        .unwrap_or_else(|| panic!("expected to find turn '{turn_text}'"))
}

#[test]
fn at_start_initializes_arrays() {
    let game = sample_game_state();
    assert_eq!(game.turn_id, 1);
    assert_eq!(game.current_player_id, PlayerId(0));
    assert_eq!(game.player_room_ids.len(), game.common.num_all_players);
    assert!(game.attacker_hist.is_empty());
    assert_eq!(game.winner, PlayerId(INVALID_PLAYER_ID));
    assert_eq!(game.player_move_cards, vec![PLAYER_STARTING_MOVE_CARDS; 3]);
}

#[test]
fn check_normal_turn_catches_invalid_ids() {
    let game = sample_game_state();
    let invalid_player_turn = SimpleTurn::single(PlayerId(4), RoomId(2));
    assert!(game.check_normal_turn(&invalid_player_turn).is_err());

    let invalid_room_turn = SimpleTurn::single(PlayerId(0), RoomId(99));
    assert!(game.check_normal_turn(&invalid_room_turn).is_err());
}

#[test]
fn after_normal_turn_loots_when_doctor_unseen() {
    let mut game = sample_game_state();
    game.doctor_room_id = RoomId(3);
    game.player_room_ids = vec![RoomId(1), RoomId(3), RoomId(3)];
    let turn = SimpleTurn::single(PlayerId(0), RoomId(2));
    let starting_move_cards = game.player_move_cards[0];
    game.after_normal_turn(turn.clone());

    assert_eq!(game.player_room_ids[0], RoomId(2));
    assert!(game.player_move_cards[0] > starting_move_cards, "player should have looted and gained move cards");
    assert_eq!(game.prev_turn, turn);
}

#[test]
fn best_action_detects_being_seen() {
    let mut game = sample_game_state();
    game.player_room_ids[1] = RoomId(2);
    game.current_player_id = PlayerId(1);
    let action = game.best_action_allowed(false);
    assert_eq!(action, PlayerAction::Nothing);
}

#[test]
fn doctor_moves_until_room_wraps_in_visit_order() {
    let mut game = sample_game_state();
    game.doctor_room_id = RoomId(2);
    assert_eq!(game.doctor_moves_until_room(RoomId(2)), 0);
    assert_eq!(game.doctor_moves_until_room(RoomId(3)), 1);
    assert_eq!(game.doctor_moves_until_room(RoomId(1)), 2);
}

#[test]
fn possible_turns_snapshot_tiny_two_player_start() {
    let game = tiny_two_player_game_state();
    let turn_texts = game.possible_turns().into_iter().map(|turn| turn.to_string()).collect::<Vec<_>>();
    let snapshot = format!("count={}\n{}", turn_texts.len(), turn_texts.join("\n"));
    assert_eq!(
        snapshot,
        [
            "count=21\n", "1@1;\n", "1@2;\n", "1@3;\n", "1@4;\n", "4@1;\n", "4@2;\n", "4@3;\n", "4@4;\n",
            "2@1;\n", "2@2;\n", "2@3;\n", "2@4;\n", "1@2 4@2;\n", "1@2 4@3;\n", "1@3 4@2;\n", "1@2 2@2;\n",
            "1@2 2@3;\n", "1@3 2@2;\n", "4@2 2@2;\n", "4@2 2@3;\n", "4@3 2@2;"
        ]
        .concat()
    );
}

#[test]
fn after_turn_respects_must_return_new_object() {
    let mut game = tiny_two_player_game_state();
    let turn = turn_by_text(&game, "1@2;");
    let before = game.clone();

    let returned_new_state = MutableGameState::after_turn(&mut game, turn.clone(), true);
    assert_eq!(game, before, "state should not mutate when cloning is requested");
    assert_ne!(returned_new_state, before);

    let _ = MutableGameState::after_turn(&mut game, turn, false);
    assert_ne!(game, before, "state should mutate when cloning is not requested");
}

#[test]
fn possible_turns_snapshot_tiny_two_player_after_opening() {
    let mut game = tiny_two_player_game_state();
    let opening_turn = turn_by_text(&game, "1@2;");
    game.after_normal_turn(opening_turn);

    let turn_texts = game.possible_turns().into_iter().map(|turn| turn.to_string()).collect::<Vec<_>>();
    let head = turn_texts.iter().take(8).cloned().collect::<Vec<_>>();
    let tail = turn_texts.iter().rev().take(8).cloned().collect::<Vec<_>>().into_iter().rev().collect::<Vec<_>>();
    let snapshot = format!("count={}\nhead={}\ntail={}", turn_texts.len(), head.join("|"), tail.join("|"));
    assert_eq!(
        snapshot,
        [
            "count=21\n",
            "head=3@1;|3@2;|3@3;|3@4;|2@1;|2@2;|2@3;|2@4;\n",
            "tail=3@2 2@3;|3@3 2@3;|3@2 4@2;|3@2 4@3;|3@3 4@2;|2@2 4@2;|2@3 4@2;|2@3 4@3;"
        ]
        .concat()
    );
}

#[test]
fn tiny_two_player_positions_after_two_normal_turns() {
    let mut game = tiny_two_player_game_state();
    let turn_1 = turn_by_text(&game, "1@2;");
    game.after_normal_turn(turn_1);
    let turn_2 = turn_by_text(&game, "3@2;");
    game.after_normal_turn(turn_2);
    assert_eq!(game.turn_id, 5);
    assert_eq!(game.common.player_text(game.current_player_id), "P1");
    assert_eq!(game.doctor_room_id, RoomId(1));
    assert_eq!(game.player_room_ids, vec![RoomId(2), RoomId(4), RoomId(2), RoomId(4)]);
    // the first player looted on the opening turn; the second was seen and did not
    assert_eq!(game.player_move_cards[0], PLAYER_STARTING_MOVE_CARDS + 3300);
    assert_eq!(game.player_move_cards[2], PLAYER_STARTING_MOVE_CARDS);
}

#[test]
fn empty_minimum_and_maximum_mimic_static_defaults() {
    let empty_min = AppraisedPlayerTurn::empty_minimum();
    assert_eq!(empty_min.appraisal, APPRAISAL_EMPTY_MINIMUM);
    assert!(empty_min.turn.is_none());
    assert!(empty_min.ending_state.is_none());

    let empty_max = AppraisedPlayerTurn::empty_maximum();
    assert_eq!(empty_max.appraisal, APPRAISAL_EMPTY_MAXIMUM);
    assert!(empty_max.turn.is_none());
    assert!(empty_max.ending_state.is_none());
}

#[test]
fn negation_swaps_the_empty_appraisals() {
    assert_eq!(negate(APPRAISAL_EMPTY_MINIMUM), APPRAISAL_EMPTY_MAXIMUM);
    assert_eq!(negate(APPRAISAL_EMPTY_MAXIMUM), APPRAISAL_EMPTY_MINIMUM);
    assert_eq!(negate(HEURISTIC_SCORE_WIN), HEURISTIC_SCORE_LOSS);
    assert_eq!(negate(5), -5);
}

#[test]
fn board_matrices_are_symmetric_with_a_metric_distance() {
    for board in [sample_board(), tiny_board(), cyclic_board()] {
        let dim = board.adjacency.len();
        for &r in &board.room_ids {
            assert_eq!(board.distance[r.0 as usize][r.0 as usize], 0);
        }
        for s in 1..dim {
            for t in 1..dim {
                assert_eq!(board.adjacency[s][t], board.adjacency[t][s]);
                for i in 1..dim {
                    assert!(board.distance[s][t] <= board.distance[s][i] + board.distance[i][t]);
                }
            }
        }
    }
    let ring = cyclic_board();
    assert!(ring.is_valid().is_ok());
    assert_eq!(ring.distance[1][3], 2);
    assert_eq!(ring.distance[4][2], 2);
    // the sample board lists a sight the other room does not return
    assert!(sample_board().is_valid().is_err());
}

#[test]
fn is_valid_reports_every_problem() {
    let rooms = vec![
        Room::new(RoomId(1), "A", vec![RoomId(1), RoomId(3)], vec![RoomId(2)]),
        Room::new(RoomId(3), "C", vec![], vec![]),
    ];
    let board = Board::new("bad", rooms, RoomId(0), RoomId(1), RoomId(1), RoomId(1), None);
    let mistakes = board.is_valid().unwrap_err();
    assert!(mistakes.contains(&"bad start room id".to_string()));
    assert!(mistakes.contains(&"room 1 is in own adjacent list".to_string()));
    assert!(mistakes.contains(&"room 1 lists nonexistent visible rooms 2".to_string()));
    assert!(mistakes.contains(&"Adjacency[1,3] contradiction".to_string()));
    // one message per failed check: the start room, the self-listing, the
    // unknown visible room, and both orders of each asymmetric pair
    assert!(mistakes.contains(&"Visibility[1,2] contradiction".to_string()));
    assert_eq!(mistakes.len(), 7);
}

#[test]
fn next_room_id_round_trips() {
    let ids = vec![RoomId(2), RoomId(5), RoomId(7), RoomId(11)];
    for &r in &ids {
        for k in -9..10 {
            let there = Board::next_room_id(r, k, &ids);
            assert_eq!(Board::next_room_id(there, -k, &ids), r);
        }
    }
    assert_eq!(Board::next_room_id(RoomId(5), 6, &ids), RoomId(11));
}

#[test]
fn check_turn_rejects_unknown_rooms_and_overspending() {
    let mut game = sample_game_state();
    assert!(game.check_normal_turn(&SimpleTurn::single(PlayerId(0), RoomId(4))).is_err());
    assert!(game.check_normal_turn(&SimpleTurn::single(PlayerId(0), RoomId(3))).is_ok());
    game.player_move_cards[0] = CARD_UNIT - 1;
    // two rooms away: one free step and one whole move card
    assert!(game.check_normal_turn(&SimpleTurn::single(PlayerId(0), RoomId(3))).is_err());
    assert!(game.check_normal_turn(&SimpleTurn::single(PlayerId(0), RoomId(2))).is_ok());
    // a normal player may not move another normal player
    assert!(game.check_normal_turn(&SimpleTurn::single(PlayerId(1), RoomId(2))).is_err());
}

#[test]
fn applying_a_turn_is_deterministic() {
    let game = tiny_two_player_game_state();
    let mut a = game.clone();
    let mut b = game.clone();
    let turn = turn_by_text(&game, "1@3 4@2;");
    a.after_normal_turn(turn.clone());
    b.after_normal_turn(turn);
    assert_eq!(a, b);
    assert_eq!(a.turn_id, b.turn_id);
    assert_eq!(a.attacker_hist, b.attacker_hist);
}

#[test]
fn terminal_states_score_the_sentinels() {
    let mut game = tiny_two_player_game_state();
    game.winner = PlayerId(2);
    game.player_weapons[0] = 0;
    assert_eq!(game.heuristic_score(PlayerId(2)), HEURISTIC_SCORE_WIN);
    assert_eq!(game.heuristic_score(PlayerId(0)), HEURISTIC_SCORE_LOSS);
    game.player_move_cards[2] = 50 * CARD_UNIT;
    assert_eq!(game.heuristic_score(PlayerId(2)), HEURISTIC_SCORE_WIN);
    // a stranger's win counts for its side
    game.winner = PlayerId(3);
    assert_eq!(game.heuristic_score(PlayerId(0)), HEURISTIC_SCORE_WIN);
}

#[test]
fn heuristic_score_without_strangers_matches_hand_computation() {
    let game = sample_game_state();
    // own: 76800 + 4*19200 + 36480 + 4*19200 + 38400; others: 76800 + 4*19200 + 4*19200 + 38400 each
    assert_eq!(game.heuristic_score(PlayerId(0)), 2 * 305280 - 2 * 268800);
}

#[test]
fn search_at_depth_zero_is_the_heuristic() {
    let game = tiny_two_player_game_state();
    let mut visited = 0usize;
    let result = TreeSearch::find_best_turn(&game, 0, &NeverCancelToken, &mut visited, 1);
    assert_eq!(result.appraisal, game.heuristic_score(game.current_player_id));
    assert!(result.turn.is_none());
    assert_eq!(visited, 1);
}

#[test]
fn cancelled_search_returns_the_empty_result_after_the_root() {
    let game = tiny_two_player_game_state();
    let token = AtomicCancellationToken::new();
    token.cancel();
    let mut visited = 0usize;
    let result = TreeSearch::find_best_turn(&game, 0, &token, &mut visited, 1);
    assert_eq!(visited, 1);
    assert!(result.turn.is_none());
    for depth in 1..4 {
        for parallelization in [1usize, 3] {
            let mut visited = 0usize;
            let result = TreeSearch::find_best_turn(&game, depth, &token, &mut visited, parallelization);
            assert_eq!(visited, 1);
            assert!(result.turn.is_none());
            assert!(result.ending_state.is_none());
            assert_eq!(result.appraisal, APPRAISAL_EMPTY_MINIMUM);
        }
    }
    let three = sample_game_state();
    let mut visited = 0usize;
    let result = TreeSearch::find_best_turn(&three, 2, &CancelledToken, &mut visited, 1);
    assert_eq!(visited, 1);
    assert!(result.turn.is_none() && result.ending_state.is_none());
}

fn minimax(state: &MutableGameState, depth: i32) -> (i64, Option<String>) {
    let me = state.current_player_id;
    if state.winner.0 != INVALID_PLAYER_ID || depth == 0 {
        return (state.heuristic_score(me), None);
    }
    let mut children = state
        .possible_turns()
        .into_iter()
        .map(|turn| {
            let mut next = state.clone();
            next.after_normal_turn(turn.clone());
            (turn, next)
        })
        .collect::<Vec<_>>();
    if depth > 1 {
        children.sort_by(|a, b| b.1.heuristic_score(me).cmp(&a.1.heuristic_score(me)));
    }
    let mut best = (APPRAISAL_EMPTY_MINIMUM, None);
    for (turn, child) in children {
        let (value, _) = minimax(&child, depth - 1);
        let value = if child.current_player_id == me { value } else { negate(value) };
        if best.0 < value {
            best = (value, Some(turn.to_string()));
        }
    }
    best
}

#[test]
fn alpha_beta_matches_full_minimax() {
    let mut game = tiny_two_player_game_state();
    for depth in 1..4 {
        let mut visited = 0usize;
        let result = TreeSearch::find_best_turn(&game, depth, &NeverCancelToken, &mut visited, 1);
        let (value, turn) = minimax(&game, depth);
        assert_eq!(result.appraisal, value);
        assert_eq!(result.turn.map(|t| t.to_string()), turn);
    }
    let opening = turn_by_text(&game, "1@2;");
    game.after_normal_turn(opening);
    let mut visited = 0usize;
    let result = TreeSearch::find_best_turn(&game, 2, &NeverCancelToken, &mut visited, 1);
    let (value, turn) = minimax(&game, 2);
    assert_eq!(result.appraisal, value);
    assert_eq!(result.turn.map(|t| t.to_string()), turn);
}

#[test]
fn many_player_search_picks_a_possible_turn() {
    let game = sample_game_state();
    let mut visited = 0usize;
    let result = TreeSearch::find_best_turn(&game, 2, &NeverCancelToken, &mut visited, 1);
    let texts = game.possible_turns().into_iter().map(|t| t.to_string()).collect::<Vec<_>>();
    assert!(texts.contains(&result.turn.unwrap().to_string()));
    assert!(visited > 1);
}

#[test]
fn possible_turns_on_a_four_room_cycle() {
    let common = CommonGameState::from_num_normal_players(false, cyclic_board(), 2);
    let mut game = MutableGameState::at_start(common);
    game.player_room_ids = vec![RoomId(1), RoomId(1), RoomId(3), RoomId(1)];
    game.player_move_cards = vec![CARD_UNIT; 4];
    let texts = game.possible_turns().into_iter().map(|t| t.to_string()).collect::<Vec<_>>();
    // three pieces alone to any of four rooms, and three pairs of two pieces
    // each stepping to one of two neighbours
    assert_eq!(texts.len(), 3 * 4 + 3 * 2 * 2);
    let distinct = texts.iter().collect::<HashSet<_>>();
    assert_eq!(distinct.len(), texts.len());
}

#[test]
fn a_seen_player_cannot_attack_in_the_doctor_room() {
    let common = CommonGameState::from_num_normal_players(false, cyclic_board(), 3);
    let mut game = MutableGameState::at_start(common);
    game.doctor_room_id = RoomId(2);
    game.player_room_ids = vec![RoomId(2), RoomId(3), RoomId(4)];
    assert_eq!(game.best_action_allowed(false), PlayerAction::Nothing);
    game.player_room_ids = vec![RoomId(2), RoomId(4), RoomId(4)];
    assert_eq!(game.best_action_allowed(false), PlayerAction::Attack);
}

#[test]
fn an_unseen_attack_against_a_rich_defender_fails() {
    let common = CommonGameState::from_num_normal_players(false, tiny_board(), 2);
    let mut game = MutableGameState::at_start(common);
    // the first player walks onto the doctor in room 2, unseen
    game.doctor_room_id = RoomId(2);
    game.player_room_ids = vec![RoomId(1), RoomId(4), RoomId(4), RoomId(4)];
    game.after_normal_turn(SimpleTurn::single(PlayerId(0), RoomId(2)));
    // the stranger of the other side then steps back onto the doctor in room 3
    // unseen and attacks too, against the first player's cards
    assert_eq!(game.attacker_hist, vec![PlayerId(0), PlayerId(1)]);
    assert_eq!(game.player_strengths[1], 2);
    assert_eq!(game.player_strengths[0], 2);
    assert_eq!(game.winner, PlayerId(INVALID_PLAYER_ID));
    // strength 1 plus a weapon: 1 + 53/24 strength against the defender's failures
    assert_eq!(game.player_weapons[0], PLAYER_STARTING_MOVE_CARDS - CARD_UNIT);
    assert_eq!(game.player_failures[2], 38400 - (9600 + 21200) * 12 / 25);
}

#[test]
fn turn_notation_of_two_moves() {
    let turn = SimpleTurn::new(vec![PlayerMove::new(PlayerId(0), RoomId(4)), PlayerMove::new(PlayerId(2), RoomId(9))]);
    assert_eq!(turn.to_string(), "1@4 3@9;");
}

#[test]
fn turn_notation_round_trips() {
    for text in ["1@4 3@9;", "1@2;", "12@0 2@105;"] {
        let turn = kdl_rust::notation::parse_turn(text).unwrap();
        assert_eq!(turn.to_string(), text);
    }
    let turn = kdl_rust::notation::parse_turn("3@9;").unwrap();
    assert_eq!(turn.moves, vec![PlayerMove::new(PlayerId(2), RoomId(9))]);
    for text in ["", ";", "0@4;", "1@04;", "1@4", "1@4;;", "1@4  2@3;", "1 @4;", "x@4;"] {
        assert!(kdl_rust::notation::parse_turn(text).is_none(), "{text}");
    }
}

#[test]
fn closed_wings_leave_the_board() {
    let spec = BoardSpecification {
        name: "Ring".to_string(),
        player_start_room_ids: vec![RoomId(3), RoomId(1)],
        doctor_start_room_ids: vec![RoomId(2)],
        cat_start_room_ids: vec![RoomId(4)],
        dog_start_room_ids: vec![RoomId(4)],
        wings: vec![Wing::new("South Wing", vec![RoomId(3)])],
        rooms: vec![
            Room::new(RoomId(1), "N", vec![RoomId(2), RoomId(4)], vec![RoomId(2), RoomId(4)]),
            Room::new(RoomId(2), "E", vec![RoomId(1), RoomId(3)], vec![RoomId(1), RoomId(3)]),
            Room::new(RoomId(3), "S", vec![RoomId(2), RoomId(4)], vec![RoomId(2), RoomId(4)]),
            Room::new(RoomId(4), "W", vec![RoomId(3), RoomId(1)], vec![RoomId(3), RoomId(1)]),
        ],
    };
    let board = Board::from_spec(spec.clone(), &vec!["SOUTH wing".to_string()], "-closed").unwrap();
    assert_eq!(board.name, "Ring-closed");
    assert_eq!(board.room_ids, vec![RoomId(1), RoomId(2), RoomId(4)]);
    assert_eq!(board.player_start_room_id, RoomId(1));
    assert_eq!(board.rooms[1].adjacent, vec![RoomId(1)]);
    assert_eq!(board.distance[2][4], 2);
    let open = Board::from_spec(spec.clone(), &vec![], "").unwrap();
    assert_eq!(open.player_start_room_id, RoomId(3));
    let mut no_dog = spec;
    no_dog.dog_start_room_ids = vec![RoomId(3)];
    assert_eq!(
        Board::from_spec(no_dog, &vec!["south wing".to_string()], "").unwrap_err(),
        BoardLoadError::MissingStartRoom { role: "dog".to_string() }
    );
}

#[test]
fn shared_floor_searches_agree_with_the_serial_search() {
    let mut game = tiny_two_player_game_state();
    for round in 0..2 {
        for depth in 0..4 {
            let mut visited = 0usize;
            let serial = TreeSearch::find_best_turn(&game, depth, &NeverCancelToken, &mut visited, 1);
            let prioritized = TreeSearch::find_best_turn_two_players_parallel_prioritized(game.clone(), depth, &NeverCancelToken);
            let dealt = TreeSearch::find_best_turn_two_players_parallel(game.clone(), depth, &NeverCancelToken, 3);
            let serial_turn = serial.turn.map(|t| t.to_string());
            assert_eq!(prioritized.appraisal, serial.appraisal, "prioritized, round {round}, depth {depth}");
            assert_eq!(prioritized.turn.map(|t| t.to_string()), serial_turn, "prioritized turn, round {round}, depth {depth}");
            assert_eq!(dealt.appraisal, serial.appraisal, "dealt, round {round}, depth {depth}");
        }
        let opening = if round == 0 { "1@2;" } else { "3@3;" };
        let turn = turn_by_text(&game, opening);
        game.after_normal_turn(turn);
    }
}

#[test]
fn many_player_search_at_depth_one_maximises_the_child_appraisals() {
    let game = sample_game_state();
    let me = game.current_player_id;
    let mut best: Option<(i64, String)> = None;
    for turn in game.possible_turns() {
        let mut child = game.clone();
        child.after_normal_turn(turn.clone());
        let value = child.heuristic_score(me);
        if best.as_ref().map_or(true, |(b, _)| *b < value) {
            best = Some((value, turn.to_string()));
        }
    }
    let mut visited = 0usize;
    let result = TreeSearch::find_best_turn(&game, 1, &NeverCancelToken, &mut visited, 1);
    let (value, text) = best.unwrap();
    assert_eq!(result.appraisal, value);
    assert_eq!(result.turn.unwrap().to_string(), text);
    assert_eq!(visited, 1 + game.possible_turns().len());
}

#[test]
fn history_keeps_each_state_for_undo() {
    let game = tiny_two_player_game_state();
    let mut history = GameHistory::new(game.clone());
    assert_eq!(history.ply(), 0);
    assert_eq!(history.prev_player_id(), None);
    let opening = turn_by_text(history.current(), "1@2;");
    history.apply_turn(opening);
    assert_eq!(history.ply(), 1);
    assert_eq!(history.prev_player_id(), Some(PlayerId(0)));
    assert_eq!(history.current().current_player_id, PlayerId(2));
    let reply = turn_by_text(history.current(), "3@2;");
    history.apply_turn(reply);
    assert_eq!(history.current().turn_id, 5);
    assert!(history.undo_last_turn());
    assert_eq!(history.current().current_player_id, PlayerId(2));
    assert!(history.undo_last_turn());
    assert_eq!(*history.current(), game);
    assert!(!history.undo_last_turn());
}

#[test]
fn reachable_rooms_lists_rooms_within_reach() {
    let game = tiny_two_player_game_state();
    assert_eq!(game.reachable_rooms(PlayerId(0), 0), vec![RoomId(1)]);
    assert_eq!(game.reachable_rooms(PlayerId(0), 1), vec![RoomId(1), RoomId(2)]);
    assert_eq!(game.reachable_rooms(PlayerId(0), 5), vec![RoomId(1), RoomId(2), RoomId(3), RoomId(4)]);
}
