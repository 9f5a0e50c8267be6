use kdl_rust::common_game_state::CommonGameState;
use kdl_rust::board::Board;
use kdl_rust::player::{PlayerId, PlayerMove, PlayerType, player_moves_to_nice_string};
use kdl_rust::room::{Room, RoomId, room_ids};
use kdl_rust::rule_helper::{
    INVALID_PLAYER_ID, NUM_NORMAL_PLAYERS_WHEN_HAVE_STRANGERS, SIDE_A_NORMAL_PLAYER_ID, SIDE_A_STRANGER_PLAYER_ID,
    SIDE_B_NORMAL_PLAYER_ID, SIDE_B_STRANGER_PLAYER_ID, STRANGER_PLAYER_ID_FIRST, STRANGER_PLAYER_ID_SECOND,
    allied_stranger, num_all_players, opposing_normal_player, opposing_stranger, to_normal_player_id,
};
use kdl_rust::simple_turn::SimpleTurn;
use kdl_rust::wing::Wing;

fn line_rooms() -> Vec<Room> {
    vec![
        Room::new(RoomId(1), "A", vec![RoomId(2)], vec![RoomId(2)]),
        Room::new(RoomId(2), "B", vec![RoomId(1), RoomId(3)], vec![RoomId(1), RoomId(3)]),
        Room::new(RoomId(3), "C", vec![RoomId(2), RoomId(4)], vec![RoomId(2), RoomId(4)]),
        Room::new(RoomId(4), "D", vec![RoomId(3)], vec![RoomId(3)]),
    ]
}

fn two_room_board() -> Board {
    let rooms = vec![
        Room::new(RoomId(1), "A", vec![RoomId(2)], vec![RoomId(2)]),
        Room::new(RoomId(2), "B", vec![RoomId(1)], vec![RoomId(1)]),
    ];
    Board::new("tiny", rooms, RoomId(1), RoomId(1), RoomId(1), RoomId(1), None)
}

#[test]
fn room_display_matches_csharp_format() {
    let room = Room {
        id: RoomId(1),
        name: "Hall".into(),
        adjacent: vec![RoomId(2), RoomId(3)],
        visible: vec![RoomId(4), RoomId(5)],
    };
    assert_eq!(room.to_string(), "1;Hall;A:2,3;V:4,5");
}

#[test]
#[allow(non_snake_case)]
fn Room_display_matches_csharp_format() {
    let room = Room::new(RoomId(1), "Hall", vec![RoomId(2), RoomId(3)], vec![RoomId(4), RoomId(5)]);
    assert_eq!(room.to_string(), "1;Hall;A:2,3;V:4,5");
}

#[test]
fn room_without_closed_filters_lists() {
    let room = Room {
        id: RoomId(7),
        name: "Parlor".into(),
        adjacent: vec![RoomId(1), RoomId(2), RoomId(3)],
        visible: vec![RoomId(3), RoomId(4), RoomId(5)],
    };
    let filtered = room.without_closed(&[RoomId(2), RoomId(4)]);
    assert_eq!(filtered.id, RoomId(7));
    assert_eq!(filtered.name, "Parlor");
    assert_eq!(filtered.adjacent, vec![RoomId(1), RoomId(3)]);
    assert_eq!(filtered.visible, vec![RoomId(3), RoomId(5)]);
}

#[test]
#[allow(non_snake_case)]
fn Room_without_closed_filters_lists() {
    let room = Room::new(RoomId(7), "Parlor", vec![RoomId(1), RoomId(2), RoomId(3)], vec![RoomId(3), RoomId(4), RoomId(5)]);
    let filtered = room.without_closed(&[RoomId(2), RoomId(4)]);
    assert_eq!(filtered.id, RoomId(7));
    assert_eq!(filtered.name, "Parlor");
    assert_eq!(filtered.adjacent, vec![RoomId(1), RoomId(3)]);
    assert_eq!(filtered.visible, vec![RoomId(3), RoomId(5)]);
}

#[test]
fn room_room_ids_iterates_over_rooms() {
    let rooms = vec![
        Room::new(RoomId(10), "A", Vec::<RoomId>::new(), Vec::<RoomId>::new()),
        Room::new(RoomId(11), "B", Vec::<RoomId>::new(), Vec::<RoomId>::new()),
    ];
    let ids: Vec<RoomId> = room_ids(&rooms);
    assert_eq!(ids, vec![RoomId(10), RoomId(11)]);
}

#[test]
#[allow(non_snake_case)]
fn Room_room_ids_iterates_over_rooms() {
    let rooms = vec![
        Room::new(RoomId(10), "A", vec![], vec![]),
        Room::new(RoomId(11), "B", vec![], vec![]),
    ];
    assert_eq!(room_ids(&rooms), vec![RoomId(10), RoomId(11)]);
}

#[test]
fn adjacency_and_distance_are_populated() {
    let board = Board::new("test", line_rooms(), RoomId(1), RoomId(1), RoomId(1), RoomId(1), None);
    assert!(board.adjacency[1][2]);
    assert!(board.adjacency[2][1]);
    assert_eq!(board.adjacency_count[2], 2);
    assert_eq!(board.distance[1][4], 3);
}

#[test]
fn room_ids_in_doctor_visit_order_wraps() {
    let board = Board::new("test", line_rooms(), RoomId(1), RoomId(1), RoomId(1), RoomId(1), None);
    let visit_order = board.room_ids_in_doctor_visit_order(RoomId(2));
    assert_eq!(visit_order, vec![RoomId(2), RoomId(3), RoomId(4), RoomId(1)]);
}

#[test]
fn next_room_id_handles_negative_delta() {
    let ids = vec![RoomId(1), RoomId(2), RoomId(3)];
    assert_eq!(Board::next_room_id(RoomId(1), -1, &ids), RoomId(3));
    assert_eq!(Board::next_room_id(RoomId(1), -2, &ids), RoomId(2));
}

#[test]
fn constructors_match_csharp_overloads() {
    let board = two_room_board();
    let from_all_players = CommonGameState::new(true, board.clone(), 2, 4);
    let from_normal_players = CommonGameState::from_num_normal_players(true, board, 2);
    assert_eq!(from_all_players, from_normal_players);
}

#[test]
fn has_strangers_and_player_type_match_rules() {
    let game_state = CommonGameState::from_num_normal_players(true, two_room_board(), 2);
    assert!(game_state.has_strangers());
    assert_eq!(game_state.get_player_type(PlayerId(0)), PlayerType::Normal);
    assert_eq!(game_state.get_player_type(PlayerId(1)), PlayerType::Stranger);

    let no_strangers_state = CommonGameState::new(true, two_room_board(), 3, 3);
    assert!(!no_strangers_state.has_strangers());
    assert_eq!(no_strangers_state.get_player_type(PlayerId(1)), PlayerType::Normal);
}

#[test]
fn player_text_matches_expected_formatting() {
    let game_state = CommonGameState::from_num_normal_players(true, two_room_board(), 2);
    assert_eq!(game_state.player_text(PlayerId(0)), "P1");
    assert_eq!(game_state.player_text(PlayerId(1)), "p2");
}

#[test]
fn player_ids_iterate_over_all_players() {
    let game_state = CommonGameState::from_num_normal_players(true, two_room_board(), 2);
    let ids = game_state.player_ids();
    assert_eq!(ids, vec![PlayerId(0), PlayerId(1), PlayerId(2), PlayerId(3)]);
}

#[test]
fn equality_ignores_log_flag_but_considers_counts() {
    let board = two_room_board();
    let a = CommonGameState::from_num_normal_players(true, board.clone(), 2);
    let b = CommonGameState::from_num_normal_players(false, board.clone(), 2);
    let c = CommonGameState::new(true, board, 3, 3);
    assert_eq!(a, b);
    assert_ne!(a, c);
}

#[test]
fn to_normal_player_id_maps_strangers_to_normal_player_ids() {
    let game_state = CommonGameState::from_num_normal_players(true, two_room_board(), 2);
    assert_eq!(game_state.to_normal_player_id(PlayerId(1)), PlayerId(2));
    assert_eq!(game_state.to_normal_player_id(PlayerId(3)), PlayerId(0));

    let no_strangers_state = CommonGameState::new(true, two_room_board(), 3, 3);
    assert_eq!(no_strangers_state.to_normal_player_id(PlayerId(1)), PlayerId(1));
}

#[test]
fn player_move_display_matches_csharp() {
    let player_move = PlayerMove::new(PlayerId(0), RoomId(7));
    assert_eq!(player_move.to_string(), "1@7");
}

#[test]
fn player_moves_to_nice_string_matches_extension_method() {
    let moves = vec![PlayerMove::new(PlayerId(0), RoomId(4)), PlayerMove::new(PlayerId(2), RoomId(9))];
    assert_eq!(player_moves_to_nice_string(&moves), "1@4 3@9;");
}

#[test]
fn num_all_players_adds_strangers_when_needed() {
    assert_eq!(num_all_players(2), 4);
    assert_eq!(num_all_players(3), 3);
}

#[test]
fn to_normal_player_id_maps_strangers_to_allies() {
    assert_eq!(
        to_normal_player_id(PlayerId(STRANGER_PLAYER_ID_FIRST), NUM_NORMAL_PLAYERS_WHEN_HAVE_STRANGERS),
        PlayerId(SIDE_B_NORMAL_PLAYER_ID)
    );
    assert_eq!(
        to_normal_player_id(PlayerId(STRANGER_PLAYER_ID_SECOND), NUM_NORMAL_PLAYERS_WHEN_HAVE_STRANGERS),
        PlayerId(SIDE_A_NORMAL_PLAYER_ID)
    );
    assert_eq!(to_normal_player_id(PlayerId(STRANGER_PLAYER_ID_FIRST), 3), PlayerId(STRANGER_PLAYER_ID_FIRST));
}

#[test]
fn allied_and_opposing_player_helpers_match_switch_logic() {
    assert_eq!(allied_stranger(PlayerId(SIDE_A_NORMAL_PLAYER_ID)), PlayerId(SIDE_A_STRANGER_PLAYER_ID));
    assert_eq!(allied_stranger(PlayerId(SIDE_B_NORMAL_PLAYER_ID)), PlayerId(SIDE_B_STRANGER_PLAYER_ID));
    assert_eq!(opposing_normal_player(PlayerId(SIDE_A_NORMAL_PLAYER_ID)), PlayerId(SIDE_B_NORMAL_PLAYER_ID));
    assert_eq!(opposing_normal_player(PlayerId(SIDE_B_STRANGER_PLAYER_ID)), PlayerId(SIDE_A_NORMAL_PLAYER_ID));
    assert_eq!(opposing_stranger(PlayerId(SIDE_B_NORMAL_PLAYER_ID)), PlayerId(SIDE_A_STRANGER_PLAYER_ID));
}

#[test]
fn default_turn_uses_invalid_player() {
    let default_turn = SimpleTurn::default();
    assert_eq!(default_turn.moves, vec![PlayerMove::new(PlayerId(INVALID_PLAYER_ID), RoomId(0))]);
}

#[test]
fn single_constructor_creates_one_move() {
    let turn = SimpleTurn::single(PlayerId(2), RoomId(5));
    assert_eq!(turn.moves, vec![PlayerMove::new(PlayerId(2), RoomId(5))]);
}

#[test]
fn from_move_wraps_move() {
    let mv = PlayerMove::new(PlayerId(1), RoomId(3));
    let turn = SimpleTurn::from_move(mv);
    assert_eq!(turn.moves, vec![mv]);
}

#[test]
fn simple_turn_display_matches_csharp_format() {
    let turn = SimpleTurn::new(vec![PlayerMove::new(PlayerId(0), RoomId(2)), PlayerMove::new(PlayerId(1), RoomId(7))]);
    assert_eq!(turn.to_string(), "1@2 2@7;");
}

#[test]
fn into_vec_matches_implicit_conversion() {
    let turn = SimpleTurn::new(vec![PlayerMove::new(PlayerId(0), RoomId(4)), PlayerMove::new(PlayerId(3), RoomId(8))]);
    let moves: Vec<PlayerMove> = turn.into();
    assert_eq!(moves, vec![PlayerMove::new(PlayerId(0), RoomId(4)), PlayerMove::new(PlayerId(3), RoomId(8))]);
}

#[test]
fn wing_display_matches_csharp_format() {
    let wing = Wing::new("East Wing", vec![RoomId(1), RoomId(2), RoomId(3)]);
    assert_eq!(wing.to_string(), "East Wing;1,2,3");
}

#[test]
fn constructor_collects_room_ids() {
    let ids = vec![RoomId(4), RoomId(5)];
    let wing = Wing::new("West Wing", ids.clone());
    assert_eq!(wing.name, "West Wing");
    assert_eq!(wing.room_ids, ids);
}
