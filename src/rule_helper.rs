//! Rule constants and the fixed mapping between player ids and sides.

use vstd::prelude::*;
use crate::player::PlayerId;

verus! {

/// Card quantities are fixed-point numbers: one whole card is this many units.
/// Every fraction the rules use (11/32, 53/24, 50/24) is exact at this scale.
pub const CARD_UNIT: i64 = 9600;

pub const PLAYER_STARTING_MOVE_CARDS: i64 = 19200;
pub const MOVE_CARDS_PER_LOOT: i64 = 3300;
pub const PLAYER_STARTING_WEAPONS: i64 = 19200;
pub const WEAPONS_PER_LOOT: i64 = 3300;
/// Attack strength gained by spending one weapon (53/24 of a card).
pub const STRENGTH_PER_WEAPON: i64 = 21200;
pub const PLAYER_STARTING_FAILURES: i64 = 38400;
pub const FAILURES_PER_LOOT: i64 = 3300;
/// One failure card is worth 50/24 clovers: 25 clover units per 12 card units.
pub const CLOVERS_PER_FAILURE_NUM: i64 = 25;
pub const CLOVERS_PER_FAILURE_DEN: i64 = 12;

pub const STRANGERS_ARE_NOSY: bool = false;

pub const PLAYER_STARTING_STRENGTH: i32 = 1;
pub const NORMAL_PLAYER_NUM_STARTING_CARDS: i32 = 6;
pub const NUM_NORMAL_PLAYERS_WHEN_HAVE_STRANGERS: i32 = 2;
pub const NUM_ALL_PLAYERS_WHEN_HAVE_STRANGERS: i32 = 4;

/// The id that belongs to no player.
pub const INVALID_PLAYER_ID: i32 = -1;
pub const NORMAL_PLAYER_ID_FIRST: i32 = 0;
pub const STRANGER_PLAYER_ID_FIRST: i32 = 1;
pub const NORMAL_PLAYER_ID_SECOND: i32 = 2;
pub const STRANGER_PLAYER_ID_SECOND: i32 = 3;

pub const SIDE_A_NORMAL_PLAYER_ID: i32 = 0;
pub const SIDE_B_STRANGER_PLAYER_ID: i32 = 1;
pub const SIDE_B_NORMAL_PLAYER_ID: i32 = 2;
pub const SIDE_A_STRANGER_PLAYER_ID: i32 = 3;

/// Appraisal of a won position: the largest finite appraisal. Its negation is
/// `HEURISTIC_SCORE_LOSS`; only the two empty appraisals of a search lie beyond.
pub const HEURISTIC_SCORE_WIN: i64 = 9223372036854775806;
pub const HEURISTIC_SCORE_LOSS: i64 = -9223372036854775806;

pub open spec fn spec_num_all_players(num_normal_players: int) -> int {
    if num_normal_players == 2 { 4 } else { num_normal_players }
}

/// True for the two ids of side A (its normal player and its allied stranger).
pub open spec fn is_side_a(player_id: int) -> bool {
    player_id == 0 || player_id == 3
}

pub open spec fn spec_to_normal_player_id(player_id: int, num_normal_players: int) -> int {
    if num_normal_players != 2 {
        player_id
    } else if is_side_a(player_id) {
        0
    } else {
        2
    }
}

pub open spec fn spec_allied_stranger(player_id: int) -> int {
    if is_side_a(player_id) {
        3
    } else if player_id == 1 || player_id == 2 {
        1
    } else {
        -1
    }
}

pub open spec fn spec_opposing_normal_player(player_id: int) -> int {
    if is_side_a(player_id) { 2 } else { 0 }
}

pub open spec fn spec_opposing_stranger(player_id: int) -> int {
    spec_allied_stranger(spec_opposing_normal_player(player_id))
}

/// Size of the roster: two normal players are joined by two strangers.
pub fn num_all_players(num_normal_players: i32) -> (r: i32)
    ensures
        r as int == spec_num_all_players(num_normal_players as int),
{
    if num_normal_players == NUM_NORMAL_PLAYERS_WHEN_HAVE_STRANGERS {
        NUM_ALL_PLAYERS_WHEN_HAVE_STRANGERS
    } else {
        num_normal_players
    }
}

/// The normal player on whose side `player_id` plays.
pub fn to_normal_player_id(player_id: PlayerId, num_normal_players: i32) -> (r: PlayerId)
    ensures
        r.0 as int == spec_to_normal_player_id(player_id.0 as int, num_normal_players as int),
{
    if num_normal_players != NUM_NORMAL_PLAYERS_WHEN_HAVE_STRANGERS {
        return player_id;
    }
    if player_id.0 == SIDE_A_NORMAL_PLAYER_ID || player_id.0 == SIDE_A_STRANGER_PLAYER_ID {
        PlayerId(SIDE_A_NORMAL_PLAYER_ID)
    } else {
        PlayerId(SIDE_B_NORMAL_PLAYER_ID)
    }
}

/// The stranger allied with `player_id`, or the invalid id for an id of no side.
pub fn allied_stranger(player_id: PlayerId) -> (r: PlayerId)
    ensures
        r.0 as int == spec_allied_stranger(player_id.0 as int),
{
    if player_id.0 == SIDE_A_NORMAL_PLAYER_ID || player_id.0 == SIDE_A_STRANGER_PLAYER_ID {
        PlayerId(SIDE_A_STRANGER_PLAYER_ID)
    } else if player_id.0 == SIDE_B_NORMAL_PLAYER_ID || player_id.0 == SIDE_B_STRANGER_PLAYER_ID {
        PlayerId(SIDE_B_STRANGER_PLAYER_ID)
    } else {
        PlayerId(INVALID_PLAYER_ID)
    }
}

/// The normal player of the other side.
pub fn opposing_normal_player(player_id: PlayerId) -> (r: PlayerId)
    ensures
        r.0 as int == spec_opposing_normal_player(player_id.0 as int),
{
    if player_id.0 == SIDE_A_NORMAL_PLAYER_ID || player_id.0 == SIDE_A_STRANGER_PLAYER_ID {
        PlayerId(SIDE_B_NORMAL_PLAYER_ID)
    } else {
        PlayerId(SIDE_A_NORMAL_PLAYER_ID)
    }
}

/// The stranger of the other side.
pub fn opposing_stranger(player_id: PlayerId) -> (r: PlayerId)
    ensures
        r.0 as int == spec_opposing_stranger(player_id.0 as int),
{
    allied_stranger(opposing_normal_player(player_id))
}

} // verus!
