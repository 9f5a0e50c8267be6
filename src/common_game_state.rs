//! What stays fixed for a whole match: the board and the roster.

use vstd::prelude::*;
use crate::board::Board;
use crate::player::{PlayerId, PlayerType};
use crate::rule_helper::{spec_num_all_players, spec_to_normal_player_id, to_normal_player_id, NUM_NORMAL_PLAYERS_WHEN_HAVE_STRANGERS};
use crate::text::{nat_text, push_nat};

verus! {

/// Largest roster a match accepts.
pub const MAX_PLAYERS: usize = 16;

#[derive(Clone, Debug)]
pub struct CommonGameState {
    pub is_log_enabled: bool,
    pub board: Board,
    pub num_normal_players: usize,
    pub num_all_players: usize,
}

pub open spec fn spec_player_type(has_strangers: bool, player_id: int) -> PlayerType {
    if has_strangers && player_id >= 0 && player_id % 2 == 1 { PlayerType::Stranger } else { PlayerType::Normal }
}

impl CommonGameState {
    pub open spec fn spec_has_strangers(&self) -> bool {
        self.num_normal_players == 2
    }

    /// A roster the rules can run: one or more normal players, strangers
    /// exactly when there are two, and a well-formed board with rooms.
    pub open spec fn wf(&self) -> bool {
        &&& 1 <= self.num_normal_players
        &&& 1 <= self.num_all_players <= MAX_PLAYERS
        &&& self.num_all_players as int == spec_num_all_players(self.num_normal_players as int)
        &&& self.board.wf()
        &&& self.board.room_ids@.len() >= 1
    }

    pub fn new(is_log_enabled: bool, board: Board, num_normal_players: usize, num_all_players: usize) -> (r: CommonGameState)
        ensures
            r.is_log_enabled == is_log_enabled,
            r.board == board,
            r.num_normal_players == num_normal_players,
            r.num_all_players == num_all_players,
    {
        CommonGameState { is_log_enabled, board, num_normal_players, num_all_players }
    }

    /// The roster of `num_normal_players` normal players, with two strangers
    /// added when there are two.
    pub fn from_num_normal_players(is_log_enabled: bool, board: Board, num_normal_players: usize) -> (r: CommonGameState)
        ensures
            r.is_log_enabled == is_log_enabled,
            r.board == board,
            r.num_normal_players == num_normal_players,
            r.num_all_players as int == spec_num_all_players(num_normal_players as int),
    {
        let num_all_players = if num_normal_players == 2 { 4 } else { num_normal_players };
        Self::new(is_log_enabled, board, num_normal_players, num_all_players)
    }

    pub fn has_strangers(&self) -> (r: bool)
        ensures
            r == self.spec_has_strangers(),
    {
        self.num_normal_players == NUM_NORMAL_PLAYERS_WHEN_HAVE_STRANGERS as usize
    }

    /// Strangers hold the odd ids of a roster that has them.
    pub fn get_player_type(&self, player_id: PlayerId) -> (r: PlayerType)
        ensures
            r == spec_player_type(self.spec_has_strangers(), player_id.0 as int),
    {
        if self.has_strangers() && player_id.0 >= 0 && player_id.0 % 2 == 1 {
            PlayerType::Stranger
        } else {
            PlayerType::Normal
        }
    }

    pub fn to_player_id(player_display_num: usize) -> (r: PlayerId)
        requires
            1 <= player_display_num <= MAX_PLAYERS,
        ensures
            r.0 == player_display_num - 1,
    {
        PlayerId((player_display_num - 1) as i32)
    }

    pub fn to_player_display_num(player_id: PlayerId) -> (r: usize)
        requires
            0 <= player_id.0 < MAX_PLAYERS,
        ensures
            r == player_id.0 + 1,
    {
        (player_id.0 + 1) as usize
    }

    /// `P` and the 1-based number for a normal player, `p` for a stranger.
    pub fn player_text(&self, player_id: PlayerId) -> (r: String)
        requires
            0 <= player_id.0 < MAX_PLAYERS,
        ensures
            r@ == (if spec_player_type(self.spec_has_strangers(), player_id.0 as int) == PlayerType::Normal { seq!['P'] } else { seq!['p'] })
                + nat_text((player_id.0 + 1) as nat),
    {
        proof {
            reveal_strlit("P");
            reveal_strlit("p");
        }
        let mut s = if self.get_player_type(player_id) == PlayerType::Normal {
            String::from_str("P")
        } else {
            String::from_str("p")
        };
        push_nat(&mut s, (player_id.0 + 1) as u64);
        s
    }

    /// Ids of the whole roster, ascending.
    pub fn player_ids(&self) -> (r: Vec<PlayerId>)
        requires
            self.num_all_players <= MAX_PLAYERS,
        ensures
            r@.len() == self.num_all_players,
            forall|i: int| 0 <= i < r@.len() ==> r@[i] == PlayerId(i as i32),
    {
        let mut r: Vec<PlayerId> = Vec::new();
        let mut i: usize = 0;
        while i < self.num_all_players
            invariant
                i <= self.num_all_players <= MAX_PLAYERS,
                r@.len() == i,
                forall|j: int| 0 <= j < i ==> r@[j] == PlayerId(j as i32),
            decreases self.num_all_players - i,
        {
            r.push(PlayerId(i as i32));
            i = i + 1;
        }
        r
    }

    pub fn to_normal_player_id(&self, player_id: PlayerId) -> (r: PlayerId)
        requires
            self.num_normal_players <= MAX_PLAYERS,
        ensures
            r.0 as int == spec_to_normal_player_id(player_id.0 as int, self.num_normal_players as int),
    {
        to_normal_player_id(player_id, self.num_normal_players as i32)
    }
}

/// Two rosters are equal when they play on boards of the same name with the
/// same numbers of players.
impl PartialEq for CommonGameState {
    fn eq(&self, other: &CommonGameState) -> (r: bool)
        ensures
            r == (self.board.name@ == other.board.name@ && self.num_normal_players == other.num_normal_players
                && self.num_all_players == other.num_all_players),
    {
        self.board.name == other.board.name && self.num_normal_players == other.num_normal_players
            && self.num_all_players == other.num_all_players
    }
}

impl vstd::std_specs::cmp::PartialEqSpecImpl for CommonGameState {
    open spec fn obeys_eq_spec() -> bool {
        true
    }

    open spec fn eq_spec(&self, other: &CommonGameState) -> bool {
        self.board.name@ == other.board.name@ && self.num_normal_players == other.num_normal_players
            && self.num_all_players == other.num_all_players
    }
}

} // verus!
