//! A turn: the moves of one to two pieces.

use vstd::prelude::*;
use crate::player::{PlayerId, PlayerMove, player_moves_to_nice_string, turn_text};
use crate::room::RoomId;
use crate::rule_helper::INVALID_PLAYER_ID;

verus! {

#[derive(Clone, Debug, PartialEq, Eq)]
pub struct SimpleTurn {
    pub moves: Vec<PlayerMove>,
}

impl SimpleTurn {
    pub fn new(moves: Vec<PlayerMove>) -> (r: SimpleTurn)
        ensures
            r.moves@ == moves@,
    {
        SimpleTurn { moves }
    }

    pub fn single(player_id: PlayerId, dest_room_id: RoomId) -> (r: SimpleTurn)
        ensures
            r.moves@ == seq![PlayerMove { player_id, dest_room_id }],
    {
        SimpleTurn { moves: vec![PlayerMove::new(player_id, dest_room_id)] }
    }

    pub fn from_move(player_move: PlayerMove) -> (r: SimpleTurn)
        ensures
            r.moves@ == seq![player_move],
    {
        SimpleTurn { moves: vec![player_move] }
    }

    /// The turn that moves the invalid player to room 0: a placeholder that no
    /// state accepts.
    pub fn invalid_default() -> (r: SimpleTurn)
        ensures
            r.moves@ == seq![PlayerMove { player_id: PlayerId(INVALID_PLAYER_ID), dest_room_id: RoomId(0) }],
    {
        SimpleTurn::single(PlayerId(INVALID_PLAYER_ID), RoomId(0))
    }

    /// A copy with the same moves.
    pub fn copy(&self) -> (r: SimpleTurn)
        ensures
            r.moves@ == self.moves@,
    {
        let mut moves: Vec<PlayerMove> = Vec::new();
        let mut i: usize = 0;
        while i < self.moves.len()
            invariant
                i <= self.moves@.len(),
                moves@ == self.moves@.subrange(0, i as int),
            decreases self.moves.len() - i,
        {
            moves.push(self.moves[i]);
            assert(moves@ =~= self.moves@.subrange(0, i as int + 1));
            i = i + 1;
        }
        assert(self.moves@.subrange(0, self.moves@.len() as int) =~= self.moves@);
        SimpleTurn { moves }
    }

    /// Notation of the turn, such as `1@2 2@7;`.
    pub fn to_string(&self) -> (r: String)
        ensures
            r@ == turn_text(self.moves@),
    {
        player_moves_to_nice_string(self.moves.as_slice())
    }
}

impl Default for SimpleTurn {
    fn default() -> (r: SimpleTurn)
        ensures
            r.moves@ == seq![PlayerMove { player_id: PlayerId(INVALID_PLAYER_ID), dest_room_id: RoomId(0) }],
    {
        SimpleTurn::invalid_default()
    }
}

impl From<SimpleTurn> for Vec<PlayerMove> {
    fn from(simple_turn: SimpleTurn) -> (r: Vec<PlayerMove>)
        ensures
            r@ == simple_turn.moves@,
    {
        simple_turn.moves
    }
}

impl vstd::std_specs::convert::FromSpecImpl<SimpleTurn> for Vec<PlayerMove> {
    open spec fn obeys_from_spec() -> bool {
        true
    }

    open spec fn from_spec(v: SimpleTurn) -> Vec<PlayerMove> {
        v.moves
    }
}

} // verus!
