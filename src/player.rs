//! Pieces, their moves and the turn notation.

use vstd::prelude::*;
use crate::room::RoomId;
use crate::text::{int_text, push_int};

verus! {

/// Identifies one piece of the roster by its index.
#[derive(Clone, Copy, Debug, PartialEq, Eq, Hash, Structural)]
pub struct PlayerId(pub i32);

/// What the moving player may do at the end of its move.
#[derive(Clone, Copy, Debug, PartialEq, Eq, Structural)]
pub enum PlayerAction {
    Nothing,
    Loot,
    Attack,
}

#[derive(Clone, Copy, Debug, PartialEq, Eq, Structural)]
pub enum PlayerType {
    Normal,
    Stranger,
}

/// One piece going to one room.
#[derive(Clone, Copy, Debug, PartialEq, Eq, Structural)]
pub struct PlayerMove {
    pub player_id: PlayerId,
    pub dest_room_id: RoomId,
}

/// Notation of a move: the 1-based player number, `@`, the room id.
pub open spec fn move_text(m: PlayerMove) -> Seq<char> {
    int_text(m.player_id.0 as int + 1) + seq!['@'] + int_text(m.dest_room_id.0 as int)
}

/// Moves in notation, separated by single spaces.
pub open spec fn moves_text(moves: Seq<PlayerMove>) -> Seq<char>
    decreases moves.len(),
{
    if moves.len() == 0 {
        Seq::empty()
    } else if moves.len() == 1 {
        move_text(moves[0])
    } else {
        moves_text(moves.drop_last()) + seq![' '] + move_text(moves.last())
    }
}

/// Notation of a whole turn: its moves, then `;`.
pub open spec fn turn_text(moves: Seq<PlayerMove>) -> Seq<char> {
    moves_text(moves) + seq![';']
}

impl PlayerMove {
    pub fn new(player_id: PlayerId, dest_room_id: RoomId) -> (r: PlayerMove)
        ensures
            r.player_id == player_id,
            r.dest_room_id == dest_room_id,
    {
        PlayerMove { player_id, dest_room_id }
    }

    /// Appends the notation of the move.
    pub fn push_text(&self, s: &mut String)
        ensures
            final(s)@ == old(s)@ + move_text(*self),
    {
        push_int(s, self.player_id.0 as i64 + 1);
        proof { reveal_strlit("@"); }
        s.append("@");
        push_int(s, self.dest_room_id.0 as i64);
    }

    /// Notation of the move, such as `1@7`.
    pub fn to_string(&self) -> (r: String)
        ensures
            r@ == move_text(*self),
    {
        let mut s = String::new();
        self.push_text(&mut s);
        assert(s@ =~= move_text(*self));
        s
    }
}

/// Notation of a turn made of `moves`, such as `1@4 3@9;`.
pub fn player_moves_to_nice_string(moves: &[PlayerMove]) -> (r: String)
    ensures
        r@ == turn_text(moves@),
{
    let mut s = String::new();
    let mut i: usize = 0;
    while i < moves.len()
        invariant
            i <= moves@.len(),
            s@ == moves_text(moves@.subrange(0, i as int)),
        decreases moves.len() - i,
    {
        proof { reveal_strlit(" "); }
        if i > 0 {
            s.append(" ");
        }
        moves[i].push_text(&mut s);
        proof {
            let prefix = moves@.subrange(0, i as int + 1);
            assert(prefix.drop_last() =~= moves@.subrange(0, i as int));
            assert(prefix.last() == moves@[i as int]);
            if i > 0 {
                assert(moves_text(prefix) == moves_text(prefix.drop_last()) + seq![' '] + move_text(prefix.last()));
            } else {
                assert(moves_text(moves@.subrange(0, 0)) =~= Seq::<char>::empty());
            }
            assert(s@ =~= moves_text(prefix));
        }
        i = i + 1;
    }
    assert(moves@.subrange(0, moves@.len() as int) =~= moves@);
    proof { reveal_strlit(";"); }
    s.append(";");
    s
}

} // verus!
