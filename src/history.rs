//! The chain of states of a match, kept as an arena: each state's predecessor
//! is the one before it, so undo and replay need no deep copies of the chain.

use vstd::prelude::*;
use crate::mutable_game_state::{MAX_FORCED_SUBTURNS, MutableGameState, TURN_LIMIT, spec_after_turn, spec_turn_legal};
use crate::player::PlayerId;
use crate::simple_turn::SimpleTurn;

verus! {

/// `next` is `prev` after some legal turn.
pub open spec fn follows(prev: MutableGameState, next: MutableGameState) -> bool {
    exists|moves: Seq<crate::player::PlayerMove>| spec_turn_legal(*prev.common, prev.model(), moves)
        && next.model() == #[trigger] spec_after_turn(*prev.common, prev.model(), moves)
}

pub struct GameHistory {
    /// The states from the start of the match, the current one last.
    pub states: Vec<MutableGameState>,
}

impl GameHistory {
    /// Every state is well formed and of the same match, and each follows its
    /// predecessor by one turn.
    pub open spec fn wf(&self) -> bool {
        &&& self.states@.len() >= 1
        &&& forall|k: int| 0 <= k < self.states@.len() ==> (#[trigger] self.states@[k]).wf()
            && self.states@[k].common == self.states@[0].common
        &&& forall|k: int| 1 <= k < self.states@.len() ==> follows(self.states@[k - 1], #[trigger] self.states@[k])
    }

    pub open spec fn spec_current(&self) -> MutableGameState {
        self.states@.last()
    }

    /// A history that starts at `start`.
    pub fn new(start: MutableGameState) -> (r: GameHistory)
        requires
            start.wf(),
        ensures
            r.wf(),
            r.states@ == seq![start],
    {
        GameHistory { states: vec![start] }
    }

    /// The state the match is in.
    pub fn current(&self) -> (r: &MutableGameState)
        requires
            self.wf(),
        ensures
            *r == self.spec_current(),
    {
        let n = self.states.len();
        &self.states[n - 1]
    }

    /// Applies a legal turn to the current state and records the result.
    #[verifier::spinoff_prover]
    #[verifier::rlimit(50)]
    pub fn apply_turn(&mut self, turn: SimpleTurn)
        requires
            old(self).wf(),
            spec_turn_legal(*old(self).spec_current().common, old(self).spec_current().model(), turn.moves@),
            old(self).spec_current().turn_id + MAX_FORCED_SUBTURNS < TURN_LIMIT,
        ensures
            final(self).wf(),
            final(self).states@.len() == old(self).states@.len() + 1,
            final(self).states@.subrange(0, old(self).states@.len() as int) == old(self).states@,
            final(self).spec_current().model()
                == spec_after_turn(*old(self).spec_current().common, old(self).spec_current().model(), turn.moves@),
    {
        let n = self.states.len();
        let mut next = self.states[n - 1].copy_state();
        let ghost moves = turn.moves@;
        let ghost prev = self.states@[n - 1];
        next.after_normal_turn(turn);
        proof {
            assert(spec_turn_legal(*prev.common, prev.model(), moves)
                && next.model() == spec_after_turn(*prev.common, prev.model(), moves));
            assert(follows(prev, next));
        }
        let ghost before = self.states@;
        self.states.push(next);
        proof {
            assert(self.states@.subrange(0, before.len() as int) =~= before);
            assert forall|k: int| 1 <= k < self.states@.len() implies follows(self.states@[k - 1], #[trigger] self.states@[k]) by {
                if k < before.len() {
                    assert(self.states@[k] == before[k] && self.states@[k - 1] == before[k - 1]);
                } else {
                    assert(self.states@[k - 1] == prev);
                    assert(self.states@[k] == next);
                }
            }
        }
    }

    /// Goes back to the state before the last turn; false at the start.
    pub fn undo_last_turn(&mut self) -> (r: bool)
        requires
            old(self).wf(),
        ensures
            final(self).wf(),
            r == (old(self).states@.len() > 1),
            r ==> final(self).states@ == old(self).states@.drop_last(),
            !r ==> final(self).states@ == old(self).states@,
    {
        if self.states.len() <= 1 {
            return false;
        }
        let ghost before = self.states@;
        self.states.pop();
        proof {
            assert(self.states@ =~= before.drop_last());
            assert forall|k: int| 1 <= k < self.states@.len() implies follows(self.states@[k - 1], #[trigger] self.states@[k]) by {
                assert(self.states@[k] == before[k] && self.states@[k - 1] == before[k - 1]);
            }
        }
        true
    }

    /// Normal turns played so far.
    pub fn ply(&self) -> (r: usize)
        requires
            self.wf(),
        ensures
            r == self.states@.len() - 1,
    {
        self.states.len() - 1
    }

    /// The player who took the last turn, or none at the start.
    pub fn prev_player_id(&self) -> (r: Option<PlayerId>)
        requires
            self.wf(),
        ensures
            self.states@.len() == 1 ==> r is None,
            self.states@.len() > 1 ==> r == Some(self.states@[self.states@.len() - 2].current_player_id),
    {
        let n = self.states.len();
        if n <= 1 {
            None
        } else {
            Some(self.states[n - 2].current_player_id)
        }
    }
}

} // verus!
