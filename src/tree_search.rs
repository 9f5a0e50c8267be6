//! Depth-limited search for the best turn: alpha-beta negamax for two sides,
//! plain maximisation for three or more.

use vstd::prelude::*;
use crate::cancellation::CancellationToken;
use crate::common_game_state::CommonGameState;
use crate::mutable_game_state::{GameModel, MutableGameState, TURN_LIMIT, spec_after_turn, spec_heuristic, spec_possible_turns, spec_turn_legal, turns_view};
use crate::player::{PlayerId, PlayerMove};
use crate::rule_helper::{HEURISTIC_SCORE_LOSS, HEURISTIC_SCORE_WIN};
use crate::simple_turn::SimpleTurn;

verus! {

/// Appraisal of a search that has seen no turn yet; below every real appraisal.
pub const APPRAISAL_EMPTY_MINIMUM: i64 = -9223372036854775808;
/// Above every real appraisal.
pub const APPRAISAL_EMPTY_MAXIMUM: i64 = 9223372036854775807;

/// Turn ids one search level can consume: the turn and its forced sub-turns.
pub const TURNS_PER_LEVEL: i32 = 65;

/// Negation that maps each empty appraisal to the other.
pub open spec fn spec_negate(x: int) -> int {
    if x == APPRAISAL_EMPTY_MINIMUM {
        APPRAISAL_EMPTY_MAXIMUM as int
    } else if x == APPRAISAL_EMPTY_MAXIMUM {
        APPRAISAL_EMPTY_MINIMUM as int
    } else {
        -x
    }
}

pub fn negate(x: i64) -> (r: i64)
    ensures
        r as int == spec_negate(x as int),
{
    if x == APPRAISAL_EMPTY_MINIMUM {
        APPRAISAL_EMPTY_MAXIMUM
    } else if x == APPRAISAL_EMPTY_MAXIMUM {
        APPRAISAL_EMPTY_MINIMUM
    } else {
        -x
    }
}

/// A turn with its appraisal and the state the search ended in.
pub struct AppraisedPlayerTurn {
    pub appraisal: i64,
    pub turn: Option<SimpleTurn>,
    pub ending_state: Option<MutableGameState>,
}

impl AppraisedPlayerTurn {
    pub fn new(appraisal: i64, turn: SimpleTurn, ending_state: MutableGameState) -> (r: AppraisedPlayerTurn)
        ensures
            r.appraisal == appraisal,
            r.turn == Some(turn),
            r.ending_state == Some(ending_state),
    {
        AppraisedPlayerTurn { appraisal, turn: Some(turn), ending_state: Some(ending_state) }
    }

    /// The state's own appraisal for `analysis_player_id`, with no turn.
    pub fn from_state(analysis_player_id: PlayerId, state: MutableGameState) -> (r: AppraisedPlayerTurn)
        requires
            state.wf(),
            0 <= analysis_player_id.0 < state.n(),
        ensures
            r.appraisal as int == spec_heuristic(*state.common, state.model(), analysis_player_id.0 as int),
            real_appraisal(r.appraisal),
            r.turn is None,
            r.ending_state == Some(state),
    {
        let appraisal = state.heuristic_score(analysis_player_id);
        AppraisedPlayerTurn { appraisal, turn: None, ending_state: Some(state) }
    }

    pub fn empty_minimum() -> (r: AppraisedPlayerTurn)
        ensures
            r.appraisal == APPRAISAL_EMPTY_MINIMUM,
            r.turn is None,
            r.ending_state is None,
    {
        AppraisedPlayerTurn { appraisal: APPRAISAL_EMPTY_MINIMUM, turn: None, ending_state: None }
    }

    pub fn empty_maximum() -> (r: AppraisedPlayerTurn)
        ensures
            r.appraisal == APPRAISAL_EMPTY_MAXIMUM,
            r.turn is None,
            r.ending_state is None,
    {
        AppraisedPlayerTurn { appraisal: APPRAISAL_EMPTY_MAXIMUM, turn: None, ending_state: None }
    }
}

/// Some pair of `r` carries index `k`.
pub open spec fn lists_index(r: Seq<(i64, usize)>, k: int) -> bool {
    exists|j: int| 0 <= j < r.len() && r[j].1 == k
}

/// Pairs of (score, index) in descending score order, equal scores in index order.
pub open spec fn sorted_desc(r: Seq<(i64, usize)>) -> bool {
    forall|i: int, j: int| 0 <= i < j < r.len() ==> r[i].0 > r[j].0 || (r[i].0 == r[j].0 && r[i].1 < r[j].1)
}

/// The indices of `keys` ordered by descending key; a stable order.
pub fn order_by_score_desc(keys: &Vec<i64>) -> (r: Vec<(i64, usize)>)
    ensures
        r@.len() == keys@.len(),
        sorted_desc(r@),
        forall|i: int| 0 <= i < r@.len() ==> (#[trigger] r@[i]).1 < keys@.len() && r@[i].0 == keys@[r@[i].1 as int],
        forall|i: int, j: int| 0 <= i < j < r@.len() ==> r@[i].1 != r@[j].1,
        forall|k: int| 0 <= k < keys@.len() ==> lists_index(r@, k),
{
    let mut r: Vec<(i64, usize)> = Vec::new();
    let mut i: usize = 0;
    while i < keys.len()
        invariant
            i <= keys@.len(),
            r@.len() == i,
            sorted_desc(r@),
            forall|j: int| 0 <= j < r@.len() ==> (#[trigger] r@[j]).1 < i && r@[j].0 == keys@[r@[j].1 as int],
            forall|a: int, b: int| 0 <= a < b < r@.len() ==> r@[a].1 != r@[b].1,
            forall|k: int| 0 <= k < i ==> lists_index(r@, k),
        decreases keys.len() - i,
    {
        let key = keys[i];
        let mut pos: usize = 0;
        while pos < r.len() && r[pos].0 >= key
            invariant
                pos <= r@.len(),
                forall|j: int| 0 <= j < pos ==> (#[trigger] r@[j]).0 >= key,
            decreases r.len() - pos,
        {
            pos = pos + 1;
        }
        let ghost before = r@;
        r.insert(pos, (key, i));
        proof {
            assert(forall|j: int| pos <= j < before.len() ==> (#[trigger] before[j]).0 < key) by {
                assert forall|j: int| pos <= j < before.len() implies (#[trigger] before[j]).0 < key by {
                    if pos < before.len() {
                        assert(before[pos as int].0 < key);
                        if j > pos {
                            assert(before[pos as int].0 > before[j].0 || before[pos as int].0 == before[j].0);
                        }
                    }
                }
            }
            assert forall|a: int, b: int| 0 <= a < b < r@.len() implies r@[a].0 > r@[b].0 || (r@[a].0 == r@[b].0 && r@[a].1 < r@[b].1) by {
                if a < pos && b < pos {
                    assert(r@[a] == before[a] && r@[b] == before[b]);
                } else if a < pos && b == pos {
                    assert(r@[a] == before[a]);
                } else if a < pos {
                    assert(r@[a] == before[a] && r@[b] == before[b - 1]);
                } else if a == pos {
                    assert(r@[b] == before[b - 1]);
                } else {
                    assert(r@[a] == before[a - 1] && r@[b] == before[b - 1]);
                }
            }
            assert forall|k: int| 0 <= k < i + 1 implies lists_index(r@, k) by {
                if k == i {
                    assert(r@[pos as int].1 == k);
                } else {
                    assert(r@ == before.insert(pos as int, (key, i)));
                    assert(lists_index(before, k));
                    let j = choose|j: int| 0 <= j < before.len() && before[j].1 == k;
                    if j < pos {
                        assert(r@[j] == before[j]);
                    } else {
                        assert(r@[j + 1] == before[j]);
                    }
                }
            }
            assert forall|a: int, b: int| 0 <= a < b < r@.len() implies r@[a].1 != r@[b].1 by {
                if a < pos && b < pos {
                    assert(r@[a] == before[a] && r@[b] == before[b]);
                } else if a < pos && b == pos {
                    assert(r@[a] == before[a]);
                } else if a < pos {
                    assert(r@[a] == before[a] && r@[b] == before[b - 1]);
                } else if a == pos {
                    assert(r@[b] == before[b - 1]);
                } else {
                    assert(r@[a] == before[a - 1] && r@[b] == before[b - 1]);
                }
            }
            assert forall|j: int| 0 <= j < r@.len() implies (#[trigger] r@[j]).1 < i + 1 && r@[j].0 == keys@[r@[j].1 as int] by {
                if j < pos {
                    assert(r@[j] == before[j]);
                } else if j > pos {
                    assert(r@[j] == before[j - 1]);
                }
            }
        }
        i = i + 1;
    }
    r
}

/// An appraisal of a real position: between the losing and winning sentinels.
pub open spec fn real_appraisal(x: i64) -> bool {
    HEURISTIC_SCORE_LOSS <= x <= HEURISTIC_SCORE_WIN
}

/// The empty result: no turn, no ending state, the empty minimum appraisal.
pub open spec fn empty_result(r: AppraisedPlayerTurn) -> bool {
    r.turn is None && r.ending_state is None && r.appraisal == APPRAISAL_EMPTY_MINIMUM
}

/// A result with an ending state and a real appraisal.
pub open spec fn settled(r: AppraisedPlayerTurn) -> bool {
    r.ending_state is Some && real_appraisal(r.appraisal)
}

/// Either nothing was searched yet, or a turn with a real appraisal was found.
pub open spec fn found_or_empty(r: AppraisedPlayerTurn) -> bool {
    empty_result(r) || (r.turn is Some && settled(r))
}

/// Search depth the state's turn counter leaves room for.
pub open spec fn search_fits(state: MutableGameState, depth: int) -> bool {
    0 <= depth <= 1000 && state.turn_id + (depth + 1) * TURNS_PER_LEVEL < TURN_LIMIT
}

/// The result of a search from `state`: its ending state belongs to the same
/// match, and its turn is one the state could take.
pub open spec fn result_fits(state: MutableGameState, r: AppraisedPlayerTurn) -> bool {
    &&& (r.ending_state matches Some(s) ==> s.wf() && s.common == state.common)
    &&& (r.turn is Some ==> r.ending_state is Some)
    &&& (settled(r) || empty_result(r))
    &&& (r.turn matches Some(t) ==> spec_possible_turns(*state.common, state.model()).contains(t.moves@))
}

/// `result_fits` without the settled-or-empty clause, for a best result that
/// starts at `empty_maximum`.
pub open spec fn result_fits_loosely(state: MutableGameState, r: AppraisedPlayerTurn) -> bool {
    &&& (r.ending_state matches Some(s) ==> s.wf() && s.common == state.common)
    &&& (r.turn is Some ==> r.ending_state is Some)
    &&& (r.turn matches Some(t) ==> spec_possible_turns(*state.common, state.model()).contains(t.moves@))
}

/// The states after each possible turn, with those turns, in enumeration order.
fn children(state: &MutableGameState) -> (r: (Vec<MutableGameState>, Vec<SimpleTurn>))
    requires
        state.wf(),
        state.turn_id + TURNS_PER_LEVEL < TURN_LIMIT,
    ensures
        r.0@.len() == r.1@.len(),
        turns_view(r.1@) == spec_possible_turns(*state.common, state.model()),
        forall|i: int| 0 <= i < r.0@.len() ==> (#[trigger] r.0@[i]).wf() && r.0@[i].common == state.common
            && r.0@[i].turn_id <= state.turn_id + TURNS_PER_LEVEL
            && r.0@[i].model() == spec_after_turn(*state.common, state.model(), r.1@[i].moves@),
        forall|i: int| 0 <= i < r.1@.len() ==> spec_possible_turns(*state.common, state.model()).contains((#[trigger] r.1@[i]).moves@),
{
    let turns = state.possible_turns();
    proof { state.lemma_possible_turns_legal(); }
    let mut states: Vec<MutableGameState> = Vec::new();
    let mut kept: Vec<SimpleTurn> = Vec::new();
    let mut k: usize = 0;
    while k < turns.len()
        invariant
            state.wf(),
            state.turn_id + TURNS_PER_LEVEL < TURN_LIMIT,
            turns_view(turns@) == spec_possible_turns(*state.common, state.model()),
            forall|i: int| 0 <= i < spec_possible_turns(*state.common, state.model()).len() ==>
                spec_turn_legal(*state.common, state.model(), #[trigger] spec_possible_turns(*state.common, state.model())[i]),
            k <= turns@.len(),
            states@.len() == k,
            kept@.len() == k,
            turns_view(kept@) == turns_view(turns@).subrange(0, k as int),
            forall|i: int| 0 <= i < states@.len() ==> (#[trigger] states@[i]).wf() && states@[i].common == state.common
                && states@[i].turn_id <= state.turn_id + TURNS_PER_LEVEL
                && states@[i].model() == spec_after_turn(*state.common, state.model(), kept@[i].moves@),
        decreases turns.len() - k,
    {
        let turn = turns[k].copy();
        let kept_turn = turn.copy();
        let mut next = state.copy_state();
        proof {
            assert(turns_view(turns@)[k as int] == turns@[k as int].moves@);
        }
        next.after_normal_turn(turn);
        let ghost before = kept@;
        states.push(next);
        kept.push(kept_turn);
        proof {
            assert(turns_view(kept@) =~= turns_view(turns@).subrange(0, k as int + 1));
        }
        k = k + 1;
    }
    proof {
        assert(turns_view(turns@).subrange(0, turns@.len() as int) =~= turns_view(turns@));
        assert forall|i: int| 0 <= i < kept@.len() implies spec_possible_turns(*state.common, state.model()).contains((#[trigger] kept@[i]).moves@) by {
            assert(turns_view(kept@)[i] == kept@[i].moves@);
        }
    }
    (states, kept)
}

/// The floor that the shared-floor searches share: the best appraisal reached
/// so far by any share of the root's children. It only ever rises.
pub struct SpinLockedAlpha {
    pub alpha: i64,
}

impl SpinLockedAlpha {
    pub fn new(alpha: i64) -> (r: Self)
        ensures
            r.alpha == alpha,
    {
        SpinLockedAlpha { alpha }
    }

    pub fn get_alpha(&self) -> (r: i64)
        ensures
            r == self.alpha,
    {
        self.alpha
    }

    /// Raises the floor to `val` if that is higher; returns the floor after.
    pub fn update(&mut self, val: i64) -> (r: i64)
        ensures
            final(self).alpha == (if old(self).alpha > val { old(self).alpha } else { val }),
            r == final(self).alpha,
    {
        if val > self.alpha {
            self.alpha = val;
        }
        self.alpha
    }
}

/// Indices of the children in the order they are searched: by descending
/// appraisal for `player` when `sort`, else as they come.
fn search_order(child_states: &Vec<MutableGameState>, player: PlayerId, sort: bool) -> (r: Vec<(i64, usize)>)
    requires
        forall|i: int| 0 <= i < child_states@.len() ==> (#[trigger] child_states@[i]).wf()
            && 0 <= player.0 < child_states@[i].n(),
    ensures
        sort ==> sorted_desc(r@),
        sort ==> forall|i: int| 0 <= i < r@.len() ==> (#[trigger] r@[i]).0 as int
            == spec_heuristic(*child_states@[r@[i].1 as int].common, child_states@[r@[i].1 as int].model(), player.0 as int),
        !sort ==> forall|i: int| 0 <= i < r@.len() ==> (#[trigger] r@[i]).1 == i,
        r@.len() == child_states@.len(),
        forall|i: int| 0 <= i < r@.len() ==> (#[trigger] r@[i]).1 < child_states@.len(),
        forall|i: int, j: int| 0 <= i < j < r@.len() ==> r@[i].1 != r@[j].1,
        forall|k: int| 0 <= k < child_states@.len() ==> lists_index(r@, k),
{
    if sort {
        let mut keys: Vec<i64> = Vec::new();
        let mut k: usize = 0;
        while k < child_states.len()
            invariant
                k <= child_states@.len(),
                keys@.len() == k,
                forall|i: int| 0 <= i < child_states@.len() ==> (#[trigger] child_states@[i]).wf()
                    && 0 <= player.0 < child_states@[i].n(),
                forall|i: int| 0 <= i < k ==> keys@[i] as int
                    == spec_heuristic(*child_states@[i].common, child_states@[i].model(), player.0 as int),
            decreases child_states.len() - k,
        {
            keys.push(child_states[k].heuristic_score(player));
            k = k + 1;
        }
        order_by_score_desc(&keys)
    } else {
        let mut identity: Vec<(i64, usize)> = Vec::new();
        let mut k: usize = 0;
        while k < child_states.len()
            invariant
                k <= child_states@.len(),
                identity@.len() == k,
                forall|i: int| 0 <= i < k ==> (#[trigger] identity@[i]).1 == i,
            decreases child_states.len() - k,
        {
            identity.push((0, k));
            k = k + 1;
        }
        assert forall|x: int| 0 <= x < child_states@.len() implies lists_index(identity@, x) by {
            assert(identity@[x].1 == x);
        }
        identity
    }
}

pub struct TreeSearch;

impl TreeSearch {
    pub const ALPHA_INITIAL: i64 = -9223372036854775806;
    pub const BETA_INITIAL: i64 = 9223372036854775806;

    /// The best turn for the side to move, searching `analysis_level` turns
    /// ahead: alpha-beta negamax when two normal players play, plain
    /// maximisation otherwise. Uncancelled, the alpha-beta appraisal is the
    /// negamax value of the state and the turn is the one a full negamax over
    /// the same order picks. The token is polled
    /// before each child, so a token that has already asked to stop gives the
    /// empty result after the root alone. With a `parallelization` other than
    /// 1, two players are searched with the shared-floor variant, which counts
    /// the root only; otherwise every state visited is counted.
    pub fn find_best_turn<C: CancellationToken>(
        state: &MutableGameState,
        analysis_level: i32,
        cancellation_token: &C,
        num_states_visited: &mut usize,
        parallelization: usize,
    ) -> (r: AppraisedPlayerTurn)
        requires
            state.wf(),
            search_fits(*state, analysis_level as int),
        ensures
            result_fits(*state, r),
            cancellation_token.never_cancels() ==> settled(r),
            (analysis_level == 0 || state.spec_has_winner()) ==> {
                &&& r.appraisal as int == spec_heuristic(*state.common, state.model(), state.current_player_id.0 as int)
                &&& r.turn is None
                &&& r.ending_state matches Some(s) && s.model() == state.model() && s.common == state.common
                &&& *final(num_states_visited) == 1
            },
            cancellation_token.never_cancels() && !(analysis_level == 0 || state.spec_has_winner()) ==> r.turn is Some,
            cancellation_token.always_cancels() && !(analysis_level == 0 || state.spec_has_winner()) ==> {
                &&& empty_result(r)
                &&& *final(num_states_visited) == 1
            },
            state.common.num_normal_players != 2 && cancellation_token.never_cancels() ==> r.appraisal as int
                == many_search(*state.common, state.model(), state.current_player_id.0 as int, analysis_level as int).0
                && (r.ending_state matches Some(s)
                && s.model() == many_search(*state.common, state.model(), state.current_player_id.0 as int, analysis_level as int).1),
            parallelization == 1 && state.common.num_normal_players == 2 && cancellation_token.never_cancels()
                ==> r.appraisal as int == negamax(*state.common, state.model(), analysis_level as int),
            parallelization == 1 && state.common.num_normal_players == 2 && cancellation_token.never_cancels()
                && !(analysis_level == 0 || state.spec_has_winner()) ==> (r.turn matches Some(t)
                && picks_first_best(*state.common, state.model(), analysis_level as int, t.moves@)),
    {
        *num_states_visited = 0;
        let root = state.copy_state();
        if state.num_players() == 2 {
            if parallelization == 1 {
                Self::find_best_turn_two_players(root, analysis_level, cancellation_token, num_states_visited,
                    Self::ALPHA_INITIAL, Self::BETA_INITIAL)
            } else {
                *num_states_visited = 1;
                Self::find_best_turn_two_players_parallel_prioritized(root, analysis_level, cancellation_token)
            }
        } else {
            Self::find_best_turn_many_players(root, state.current_player_id, analysis_level, cancellation_token, num_states_visited)
        }
    }

    /// Plain depth-limited maximisation for `analysis_player_id`; appraisals of
    /// states where another player moves are taken afresh from the ending
    /// state for the player to move here.
    fn find_best_turn_many_players<C: CancellationToken>(
        curr_state: MutableGameState,
        analysis_player_id: PlayerId,
        analysis_level: i32,
        cancellation_token: &C,
        num_states_visited: &mut usize,
    ) -> (r: AppraisedPlayerTurn)
        requires
            curr_state.wf(),
            0 <= analysis_player_id.0 < curr_state.n(),
            search_fits(curr_state, analysis_level as int),
        ensures
            result_fits(curr_state, r),
            cancellation_token.never_cancels() ==> settled(r),
            cancellation_token.never_cancels() ==> r.appraisal as int
                == many_search(*curr_state.common, curr_state.model(), analysis_player_id.0 as int, analysis_level as int).0
                && (r.ending_state matches Some(s)
                && s.model() == many_search(*curr_state.common, curr_state.model(), analysis_player_id.0 as int, analysis_level as int).1),
            (analysis_level == 0 || curr_state.spec_has_winner()) ==> {
                &&& r.appraisal as int == spec_heuristic(*curr_state.common, curr_state.model(), analysis_player_id.0 as int)
                &&& r.turn is None
                &&& r.ending_state matches Some(s) && s.model() == curr_state.model()
                &&& *final(num_states_visited) == (*old(num_states_visited)).saturating_add(1)
            },
            cancellation_token.never_cancels() && !(analysis_level == 0 || curr_state.spec_has_winner()) ==> r.turn is Some,
            cancellation_token.always_cancels() && !(analysis_level == 0 || curr_state.spec_has_winner()) ==> {
                &&& empty_result(r)
                &&& *final(num_states_visited) == (*old(num_states_visited)).saturating_add(1)
            },
        decreases analysis_level,
    {
        *num_states_visited = (*num_states_visited).saturating_add(1);
        if curr_state.has_winner() || analysis_level == 0 {
            return AppraisedPlayerTurn::from_state(analysis_player_id, curr_state);
        }
        let ghost visited_here = *num_states_visited;
        let curr_player_id = curr_state.current_player_id;
        let (child_states, child_turns) = children(&curr_state);
        proof { curr_state.lemma_possible_turns_nonempty(); }
        let mut best_turn = AppraisedPlayerTurn::empty_minimum();
        let ghost common = common_of(curr_state);
        let ghost m = curr_state.model();
        let ghost a = analysis_player_id.0 as int;
        let ghost d = analysis_level as int;
        proof {
            assert forall|i: int| 0 <= i < child_states@.len() implies (#[trigger] child_states@[i]).model() == child_model(common, m, i) by {
                assert(turns_view(child_turns@)[i] == child_turns@[i].moves@);
            }
        }
        let mut k: usize = 0;
        while k < child_states.len()
            invariant_except_break
                k == 0 ==> best_turn.turn is None,
                cancellation_token.never_cancels() ==> best_turn.appraisal as int == many_scan(common, m, a, d, k as int).0
                    && !many_scan(common, m, a, d, k as int).2
                    && (k > 0 ==> (best_turn.ending_state matches Some(s) && s.model() == many_scan(common, m, a, d, k as int).1)),
            invariant
                curr_state.wf(),
                search_fits(curr_state, analysis_level as int),
                1 <= analysis_level,
                curr_player_id == curr_state.current_player_id,
                0 <= analysis_player_id.0 < curr_state.n(),
                child_states@.len() == child_turns@.len(),
                forall|i: int| 0 <= i < child_states@.len() ==> (#[trigger] child_states@[i]).wf() && child_states@[i].common == curr_state.common
                    && child_states@[i].turn_id <= curr_state.turn_id + TURNS_PER_LEVEL,
                forall|i: int| 0 <= i < child_turns@.len() ==> spec_possible_turns(*curr_state.common, curr_state.model()).contains((#[trigger] child_turns@[i]).moves@),
                result_fits(curr_state, best_turn),
                found_or_empty(best_turn),
                k > 0 ==> best_turn.turn is Some,
                cancellation_token.always_cancels() ==> k == 0 && *num_states_visited == visited_here,
                k <= child_states@.len(),
                common == *curr_state.common,
                m == curr_state.model(),
                a == analysis_player_id.0,
                d == analysis_level,
                child_states@.len() == spec_possible_turns(common, m).len(),
                child_states@.len() >= 1,
                forall|i: int| 0 <= i < child_states@.len() ==> (#[trigger] child_states@[i]).model() == child_model(common, m, i),
            ensures
                result_fits(curr_state, best_turn),
                found_or_empty(best_turn),
                cancellation_token.never_cancels() && child_states@.len() >= 1 ==> best_turn.turn is Some,
                cancellation_token.always_cancels() ==> empty_result(best_turn) && *num_states_visited == visited_here,
                cancellation_token.never_cancels() ==> best_turn.appraisal as int == many_scan(common, m, a, d, child_states@.len() as int).0
                    && (best_turn.ending_state matches Some(s) && s.model() == many_scan(common, m, a, d, child_states@.len() as int).1),
            decreases child_states.len() - k,
        {
            if cancellation_token.is_cancellation_requested() {
                break;
            }
            let child_state = child_states[k].copy_state();
            let ghost cm = child_states@[k as int].model();
            let ghost child_common = common_of(child_state);
            let child_player_id = child_state.current_player_id;
            let child_turn = child_turns[k].copy();
            let mut hypo = Self::find_best_turn_many_players(child_state, curr_player_id, analysis_level - 1,
                cancellation_token, num_states_visited);
            if hypo.ending_state.is_none() {
                break;
            }
            if curr_player_id.0 != child_player_id.0 {
                match &hypo.ending_state {
                    Some(ending_state) => {
                        hypo.appraisal = ending_state.heuristic_score(curr_player_id);
                    },
                    None => {},
                }
            }
            proof {
                if cancellation_token.never_cancels() {
                    assert(child_common == common);
                    assert(cm == child_model(common, m, k as int));
                    let (v, e) = many_search(common, cm, m.current, d - 1);
                    let w = if cm.current != m.current { spec_heuristic(common, e, m.current) } else { v };
                    assert(hypo.ending_state matches Some(s) && s.model() == e);
                    assert(hypo.appraisal as int == w);
                    assert(many_scan(common, m, a, d, k as int + 1) ==
                        (if (many_scan(common, m, a, d, k as int).0 < w) { (w, e, e.winner == a) }
                        else { many_scan(common, m, a, d, k as int) }));
                }
            }
            if best_turn.appraisal < hypo.appraisal {
                best_turn = hypo;
                best_turn.turn = Some(child_turn);
                let won = match &best_turn.ending_state {
                    Some(ending_state) => ending_state.winner.0 == analysis_player_id.0,
                    None => false,
                };
                if won {
                    proof {
                        if cancellation_token.never_cancels() {
                            assert(child_common == common);
                            lemma_many_scan_stopped(common, m, a, d, k as int + 1, child_states@.len() as int);
                        }
                    }
                    break;
                }
            }
            proof {
                if cancellation_token.never_cancels() {
                    assert(child_common == common);
                    assert(cm == child_model(common, m, k as int));
                }
            }
            k = k + 1;
        }
        best_turn
    }

    /// Alpha-beta negamax. A child where the same side moves keeps the window
    /// and the sign; a child of the other side gets the negated, swapped window
    /// and its appraisal negated on the way back.
    #[verifier::spinoff_prover]
    #[verifier::rlimit(50)]
    fn find_best_turn_two_players<C: CancellationToken>(
        curr_state: MutableGameState,
        analysis_level: i32,
        cancellation_token: &C,
        num_states_visited: &mut usize,
        alpha: i64,
        beta: i64,
    ) -> (r: AppraisedPlayerTurn)
        requires
            curr_state.wf(),
            search_fits(curr_state, analysis_level as int),
            HEURISTIC_SCORE_LOSS <= alpha < beta <= HEURISTIC_SCORE_WIN,
        ensures
            result_fits(curr_state, r),
            cancellation_token.never_cancels() ==> settled(r),
            cancellation_token.never_cancels() ==> fail_soft(
                negamax(*curr_state.common, curr_state.model(), analysis_level as int), alpha as int, beta as int, r.appraisal as int),
            (analysis_level == 0 || curr_state.spec_has_winner()) ==> {
                &&& r.appraisal as int == spec_heuristic(*curr_state.common, curr_state.model(), curr_state.current_player_id.0 as int)
                &&& r.turn is None
                &&& r.ending_state matches Some(s) && s.model() == curr_state.model()
                &&& *final(num_states_visited) == (*old(num_states_visited)).saturating_add(1)
            },
            cancellation_token.never_cancels() && !(analysis_level == 0 || curr_state.spec_has_winner()) ==> r.turn is Some,
            cancellation_token.always_cancels() && !(analysis_level == 0 || curr_state.spec_has_winner()) ==> {
                &&& empty_result(r)
                &&& *final(num_states_visited) == (*old(num_states_visited)).saturating_add(1)
            },
            cancellation_token.never_cancels() && !(analysis_level == 0 || curr_state.spec_has_winner())
                && alpha < r.appraisal < beta ==> (r.turn matches Some(t)
                && picks_first_best(*curr_state.common, curr_state.model(), analysis_level as int, t.moves@)),
            cancellation_token.never_cancels() ==> within_sentinels(negamax(*curr_state.common, curr_state.model(), analysis_level as int)),
            cancellation_token.never_cancels() && !(analysis_level == 0 || curr_state.spec_has_winner())
                && ((alpha == HEURISTIC_SCORE_LOSS && r.appraisal <= alpha) || (beta == HEURISTIC_SCORE_WIN && r.appraisal >= beta))
                ==> (r.turn matches Some(t)
                && picks_first_best(*curr_state.common, curr_state.model(), analysis_level as int, t.moves@)),
        decreases analysis_level,
    {
        *num_states_visited = (*num_states_visited).saturating_add(1);
        let curr_player_id = curr_state.current_player_id;
        if curr_state.has_winner() || analysis_level == 0 {
            return AppraisedPlayerTurn::from_state(curr_player_id, curr_state);
        }
        let ghost visited_here = *num_states_visited;
        let (child_states, child_turns) = children(&curr_state);
        proof { curr_state.lemma_possible_turns_nonempty(); }
        let order = search_order(&child_states, curr_player_id, analysis_level > 1);
        let ghost ord = order@.map_values(|x: (i64, usize)| x.1 as int);
        let mut best_turn = AppraisedPlayerTurn::empty_minimum();
        let ghost a0 = alpha;
        let ghost common = common_of(curr_state);
        let ghost m = curr_state.model();
        let ghost d = analysis_level as int;
        proof {
            assert forall|i: int| 0 <= i < child_states@.len() implies (#[trigger] child_states@[i]).model() == child_model(common, m, i) by {
                assert(turns_view(child_turns@)[i] == child_turns@[i].moves@);
            }
            assert forall|i: int| 0 <= i < child_turns@.len() implies (#[trigger] child_turns@[i]).moves@ == spec_possible_turns(common, m)[i] by {
                assert(turns_view(child_turns@)[i] == child_turns@[i].moves@);
            }
            assert forall|p: int| 0 <= p < order@.len() implies order_key(common, m, #[trigger] ord[p]) == order@[p].0 || d <= 1 by {
                if d > 1 {
                    let i = order@[p].1 as int;
                    assert(child_states@[i].model() == child_model(common, m, i));
                }
            }
            assert(is_search_order(common, m, d, ord));
        }
        let ghost mut q: int = 0;
        let mut alpha = alpha;
        let mut j: usize = 0;
        while j < order.len()
            invariant_except_break
                j == 0 ==> best_turn.turn is None,
                a0 <= alpha < beta,
                best_turn.appraisal < beta,
                cancellation_token.never_cancels() ==> forall|p: int| 0 <= p < j
                    ==> child_worth(common, m, d, (#[trigger] order@[p]).1 as int) <= best_turn.appraisal,
                cancellation_token.never_cancels() ==> (best_turn.appraisal > a0 ==> exists|p: int| 0 <= p < j
                    && child_worth(common, m, d, (#[trigger] order@[p]).1 as int) == best_turn.appraisal),
                cancellation_token.never_cancels() ==> forall|p: int| 0 <= p < j
                    ==> within_sentinels(child_worth(common, m, d, #[trigger] ord[p])),
                cancellation_token.never_cancels() ==> (j > 0 ==> 0 <= q < j
                    && (best_turn.turn matches Some(t) && t.moves@ == spec_possible_turns(common, m)[ord[q]])),
                cancellation_token.never_cancels() && j > 0 && best_turn.appraisal <= HEURISTIC_SCORE_LOSS ==> q == 0,
                cancellation_token.never_cancels() ==> (best_turn.appraisal > a0 ==> 0 <= q < j
                    && child_worth(common, m, d, ord[q]) == best_turn.appraisal
                    && (forall|p: int| 0 <= p < q ==> child_worth(common, m, d, #[trigger] ord[p]) < best_turn.appraisal)
                    && (best_turn.turn matches Some(t) && t.moves@ == spec_possible_turns(common, m)[ord[q]])),
            invariant
                ord == order@.map_values(|x: (i64, usize)| x.1 as int),
                is_search_order(common, m, d, ord),
                forall|i: int| 0 <= i < child_turns@.len() ==> (#[trigger] child_turns@[i]).moves@ == spec_possible_turns(common, m)[i],
                common == *curr_state.common,
                m == curr_state.model(),
                d == analysis_level,
                child_states@.len() == spec_possible_turns(common, m).len(),
                forall|i: int| 0 <= i < child_states@.len() ==> (#[trigger] child_states@[i]).model() == child_model(common, m, i),
                forall|i: int, k: int| 0 <= i < k < order@.len() ==> order@[i].1 != order@[k].1,
                forall|k: int| 0 <= k < child_states@.len() ==> lists_index(order@, k),
                HEURISTIC_SCORE_LOSS <= a0 < beta <= HEURISTIC_SCORE_WIN,
                alpha == (if best_turn.appraisal > a0 { best_turn.appraisal } else { a0 }),
                cancellation_token.never_cancels() && j == order@.len() ==> fail_soft(best_of(common, m, d, child_states@.len() as int),
                    a0 as int, beta as int, best_turn.appraisal as int),
                cancellation_token.never_cancels() && j == order@.len() && a0 < best_turn.appraisal < beta
                    ==> (best_turn.turn matches Some(t) && picks_first_best(common, m, d, t.moves@)),
                cancellation_token.never_cancels() && j == order@.len() && a0 == HEURISTIC_SCORE_LOSS && best_turn.appraisal <= a0
                    ==> (best_turn.turn matches Some(t) && picks_first_best(common, m, d, t.moves@)),
                curr_state.wf(),
                search_fits(curr_state, analysis_level as int),
                1 <= analysis_level,
                curr_player_id == curr_state.current_player_id,
                child_states@.len() == child_turns@.len(),
                order@.len() == child_states@.len(),
                forall|i: int| 0 <= i < order@.len() ==> (#[trigger] order@[i]).1 < child_states@.len(),
                forall|i: int| 0 <= i < child_states@.len() ==> (#[trigger] child_states@[i]).wf() && child_states@[i].common == curr_state.common
                    && child_states@[i].turn_id <= curr_state.turn_id + TURNS_PER_LEVEL,
                forall|i: int| 0 <= i < child_turns@.len() ==> spec_possible_turns(*curr_state.common, curr_state.model()).contains((#[trigger] child_turns@[i]).moves@),
                result_fits(curr_state, best_turn),
                found_or_empty(best_turn),
                j > 0 ==> best_turn.turn is Some,
                cancellation_token.always_cancels() ==> j == 0 && *num_states_visited == visited_here,
                j <= order@.len(),
            ensures
                result_fits(curr_state, best_turn),
                found_or_empty(best_turn),
                cancellation_token.never_cancels() && order@.len() >= 1 ==> best_turn.turn is Some,
                cancellation_token.always_cancels() ==> empty_result(best_turn) && *num_states_visited == visited_here,
                cancellation_token.never_cancels() ==> fail_soft(best_of(common, m, d, child_states@.len() as int),
                    a0 as int, beta as int, best_turn.appraisal as int),
                cancellation_token.never_cancels() && a0 < best_turn.appraisal < beta ==> (best_turn.turn matches Some(t)
                    && picks_first_best(common, m, d, t.moves@)),
                cancellation_token.never_cancels()
                    && ((a0 == HEURISTIC_SCORE_LOSS && best_turn.appraisal <= a0) || (beta == HEURISTIC_SCORE_WIN && best_turn.appraisal >= beta))
                    ==> (best_turn.turn matches Some(t) && picks_first_best(common, m, d, t.moves@)),
            decreases order.len() - j,
        {
            if cancellation_token.is_cancellation_requested() {
                break;
            }
            let idx = order[j].1;
            let child_state = child_states[idx].copy_state();
            let child_is_us = curr_player_id.0 == child_state.current_player_id.0;
            let child_turn = child_turns[idx].copy();
            let child_alpha = if child_is_us { alpha } else { negate(beta) };
            let child_beta = if child_is_us { beta } else { negate(alpha) };
            let ghost child_model_here = child_states@[idx as int].model();
            let ghost child_common = common_of(child_state);
            assert(child_state.model() == child_model_here);
            let mut hypo = Self::find_best_turn_two_players(child_state, analysis_level - 1, cancellation_token,
                num_states_visited, child_alpha, child_beta);
            let ghost r_child = hypo.appraisal;
            if hypo.ending_state.is_none() {
                break;
            }
            if !child_is_us {
                hypo.appraisal = negate(hypo.appraisal);
            }
            proof {
                assert(child_model_here == child_model(common, m, idx as int));
                assert(child_common == common);
                assert(child_worth(common, m, d, idx as int) == signed_for(m, child_model_here, negamax(common, child_model_here, d - 1)));
                if cancellation_token.never_cancels() {
                    lemma_signed_fail_soft(child_is_us, negamax(common, child_model_here, d - 1), alpha as int, beta as int, r_child as int);
                    assert(within_sentinels(child_worth(common, m, d, idx as int)));
                }
            }
            let ghost best_before = best_turn.appraisal;
            let ghost q_before = q;
            if best_turn.appraisal < hypo.appraisal {
                best_turn = hypo;
                best_turn.turn = Some(child_turn);
                proof { q = j as int; }
                if best_turn.appraisal > alpha {
                    alpha = best_turn.appraisal;
                    if alpha >= beta {
                        proof {
                            if cancellation_token.never_cancels() {
                                lemma_best_of_bounds(common, m, d, child_states@.len() as int);
                                if beta == HEURISTIC_SCORE_WIN {
                                    assert(ord[j as int] == idx);
                                    assert(child_worth(common, m, d, ord[j as int]) == HEURISTIC_SCORE_WIN);
                                    assert(negamax(common, m, d) == HEURISTIC_SCORE_WIN);
                                    assert forall|p: int| 0 <= p < j implies child_worth(common, m, d, #[trigger] ord[p]) < negamax(common, m, d) by {
                                        assert(ord[p] == order@[p].1);
                                        assert(child_worth(common, m, d, (order@[p]).1 as int) <= best_before);
                                    }
                                    assert(first_best(common, m, d, ord, j as int));
                                    let t = best_turn.turn.unwrap();
                                    assert(t.moves@ == spec_possible_turns(common, m)[ord[j as int]]);
                                    assert(picks_first_best(common, m, d, t.moves@));
                                }
                            }
                        }
                        break;
                    }
                }
            }
            proof {
                if cancellation_token.never_cancels() {
                    assert forall|p: int| 0 <= p < j + 1 implies child_worth(common, m, d, (#[trigger] order@[p]).1 as int) <= best_turn.appraisal by {
                        if p == j {
                            assert(order@[p].1 == idx);
                        }
                    }
                    if best_turn.appraisal > a0 {
                        if best_turn.appraisal == best_before {
                            let p = choose|p: int| 0 <= p < j && child_worth(common, m, d, (#[trigger] order@[p]).1 as int) == best_turn.appraisal;
                            assert(0 <= p < j + 1);
                        } else {
                            assert(order@[j as int].1 == idx);
                            assert(ord[j as int] == idx);
                            assert(child_worth(common, m, d, (order@[j as int]).1 as int) == best_turn.appraisal);
                            assert forall|p: int| 0 <= p < q implies child_worth(common, m, d, #[trigger] ord[p]) < best_turn.appraisal by {
                                assert(ord[p] == order@[p].1);
                                assert(child_worth(common, m, d, (order@[p]).1 as int) <= best_before);
                            }
                        }
                    }
                }
            }
            j = j + 1;
            proof {
                if j == order.len() && cancellation_token.never_cancels() {
                    lemma_node_complete(common, m, d, order@, child_states@.len() as int, a0 as int, beta as int, best_turn.appraisal as int);
                    if a0 == HEURISTIC_SCORE_LOSS && best_turn.appraisal <= a0 {
                        assert(q == 0);
                        assert(ord[0] == order@[0].1);
                        assert(child_worth(common, m, d, (order@[0]).1 as int) <= best_turn.appraisal);
                        assert(within_sentinels(child_worth(common, m, d, ord[0])));
                        assert(first_best(common, m, d, ord, q));
                        let t = best_turn.turn.unwrap();
                        assert(picks_first_best(common, m, d, t.moves@));
                    }
                    if a0 < best_turn.appraisal < beta {
                        assert(negamax(common, m, d) == best_of(common, m, d, child_states@.len() as int));
                        assert(first_best(common, m, d, ord, q));
                        let t = best_turn.turn.unwrap();
                        assert(t.moves@ == spec_possible_turns(common, m)[ord[q]]);
                        assert(picks_first_best(common, m, d, t.moves@));
                    }
                }
            }
        }
        proof {
            if order.len() == 0 {
                assert(false);
            }
        }
        best_turn
    }
}

/// Search depth below which the root's children are taken from a queue under
/// the shared floor.
pub const ANALYSIS_LEVEL_TO_PARALLELIZE: i32 = 4;

/// A search result that has not been improved on yet: `empty_minimum` at a
/// maximising node, `empty_maximum` at a minimising one; or a found turn.
pub open spec fn found_or_start(r: AppraisedPlayerTurn, maximizing: bool) -> bool {
    ||| (r.turn is Some && settled(r))
    ||| (r.turn is None && r.ending_state is None
        && r.appraisal == (if maximizing { APPRAISAL_EMPTY_MINIMUM } else { APPRAISAL_EMPTY_MAXIMUM }))
}

impl TreeSearch {
    /// Min-max from the root player's side with a local window, cut off as well
    /// when the shared floor reaches the window's top.
    fn find_best_turn_two_players_parallel_recursive<C: CancellationToken>(
        curr_state: MutableGameState,
        root_analysis_player_id: PlayerId,
        analysis_level: i32,
        cancellation_token: &C,
        shared_floor: i64,
        local_alpha: i64,
        local_beta: i64,
    ) -> (r: AppraisedPlayerTurn)
        requires
            curr_state.wf(),
            0 <= root_analysis_player_id.0 < curr_state.n(),
            search_fits(curr_state, analysis_level as int),
        ensures
            result_fits(curr_state, r),
            cancellation_token.never_cancels() ==> settled(r),
            (analysis_level == 0 || curr_state.spec_has_winner()) ==> {
                &&& r.appraisal as int == spec_heuristic(*curr_state.common, curr_state.model(), root_analysis_player_id.0 as int)
                &&& r.turn is None
                &&& r.ending_state matches Some(s) && s.model() == curr_state.model()
            },
            cancellation_token.never_cancels() && !(analysis_level == 0 || curr_state.spec_has_winner()) ==> r.turn is Some,
            cancellation_token.always_cancels() && !(analysis_level == 0 || curr_state.spec_has_winner()) ==> empty_result(r),
        decreases analysis_level,
    {
        if curr_state.has_winner() || analysis_level == 0 {
            return AppraisedPlayerTurn::from_state(root_analysis_player_id, curr_state);
        }
        let curr_player_id = curr_state.current_player_id;
        let maximizing = curr_player_id.0 == root_analysis_player_id.0;
        let (child_states, child_turns) = children(&curr_state);
        proof { curr_state.lemma_possible_turns_nonempty(); }
        let order = search_order(&child_states, curr_player_id, analysis_level > 1);
        let mut best_turn = if maximizing { AppraisedPlayerTurn::empty_minimum() } else { AppraisedPlayerTurn::empty_maximum() };
        let mut local_alpha = local_alpha;
        let mut local_beta = local_beta;
        let mut j: usize = 0;
        while j < order.len()
            invariant_except_break
                j == 0 ==> best_turn.turn is None,
            invariant
                curr_state.wf(),
                search_fits(curr_state, analysis_level as int),
                1 <= analysis_level,
                0 <= root_analysis_player_id.0 < curr_state.n(),
                child_states@.len() == child_turns@.len(),
                order@.len() == child_states@.len(),
                forall|i: int| 0 <= i < order@.len() ==> (#[trigger] order@[i]).1 < child_states@.len(),
                forall|i: int| 0 <= i < child_states@.len() ==> (#[trigger] child_states@[i]).wf() && child_states@[i].common == curr_state.common
                    && child_states@[i].turn_id <= curr_state.turn_id + TURNS_PER_LEVEL,
                forall|i: int| 0 <= i < child_turns@.len() ==> spec_possible_turns(*curr_state.common, curr_state.model()).contains((#[trigger] child_turns@[i]).moves@),
                result_fits_loosely(curr_state, best_turn),
                found_or_start(best_turn, maximizing),
                j > 0 ==> best_turn.turn is Some,
                cancellation_token.always_cancels() ==> j == 0,
                j <= order@.len(),
            ensures
                result_fits_loosely(curr_state, best_turn),
                found_or_start(best_turn, maximizing),
                cancellation_token.never_cancels() && order@.len() >= 1 ==> best_turn.turn is Some,
                cancellation_token.always_cancels() ==> best_turn.turn is None,
            decreases order.len() - j,
        {
            if cancellation_token.is_cancellation_requested() {
                break;
            }
            let idx = order[j].1;
            let child_state = child_states[idx].copy_state();
            let child_turn = child_turns[idx].copy();
            let hypo = Self::find_best_turn_two_players_parallel_recursive(child_state, root_analysis_player_id,
                analysis_level - 1, cancellation_token, shared_floor, local_alpha, local_beta);
            if hypo.ending_state.is_none() {
                break;
            }
            if maximizing {
                if hypo.appraisal > best_turn.appraisal {
                    best_turn = hypo;
                    best_turn.turn = Some(child_turn);
                    if best_turn.appraisal > local_alpha {
                        local_alpha = best_turn.appraisal;
                    }
                    if local_alpha >= local_beta || shared_floor >= local_beta {
                        break;
                    }
                }
            } else if hypo.appraisal < best_turn.appraisal {
                best_turn = hypo;
                best_turn.turn = Some(child_turn);
                if best_turn.appraisal < local_beta {
                    local_beta = best_turn.appraisal;
                }
                if local_alpha >= local_beta || shared_floor >= local_beta {
                    break;
                }
            }
            j = j + 1;
        }
        if best_turn.ending_state.is_none() {
            return AppraisedPlayerTurn::empty_minimum();
        }
        best_turn
    }

    /// The shared-floor search: near the leaves the root's children are taken
    /// from a queue under a shared floor; higher up it is negamax with windows.
    pub fn find_best_turn_two_players_parallel_prioritized<C: CancellationToken>(
        curr_state: MutableGameState,
        analysis_level: i32,
        cancellation_token: &C,
    ) -> (r: AppraisedPlayerTurn)
        requires
            curr_state.wf(),
            search_fits(curr_state, analysis_level as int),
        ensures
            result_fits(curr_state, r),
            cancellation_token.never_cancels() ==> settled(r),
            (analysis_level == 0 || curr_state.spec_has_winner()) ==> {
                &&& r.appraisal as int == spec_heuristic(*curr_state.common, curr_state.model(), curr_state.current_player_id.0 as int)
                &&& r.turn is None
                &&& r.ending_state matches Some(s) && s.model() == curr_state.model()
            },
            cancellation_token.never_cancels() && !(analysis_level == 0 || curr_state.spec_has_winner()) ==> r.turn is Some,
            cancellation_token.always_cancels() && !(analysis_level == 0 || curr_state.spec_has_winner()) ==> empty_result(r),
    {
        Self::find_best_turn_two_players_parallel_prioritized_bounds(curr_state, analysis_level, cancellation_token,
            Self::ALPHA_INITIAL, Self::BETA_INITIAL)
    }

    fn find_best_turn_two_players_parallel_prioritized_bounds<C: CancellationToken>(
        curr_state: MutableGameState,
        analysis_level: i32,
        cancellation_token: &C,
        alpha: i64,
        beta: i64,
    ) -> (r: AppraisedPlayerTurn)
        requires
            curr_state.wf(),
            search_fits(curr_state, analysis_level as int),
            HEURISTIC_SCORE_LOSS <= alpha < beta <= HEURISTIC_SCORE_WIN,
        ensures
            result_fits(curr_state, r),
            cancellation_token.never_cancels() ==> settled(r),
            (analysis_level == 0 || curr_state.spec_has_winner()) ==> {
                &&& r.appraisal as int == spec_heuristic(*curr_state.common, curr_state.model(), curr_state.current_player_id.0 as int)
                &&& r.turn is None
                &&& r.ending_state matches Some(s) && s.model() == curr_state.model()
            },
            cancellation_token.never_cancels() && !(analysis_level == 0 || curr_state.spec_has_winner()) ==> r.turn is Some,
            cancellation_token.always_cancels() && !(analysis_level == 0 || curr_state.spec_has_winner()) ==> empty_result(r),
        decreases analysis_level,
    {
        let curr_player_id = curr_state.current_player_id;
        if curr_state.has_winner() || analysis_level == 0 {
            return AppraisedPlayerTurn::from_state(curr_player_id, curr_state);
        }
        let (child_states, child_turns) = children(&curr_state);
        proof { curr_state.lemma_possible_turns_nonempty(); }
        let order = search_order(&child_states, curr_player_id, true);
        let mut best_turn = AppraisedPlayerTurn::empty_minimum();
        if analysis_level <= ANALYSIS_LEVEL_TO_PARALLELIZE {
            let mut shared_alpha = SpinLockedAlpha::new(alpha);
            let mut j: usize = 0;
            while j < order.len()
                invariant_except_break
                    j == 0 ==> best_turn.turn is None,
                    j == 0 ==> shared_alpha.alpha == alpha,
                invariant
                    curr_state.wf(),
                    search_fits(curr_state, analysis_level as int),
                    1 <= analysis_level,
                    alpha < beta,
                    curr_player_id == curr_state.current_player_id,
                    child_states@.len() == child_turns@.len(),
                    order@.len() == child_states@.len(),
                    forall|i: int| 0 <= i < order@.len() ==> (#[trigger] order@[i]).1 < child_states@.len(),
                    forall|i: int| 0 <= i < child_states@.len() ==> (#[trigger] child_states@[i]).wf() && child_states@[i].common == curr_state.common
                        && child_states@[i].turn_id <= curr_state.turn_id + TURNS_PER_LEVEL,
                    forall|i: int| 0 <= i < child_turns@.len() ==> spec_possible_turns(*curr_state.common, curr_state.model()).contains((#[trigger] child_turns@[i]).moves@),
                    result_fits_loosely(curr_state, best_turn),
                    found_or_empty(best_turn),
                    j > 0 ==> best_turn.turn is Some,
                    cancellation_token.always_cancels() ==> j == 0,
                    j <= order@.len(),
                ensures
                    result_fits_loosely(curr_state, best_turn),
                    found_or_empty(best_turn),
                    cancellation_token.never_cancels() && order@.len() >= 1 ==> best_turn.turn is Some,
                    cancellation_token.always_cancels() ==> empty_result(best_turn),
                decreases order.len() - j,
            {
                if cancellation_token.is_cancellation_requested() {
                    break;
                }
                let a = shared_alpha.get_alpha();
                if a >= beta {
                    break;
                }
                let idx = order[j].1;
                let child_state = child_states[idx].copy_state();
                let child_turn = child_turns[idx].copy();
                let hypo = Self::find_best_turn_two_players_parallel_recursive(child_state, curr_player_id,
                    analysis_level - 1, cancellation_token, a, a, beta);
                if hypo.ending_state.is_none() {
                    break;
                }
                if best_turn.appraisal < hypo.appraisal {
                    best_turn.appraisal = hypo.appraisal;
                    best_turn.ending_state = hypo.ending_state;
                    best_turn.turn = Some(child_turn);
                    shared_alpha.update(best_turn.appraisal);
                }
                j = j + 1;
            }
        } else {
            let mut alpha = alpha;
            let mut j: usize = 0;
            while j < order.len()
                invariant_except_break
                    j == 0 ==> best_turn.turn is None,
                    alpha < beta,
                invariant
                    curr_state.wf(),
                    search_fits(curr_state, analysis_level as int),
                    1 <= analysis_level,
                    HEURISTIC_SCORE_LOSS <= alpha <= HEURISTIC_SCORE_WIN,
                    HEURISTIC_SCORE_LOSS <= beta <= HEURISTIC_SCORE_WIN,
                    curr_player_id == curr_state.current_player_id,
                    child_states@.len() == child_turns@.len(),
                    order@.len() == child_states@.len(),
                    forall|i: int| 0 <= i < order@.len() ==> (#[trigger] order@[i]).1 < child_states@.len(),
                    forall|i: int| 0 <= i < child_states@.len() ==> (#[trigger] child_states@[i]).wf() && child_states@[i].common == curr_state.common
                        && child_states@[i].turn_id <= curr_state.turn_id + TURNS_PER_LEVEL,
                    forall|i: int| 0 <= i < child_turns@.len() ==> spec_possible_turns(*curr_state.common, curr_state.model()).contains((#[trigger] child_turns@[i]).moves@),
                    result_fits_loosely(curr_state, best_turn),
                    found_or_empty(best_turn),
                    j > 0 ==> best_turn.turn is Some,
                    cancellation_token.always_cancels() ==> j == 0,
                    j <= order@.len(),
                ensures
                    result_fits_loosely(curr_state, best_turn),
                    found_or_empty(best_turn),
                    cancellation_token.never_cancels() && order@.len() >= 1 ==> best_turn.turn is Some,
                    cancellation_token.always_cancels() ==> empty_result(best_turn),
                decreases order.len() - j,
            {
                if cancellation_token.is_cancellation_requested() {
                    break;
                }
                let idx = order[j].1;
                let child_state = child_states[idx].copy_state();
                let child_is_us = curr_player_id.0 == child_state.current_player_id.0;
                let child_turn = child_turns[idx].copy();
                let child_alpha = if child_is_us { alpha } else { negate(beta) };
                let child_beta = if child_is_us { beta } else { negate(alpha) };
                let mut hypo = Self::find_best_turn_two_players_parallel_prioritized_bounds(child_state, analysis_level - 1,
                    cancellation_token, child_alpha, child_beta);
                if hypo.ending_state.is_none() {
                    break;
                }
                if !child_is_us {
                    hypo.appraisal = negate(hypo.appraisal);
                }
                if best_turn.appraisal < hypo.appraisal {
                    best_turn = hypo;
                    best_turn.turn = Some(child_turn);
                    if best_turn.appraisal > alpha {
                        alpha = best_turn.appraisal;
                        if alpha >= beta {
                            break;
                        }
                    }
                }
                j = j + 1;
            }
        }
        best_turn
    }

    /// The root's children dealt round-robin into `parallelization` shares,
    /// each searched in turn under one shared floor; the best of the shares.
    pub fn find_best_turn_two_players_parallel<C: CancellationToken>(
        curr_state: MutableGameState,
        analysis_level: i32,
        cancellation_token: &C,
        parallelization: usize,
    ) -> (r: AppraisedPlayerTurn)
        requires
            curr_state.wf(),
            search_fits(curr_state, analysis_level as int),
        ensures
            result_fits(curr_state, r),
            cancellation_token.never_cancels() ==> settled(r),
            (analysis_level == 0 || curr_state.spec_has_winner()) ==> {
                &&& r.appraisal as int == spec_heuristic(*curr_state.common, curr_state.model(), curr_state.current_player_id.0 as int)
                &&& r.turn is None
                &&& r.ending_state matches Some(s) && s.model() == curr_state.model()
            },
            cancellation_token.never_cancels() && !(analysis_level == 0 || curr_state.spec_has_winner()) ==> r.turn is Some,
            cancellation_token.always_cancels() && !(analysis_level == 0 || curr_state.spec_has_winner()) ==> empty_result(r),
    {
        let analysis_player_id = curr_state.current_player_id;
        if curr_state.has_winner() || analysis_level == 0 {
            return AppraisedPlayerTurn::from_state(analysis_player_id, curr_state);
        }
        let (child_states, child_turns) = children(&curr_state);
        proof { curr_state.lemma_possible_turns_nonempty(); }
        let order = search_order(&child_states, analysis_player_id, true);
        let shares: usize = if parallelization < 1 { 1 } else { parallelization };
        let mut shared_alpha = SpinLockedAlpha::new(Self::ALPHA_INITIAL);
        let mut best_turn = AppraisedPlayerTurn::empty_minimum();
        let mut w: usize = 0;
        while w < shares
            invariant
                curr_state.wf(),
                search_fits(curr_state, analysis_level as int),
                1 <= analysis_level,
                analysis_player_id == curr_state.current_player_id,
                child_states@.len() == child_turns@.len(),
                child_states@.len() >= 1,
                order@.len() == child_states@.len(),
                forall|i: int| 0 <= i < order@.len() ==> (#[trigger] order@[i]).1 < child_states@.len(),
                forall|i: int| 0 <= i < child_states@.len() ==> (#[trigger] child_states@[i]).wf() && child_states@[i].common == curr_state.common
                    && child_states@[i].turn_id <= curr_state.turn_id + TURNS_PER_LEVEL,
                forall|i: int| 0 <= i < child_turns@.len() ==> spec_possible_turns(*curr_state.common, curr_state.model()).contains((#[trigger] child_turns@[i]).moves@),
                result_fits_loosely(curr_state, best_turn),
                found_or_empty(best_turn),
                cancellation_token.never_cancels() && w > 0 ==> best_turn.turn is Some,
                cancellation_token.always_cancels() ==> empty_result(best_turn),
                1 <= shares,
                w <= shares,
            decreases shares - w,
        {
            let mut share_best = AppraisedPlayerTurn::empty_minimum();
            let mut j: usize = w;
            while j < order.len()
                invariant_except_break
                    j == w ==> share_best.turn is None,
                invariant
                    curr_state.wf(),
                    search_fits(curr_state, analysis_level as int),
                    1 <= analysis_level,
                    analysis_player_id == curr_state.current_player_id,
                    child_states@.len() == child_turns@.len(),
                    order@.len() == child_states@.len(),
                    forall|i: int| 0 <= i < order@.len() ==> (#[trigger] order@[i]).1 < child_states@.len(),
                    forall|i: int| 0 <= i < child_states@.len() ==> (#[trigger] child_states@[i]).wf() && child_states@[i].common == curr_state.common
                        && child_states@[i].turn_id <= curr_state.turn_id + TURNS_PER_LEVEL,
                    forall|i: int| 0 <= i < child_turns@.len() ==> spec_possible_turns(*curr_state.common, curr_state.model()).contains((#[trigger] child_turns@[i]).moves@),
                    result_fits_loosely(curr_state, share_best),
                    found_or_empty(share_best),
                    j > w ==> share_best.turn is Some,
                    cancellation_token.always_cancels() ==> j == w,
                    w <= j,
                    1 <= shares,
                ensures
                    result_fits_loosely(curr_state, share_best),
                    found_or_empty(share_best),
                    cancellation_token.never_cancels() && w < order@.len() ==> share_best.turn is Some,
                    cancellation_token.always_cancels() ==> empty_result(share_best),
                decreases order.len() - j,
            {
                if cancellation_token.is_cancellation_requested() {
                    break;
                }
                let idx = order[j].1;
                let child_state = child_states[idx].copy_state();
                let child_turn = child_turns[idx].copy();
                let floor = shared_alpha.get_alpha();
                let hypo = Self::find_best_turn_two_players_parallel_recursive(child_state, analysis_player_id,
                    analysis_level - 1, cancellation_token, floor, Self::ALPHA_INITIAL, Self::BETA_INITIAL);
                if hypo.ending_state.is_none() {
                    break;
                }
                if share_best.appraisal < hypo.appraisal {
                    share_best = hypo;
                    share_best.turn = Some(child_turn);
                    let new_alpha = shared_alpha.update(share_best.appraisal);
                    if new_alpha >= Self::BETA_INITIAL {
                        break;
                    }
                }
                if order.len() - j <= shares {
                    break;
                }
                j = j + shares;
            }
            if best_turn.appraisal <= share_best.appraisal && share_best.turn.is_some() {
                best_turn = share_best;
            }
            w = w + 1;
        }
        best_turn
    }
}


/// The match data of a state.
pub open spec fn common_of(s: MutableGameState) -> CommonGameState {
    *s.common
}

/// A value as the side to move in `m` sees it: negated when the other side
/// moves in `c`.
pub open spec fn signed_for(m: GameModel, c: GameModel, v: int) -> int {
    if c.current == m.current { v } else { -v }
}

/// The child that turn `i` of `m` leads to.
pub open spec fn child_model(common: CommonGameState, m: GameModel, i: int) -> GameModel {
    spec_after_turn(common, m, spec_possible_turns(common, m)[i])
}

/// The negamax value of `m` searched `d` turns deep: the heuristic of the side
/// to move at the horizon or at the end of the game, else the best child value
/// seen from the side to move.
pub open spec fn negamax(common: CommonGameState, m: GameModel, d: int) -> int
    decreases d + 1, 0int,
{
    if d <= 0 || m.winner != crate::rule_helper::INVALID_PLAYER_ID {
        spec_heuristic(common, m, m.current)
    } else {
        clamp_appraisal(best_of(common, m, d, spec_possible_turns(common, m).len() as int))
    }
}

/// `x` lies between the sentinels.
pub open spec fn within_sentinels(x: int) -> bool {
    HEURISTIC_SCORE_LOSS <= x <= HEURISTIC_SCORE_WIN
}

/// `x` limited to the sentinels; the best child value of a real position is
/// always within them.
pub open spec fn clamp_appraisal(x: int) -> int {
    if x < HEURISTIC_SCORE_LOSS { HEURISTIC_SCORE_LOSS as int } else if x > HEURISTIC_SCORE_WIN { HEURISTIC_SCORE_WIN as int } else { x }
}

/// The best child value among the first `k` turns of `m`.
pub open spec fn best_of(common: CommonGameState, m: GameModel, d: int, k: int) -> int
    decreases d, k,
{
    if d <= 0 || k <= 0 {
        APPRAISAL_EMPTY_MINIMUM as int
    } else {
        let c = child_model(common, m, k - 1);
        let w = signed_for(m, c, negamax(common, c, d - 1));
        if k == 1 {
            w
        } else {
            let rest = best_of(common, m, d, k - 1);
            if rest >= w { rest } else { w }
        }
    }
}

/// Value of child `i` of `m` seen from the side to move.
pub open spec fn child_worth(common: CommonGameState, m: GameModel, d: int, i: int) -> int {
    let c = child_model(common, m, i);
    signed_for(m, c, negamax(common, c, d - 1))
}

/// A fail-soft alpha-beta result `r` in window (`a`, `b`) for true value `v`:
/// exact inside the window, a bound on the failing side outside it.
pub open spec fn fail_soft(v: int, a: int, b: int, r: int) -> bool {
    &&& (r <= a ==> v <= r)
    &&& (r >= b ==> v >= r)
    &&& (a < r < b ==> v == r)
}

proof fn lemma_best_of_bounds(common: CommonGameState, m: GameModel, d: int, k: int)
    requires
        d >= 1,
        k >= 0,
    ensures
        forall|i: int| 0 <= i < k ==> child_worth(common, m, d, i) <= best_of(common, m, d, k),
        k >= 1 ==> exists|i: int| 0 <= i < k && child_worth(common, m, d, i) == best_of(common, m, d, k),
    decreases k,
{
    if k >= 1 {
        lemma_best_of_bounds(common, m, d, k - 1);
        let w = child_worth(common, m, d, k - 1);
        if best_of(common, m, d, k) == w {
            assert(0 <= k - 1 < k && child_worth(common, m, d, k - 1) == best_of(common, m, d, k));
        } else {
            assert(k >= 2);
            let i0 = choose|i: int| 0 <= i < k - 1 && child_worth(common, m, d, i) == best_of(common, m, d, k - 1);
            assert(0 <= i0 < k && child_worth(common, m, d, i0) == best_of(common, m, d, k));
        }
    }
}

proof fn lemma_best_of_le(common: CommonGameState, m: GameModel, d: int, k: int, x: int)
    requires
        d >= 1,
        k >= 1,
        forall|i: int| 0 <= i < k ==> child_worth(common, m, d, i) <= x,
    ensures
        best_of(common, m, d, k) <= x,
{
    lemma_best_of_bounds(common, m, d, k);
    let i = choose|i: int| 0 <= i < k && child_worth(common, m, d, i) == best_of(common, m, d, k);
}

/// A child's fail-soft result, with the window swapped and negated for a
/// child of the other side, is a fail-soft result for the parent.
proof fn lemma_signed_fail_soft(us: bool, v: int, a: int, b: int, r: int)
    requires
        HEURISTIC_SCORE_LOSS <= a < b <= HEURISTIC_SCORE_WIN,
        HEURISTIC_SCORE_LOSS <= r <= HEURISTIC_SCORE_WIN,
        fail_soft(v, if us { a } else { -b }, if us { b } else { -a }, r),
    ensures
        fail_soft(if us { v } else { -v }, a, b, if us { r } else { -r }),
{
}

/// Once every child is searched, the best result is a fail-soft result.
proof fn lemma_node_complete(common: CommonGameState, m: GameModel, d: int, order: Seq<(i64, usize)>, n: int, a0: int, beta: int, best: int)
    requires
        d >= 1,
        n >= 1,
        order.len() == n,
        forall|p: int| 0 <= p < n ==> (#[trigger] order[p]).1 < n,
        forall|k: int| 0 <= k < n ==> lists_index(order, k),
        forall|p: int| 0 <= p < n ==> child_worth(common, m, d, (#[trigger] order[p]).1 as int) <= best,
        best > a0 ==> exists|p: int| 0 <= p < n && child_worth(common, m, d, (#[trigger] order[p]).1 as int) == best,
        best < beta,
    ensures
        fail_soft(best_of(common, m, d, n), a0, beta, best),
{
    assert forall|i: int| 0 <= i < n implies child_worth(common, m, d, i) <= best by {
        assert(lists_index(order, i));
        let p = choose|p: int| 0 <= p < order.len() && order[p].1 == i;
        assert(child_worth(common, m, d, (order[p]).1 as int) <= best);
    }
    lemma_best_of_le(common, m, d, n, best);
    lemma_best_of_bounds(common, m, d, n);
    if best > a0 {
        let p = choose|p: int| 0 <= p < n && child_worth(common, m, d, (#[trigger] order[p]).1 as int) == best;
        let i = order[p].1 as int;
        assert(0 <= i < n);
        assert(child_worth(common, m, d, i) <= best_of(common, m, d, n));
    }
}

/// The key the search orders the children of `m` by: their appraisal for the
/// side to move in `m`.
pub open spec fn order_key(common: CommonGameState, m: GameModel, i: int) -> int {
    spec_heuristic(common, child_model(common, m, i), m.current)
}

/// `ord` is the order in which the search takes the children of `m`: by
/// descending key, equal keys in enumeration order, above the last level; in
/// enumeration order at the last level.
pub open spec fn is_search_order(common: CommonGameState, m: GameModel, d: int, ord: Seq<int>) -> bool {
    let n = spec_possible_turns(common, m).len() as int;
    &&& ord.len() == n
    &&& forall|p: int| 0 <= p < n ==> 0 <= #[trigger] ord[p] < n
    &&& forall|p: int, q: int| 0 <= p < q < n ==> ord[p] != ord[q]
    &&& d > 1 ==> forall|p: int, q: int| 0 <= p < q < n ==> order_key(common, m, ord[p]) > order_key(common, m, ord[q])
        || (order_key(common, m, ord[p]) == order_key(common, m, ord[q]) && ord[p] < ord[q])
    &&& d <= 1 ==> forall|p: int| 0 <= p < n ==> #[trigger] ord[p] == p
}

/// Position `q` of `ord` is the first whose child reaches the negamax value.
pub open spec fn first_best(common: CommonGameState, m: GameModel, d: int, ord: Seq<int>, q: int) -> bool {
    &&& 0 <= q < ord.len()
    &&& child_worth(common, m, d, ord[q]) == negamax(common, m, d)
    &&& forall|p: int| 0 <= p < q ==> child_worth(common, m, d, #[trigger] ord[p]) < negamax(common, m, d)
}

/// The turn `t` is the one an unpruned negamax over the search order picks:
/// the first child, in that order, of the best value.
pub open spec fn picks_first_best(common: CommonGameState, m: GameModel, d: int, t: Seq<PlayerMove>) -> bool {
    exists|ord: Seq<int>, q: int| is_search_order(common, m, d, ord) && first_best(common, m, d, ord, q)
        && t == spec_possible_turns(common, m)[ord[q]]
}

/// The N-player search of `m` for player `a`, `d` turns deep: its appraisal and
/// the state it ends in. At the horizon or the end of the game, the heuristic
/// for `a`; otherwise the scan of all children.
pub open spec fn many_search(common: CommonGameState, m: GameModel, a: int, d: int) -> (int, GameModel)
    decreases d + 1, 0int,
{
    if d <= 0 || m.winner != crate::rule_helper::INVALID_PLAYER_ID {
        (spec_heuristic(common, m, a), m)
    } else {
        let (v, e, stopped) = many_scan(common, m, a, d, spec_possible_turns(common, m).len() as int);
        (v, e)
    }
}

/// The first `k` children of `m` searched for the player to move in `m`, a
/// child where another player moves appraised afresh on its ending state for
/// the player to move in `m`; the first strictly best is kept, and the scan
/// stops once a kept ending state is won by `a`. Gives the best appraisal, its
/// ending state, and whether the scan stopped.
pub open spec fn many_scan(common: CommonGameState, m: GameModel, a: int, d: int, k: int) -> (int, GameModel, bool)
    decreases d, k,
{
    if d <= 0 || k <= 0 {
        (APPRAISAL_EMPTY_MINIMUM as int, m, false)
    } else {
        let (bv, be, stopped) = many_scan(common, m, a, d, k - 1);
        if stopped {
            (bv, be, true)
        } else {
            let c = child_model(common, m, k - 1);
            let (v, e) = many_search(common, c, m.current, d - 1);
            let w = if c.current != m.current { spec_heuristic(common, e, m.current) } else { v };
            if bv < w { (w, e, e.winner == a) } else { (bv, be, false) }
        }
    }
}

proof fn lemma_many_scan_stopped(common: CommonGameState, m: GameModel, a: int, d: int, k: int, j: int)
    requires
        d >= 1,
        1 <= k <= j,
        many_scan(common, m, a, d, k).2,
    ensures
        many_scan(common, m, a, d, j) == many_scan(common, m, a, d, k),
    decreases j - k,
{
    if j > k {
        lemma_many_scan_stopped(common, m, a, d, k, j - 1);
    }
}

} // verus!
