//! The state of a match and the rules that take it from one turn to the next.

use vstd::prelude::*;
use std::rc::Rc;
use crate::board::{Board, index_of, lemma_ascending_fits, ring};
use crate::common_game_state::{CommonGameState, MAX_PLAYERS, spec_player_type};
use crate::player::{PlayerAction, PlayerId, PlayerMove, PlayerType};
use crate::room::RoomId;
use crate::rule_helper::{
    CARD_UNIT, CLOVERS_PER_FAILURE_DEN, CLOVERS_PER_FAILURE_NUM, FAILURES_PER_LOOT, HEURISTIC_SCORE_LOSS,
    HEURISTIC_SCORE_WIN, INVALID_PLAYER_ID, MOVE_CARDS_PER_LOOT, PLAYER_STARTING_FAILURES, PLAYER_STARTING_MOVE_CARDS,
    PLAYER_STARTING_STRENGTH, PLAYER_STARTING_WEAPONS, STRANGERS_ARE_NOSY, STRENGTH_PER_WEAPON, WEAPONS_PER_LOOT,
    allied_stranger, opposing_normal_player, opposing_stranger, spec_allied_stranger, spec_opposing_normal_player,
    spec_opposing_stranger, spec_to_normal_player_id,
};
use crate::simple_turn::SimpleTurn;

verus! {

/// Turn counters stay at or below this.
pub const TURN_LIMIT: i32 = 1000000;

/// Most auxiliary sub-turns resolved in a row after one normal turn; on boards
/// where the strangers would otherwise hand the turn to each other forever,
/// control returns to the next player after this many.
pub const MAX_FORCED_SUBTURNS: i32 = 64;

/// Largest card holding possible after `turn_id` turns: the largest starting
/// holding plus one loot per turn.
pub open spec fn card_cap(turn_id: int) -> int {
    PLAYER_STARTING_FAILURES + MOVE_CARDS_PER_LOOT * turn_id
}

#[derive(Clone, Debug)]
pub struct MutableGameState {
    pub common: Rc<CommonGameState>,
    pub turn_id: i32,
    pub current_player_id: PlayerId,
    pub doctor_room_id: RoomId,
    pub player_room_ids: Vec<RoomId>,
    /// Card holdings in units of `CARD_UNIT` per card.
    pub player_move_cards: Vec<i64>,
    pub player_weapons: Vec<i64>,
    pub player_failures: Vec<i64>,
    pub player_strengths: Vec<i32>,
    pub attacker_hist: Vec<PlayerId>,
    pub winner: PlayerId,
    pub prev_turn: SimpleTurn,
}

/// The mutable part of a state, as mathematical values.
pub struct GameModel {
    pub turn_id: int,
    pub current: int,
    pub doctor: RoomId,
    pub rooms: Seq<RoomId>,
    pub moves: Seq<i64>,
    pub weapons: Seq<i64>,
    pub failures: Seq<i64>,
    pub strengths: Seq<i32>,
    pub hist: Seq<PlayerId>,
    pub winner: int,
    pub prev_turn: Seq<PlayerMove>,
}

/// Card holdings during an attack.
pub struct Cards {
    pub moves: Seq<i64>,
    pub weapons: Seq<i64>,
    pub failures: Seq<i64>,
}

pub open spec fn min_int(a: int, b: int) -> int {
    if a <= b { a } else { b }
}

/// A defender spends cards worth `num / den` clovers each against `budget`:
/// as many as the budget calls for, at most all it holds.
pub open spec fn defend_cards(cards: int, budget: int, num: int, den: int) -> (int, int) {
    if budget > 0 && cards > 0 {
        let used = min_int(cards, budget * den / num);
        (cards - used, budget - used * num / den)
    } else {
        (cards, budget)
    }
}

/// Player `p` defends with failures, then weapons, then move cards.
pub open spec fn defend_player(c: Cards, p: int, budget: int) -> (Cards, int) {
    let (f, b1) = defend_cards(c.failures[p] as int, budget, CLOVERS_PER_FAILURE_NUM as int, CLOVERS_PER_FAILURE_DEN as int);
    let (w, b2) = defend_cards(c.weapons[p] as int, b1, 1, 1);
    let (m, b3) = defend_cards(c.moves[p] as int, b2, 1, 1);
    (Cards {
        moves: c.moves.update(p, m as i64),
        weapons: c.weapons.update(p, w as i64),
        failures: c.failures.update(p, f as i64),
    }, b3)
}

/// The attacker spends a weapon, if it holds a whole one, for extra strength.
pub open spec fn use_weapon(c: Cards, p: int, budget: int) -> (Cards, int) {
    if c.weapons[p] >= CARD_UNIT {
        (Cards { weapons: c.weapons.update(p, (c.weapons[p] - CARD_UNIT) as i64), ..c }, budget + STRENGTH_PER_WEAPON)
    } else {
        (c, budget)
    }
}

/// Defenders from `k` steps before the attacker onwards, stepping backwards,
/// until the budget is spent (the attack fails) or every other player has
/// defended (it succeeds).
pub open spec fn defend_round(c: Cards, cur: int, n: int, k: int, budget: int) -> (Cards, bool)
    decreases n - k,
{
    if k >= n {
        (c, budget > 0)
    } else if budget <= 0 {
        (c, false)
    } else {
        let (c2, b2) = defend_player(c, (cur - k) % n, budget);
        defend_round(c2, cur, n, k + 1, b2)
    }
}

/// Clovers that player `p` can defend with.
pub open spec fn clovers_of(c: Cards, p: int) -> int {
    (c.failures[p] as int) * (CLOVERS_PER_FAILURE_NUM as int) / (CLOVERS_PER_FAILURE_DEN as int) + c.weapons[p] as int + c.moves[p] as int
}

/// Clovers of the normal players below `k` other than the attacker's side.
pub open spec fn defensive_clovers(c: Cards, has_strangers: bool, num_normal: int, cur: int, k: int) -> int
    decreases k,
{
    if k <= 0 {
        0
    } else {
        let p = k - 1;
        let rest = defensive_clovers(c, has_strangers, num_normal, cur, k - 1);
        if p != cur && spec_player_type(has_strangers, p) == PlayerType::Normal
            && p != spec_to_normal_player_id(cur, num_normal) {
            rest + clovers_of(c, p)
        } else {
            rest
        }
    }
}

pub open spec fn cards_of(m: GameModel) -> Cards {
    Cards { moves: m.moves, weapons: m.weapons, failures: m.failures }
}

pub open spec fn with_cards(m: GameModel, c: Cards) -> GameModel {
    GameModel { moves: c.moves, weapons: c.weapons, failures: c.failures, ..m }
}

/// Strength and history after the current player attacks.
pub open spec fn spec_attack_start(m: GameModel) -> GameModel {
    GameModel {
        strengths: m.strengths.update(m.current, (m.strengths[m.current] + 1) as i32),
        hist: m.hist.push(PlayerId(m.current as i32)),
        ..m
    }
}

/// Resolution of an attack by the current player: whether it succeeds, and the
/// state after strength, history and cards are updated.
pub open spec fn spec_attack(common: CommonGameState, m: GameModel) -> (bool, GameModel) {
    let cur = m.current;
    let n = common.num_all_players as int;
    let strength = m.strengths[cur] as int;
    let m1 = spec_attack_start(m);
    let budget = strength * CARD_UNIT;
    if common.spec_has_strangers() {
        if budget < 0 {
            (false, m1)
        } else {
            let (c1, b1) = if spec_player_type(true, cur) == PlayerType::Normal {
                use_weapon(cards_of(m1), cur, budget)
            } else {
                (cards_of(m1), budget)
            };
            let (c2, b2) = defend_player(c1, spec_opposing_normal_player(cur), b1);
            (b2 > 0, with_cards(m1, c2))
        }
    } else {
        let clovers = defensive_clovers(cards_of(m1), false, common.num_normal_players as int, cur, common.num_normal_players as int);
        let (c1, b1) = if clovers <= 2 * budget { use_weapon(cards_of(m1), cur, budget) } else { (cards_of(m1), budget) };
        if clovers < b1 {
            (true, with_cards(m1, c1))
        } else {
            let (c2, won) = defend_round(c1, cur, n, 1, b1);
            (won, with_cards(m1, c2))
        }
    }
}

/// Whether any player other than the current one sees the current player's room.
pub open spec fn seen_by_others(b: Board, m: GameModel, n: int) -> bool {
    exists|p: int| 0 <= p < n && p != m.current && b.spec_sees(m.rooms[m.current], #[trigger] m.rooms[p])
}

pub open spec fn spec_best_action(b: Board, m: GameModel, n: int, moved_stranger_that_saw_doctor: bool) -> PlayerAction {
    let room = m.rooms[m.current];
    if seen_by_others(b, m, n) {
        PlayerAction::Nothing
    } else if room == m.doctor && (!STRANGERS_ARE_NOSY || !moved_stranger_that_saw_doctor) {
        PlayerAction::Attack
    } else if b.spec_sees(room, m.doctor) {
        PlayerAction::Nothing
    } else {
        PlayerAction::Loot
    }
}

/// The first player, from `c` onwards and wrapping, whose room is `doctor`; `c`
/// itself when nobody is there.
pub open spec fn first_in_room(rooms: Seq<RoomId>, doctor: RoomId, c: int, n: int, o: int) -> int
    decreases n - o,
{
    if o >= n {
        c
    } else if rooms[(c + o) % n] == doctor {
        (c + o) % n
    } else {
        first_in_room(rooms, doctor, c, n, o + 1)
    }
}

/// The doctor steps to the next room and the turn passes on; after the first
/// round it passes to the first player found in the doctor's new room.
pub open spec fn spec_doctor_phase(b: Board, n: int, m: GameModel) -> GameModel {
    let doctor = ring(b.room_ids@, index_of(b.room_ids@, m.doctor), 1);
    let c = (m.current + 1) % n;
    let current = if m.turn_id >= n { first_in_room(m.rooms, doctor, c, n, 0) } else { c };
    GameModel { doctor, current, ..m }
}

impl MutableGameState {
    pub open spec fn model(&self) -> GameModel {
        GameModel {
            turn_id: self.turn_id as int,
            current: self.current_player_id.0 as int,
            doctor: self.doctor_room_id,
            rooms: self.player_room_ids@,
            moves: self.player_move_cards@,
            weapons: self.player_weapons@,
            failures: self.player_failures@,
            strengths: self.player_strengths@,
            hist: self.attacker_hist@,
            winner: self.winner.0 as int,
            prev_turn: self.prev_turn.moves@,
        }
    }

    pub open spec fn n(&self) -> int {
        self.common.num_all_players as int
    }

    pub open spec fn board(&self) -> Board {
        self.common.board
    }

    /// A state the rules can run on.
    pub open spec fn wf(&self) -> bool {
        self.wf_with(0)
    }

    /// Well-formed, with holdings allowed to reach the caps of `slack` turns on.
    pub open spec fn wf_with(&self, slack: int) -> bool {
        let n = self.n();
        let ids = self.common.board.room_ids@;
        let t = self.turn_id as int + slack;
        &&& self.sizes_ok()
        &&& 0 <= self.current_player_id.0 < n
        &&& (self.winner.0 == INVALID_PLAYER_ID || 0 <= self.winner.0 < n)
        &&& 1 <= self.turn_id <= TURN_LIMIT
        &&& 0 <= slack <= 1
        &&& t <= TURN_LIMIT
        &&& ids.contains(self.doctor_room_id)
        &&& forall|p: int| 0 <= p < n ==> ids.contains(#[trigger] self.player_room_ids@[p])
        &&& forall|p: int| 0 <= p < n ==> 0 <= #[trigger] self.player_move_cards@[p] <= card_cap(t)
        &&& forall|p: int| 0 <= p < n ==> 0 <= #[trigger] self.player_weapons@[p] <= card_cap(t)
        &&& forall|p: int| 0 <= p < n ==> 0 <= #[trigger] self.player_failures@[p] <= card_cap(t)
        &&& forall|p: int| 0 <= p < n ==> 0 <= #[trigger] self.player_strengths@[p] <= t
    }

    /// A normal player is to move.
    pub open spec fn spec_is_normal_turn(&self) -> bool {
        spec_player_type(self.common.spec_has_strangers(), self.current_player_id.0 as int) == PlayerType::Normal
    }

    pub open spec fn spec_has_winner(&self) -> bool {
        self.winner.0 != INVALID_PLAYER_ID
    }

    /// The state at the start of a match: everyone in the player start room,
    /// the doctor in its start room, starting cards and strength, player 0 to
    /// move.
    pub fn at_start(common: CommonGameState) -> (r: MutableGameState)
        requires
            common.wf(),
            common.board.room_ids@.contains(common.board.player_start_room_id),
            common.board.room_ids@.contains(common.board.doctor_start_room_id),
        ensures
            r.wf(),
            *r.common == common,
            r.turn_id == 1,
            r.current_player_id == PlayerId(0),
            r.doctor_room_id == common.board.doctor_start_room_id,
            r.player_room_ids@ == Seq::new(common.num_all_players as nat, |i: int| common.board.player_start_room_id),
            r.player_move_cards@ == Seq::new(common.num_all_players as nat, |i: int| PLAYER_STARTING_MOVE_CARDS),
            r.player_weapons@ == Seq::new(common.num_all_players as nat, |i: int| PLAYER_STARTING_WEAPONS),
            r.player_failures@ == Seq::new(common.num_all_players as nat, |i: int| PLAYER_STARTING_FAILURES),
            r.player_strengths@ == Seq::new(common.num_all_players as nat, |i: int| PLAYER_STARTING_STRENGTH),
            r.attacker_hist@.len() == 0,
            r.winner == PlayerId(INVALID_PLAYER_ID),
            r.prev_turn.moves@ == seq![PlayerMove { player_id: PlayerId(INVALID_PLAYER_ID), dest_room_id: RoomId(0) }],
    {
        let n = common.num_all_players;
        let start = common.board.player_start_room_id;
        let doctor_room_id = common.board.doctor_start_room_id;
        let mut player_room_ids: Vec<RoomId> = Vec::new();
        let mut player_move_cards: Vec<i64> = Vec::new();
        let mut player_weapons: Vec<i64> = Vec::new();
        let mut player_failures: Vec<i64> = Vec::new();
        let mut player_strengths: Vec<i32> = Vec::new();
        let mut i: usize = 0;
        while i < n
            invariant
                i <= n,
                player_room_ids@ == Seq::new(i as nat, |j: int| start),
                player_move_cards@ == Seq::new(i as nat, |j: int| PLAYER_STARTING_MOVE_CARDS),
                player_weapons@ == Seq::new(i as nat, |j: int| PLAYER_STARTING_WEAPONS),
                player_failures@ == Seq::new(i as nat, |j: int| PLAYER_STARTING_FAILURES),
                player_strengths@ == Seq::new(i as nat, |j: int| PLAYER_STARTING_STRENGTH),
            decreases n - i,
        {
            player_room_ids.push(start);
            player_move_cards.push(PLAYER_STARTING_MOVE_CARDS);
            player_weapons.push(PLAYER_STARTING_WEAPONS);
            player_failures.push(PLAYER_STARTING_FAILURES);
            player_strengths.push(PLAYER_STARTING_STRENGTH);
            i = i + 1;
            assert(player_room_ids@ =~= Seq::new(i as nat, |j: int| start));
            assert(player_move_cards@ =~= Seq::new(i as nat, |j: int| PLAYER_STARTING_MOVE_CARDS));
            assert(player_weapons@ =~= Seq::new(i as nat, |j: int| PLAYER_STARTING_WEAPONS));
            assert(player_failures@ =~= Seq::new(i as nat, |j: int| PLAYER_STARTING_FAILURES));
            assert(player_strengths@ =~= Seq::new(i as nat, |j: int| PLAYER_STARTING_STRENGTH));
        }
        MutableGameState {
            common: Rc::new(common),
            turn_id: 1,
            current_player_id: PlayerId(0),
            doctor_room_id,
            player_room_ids,
            player_move_cards,
            player_weapons,
            player_failures,
            player_strengths,
            attacker_hist: Vec::new(),
            winner: PlayerId(INVALID_PLAYER_ID),
            prev_turn: SimpleTurn::invalid_default(),
        }
    }

    pub fn num_players(&self) -> (r: usize)
        ensures
            r == self.common.num_normal_players,
    {
        self.common.num_normal_players
    }

    pub fn has_winner(&self) -> (r: bool)
        ensures
            r == self.spec_has_winner(),
    {
        self.winner.0 != INVALID_PLAYER_ID
    }

    pub fn is_normal_turn(&self) -> (r: bool)
        ensures
            r == (spec_player_type(self.common.spec_has_strangers(), self.current_player_id.0 as int) == PlayerType::Normal),
    {
        self.common.get_player_type(self.current_player_id) == PlayerType::Normal
    }

    pub fn current_player_type(&self) -> (r: PlayerType)
        ensures
            r == spec_player_type(self.common.spec_has_strangers(), self.current_player_id.0 as int),
    {
        self.common.get_player_type(self.current_player_id)
    }

    /// What the current player may do where it stands.
    pub fn best_action_allowed(&self, moved_stranger_that_saw_doctor: bool) -> (r: PlayerAction)
        requires
            self.wf(),
        ensures
            r == spec_best_action(self.board(), self.model(), self.n(), moved_stranger_that_saw_doctor),
    {
        let n = self.common.num_all_players;
        let cur = self.current_player_id.0 as usize;
        let current_room_id = self.player_room_ids[cur];
        let board = &self.common.board;
        assert(board.room_ids@.contains(current_room_id));
        proof { self.lemma_rooms_in_range(); }
        let mut p: usize = 0;
        while p < n
            invariant
                self.wf(),
                n == self.n(),
                cur == self.current_player_id.0,
                current_room_id == self.player_room_ids@[cur as int],
                board == self.common.board,
                forall|q: int| 0 <= q < n ==> board.in_range(#[trigger] self.player_room_ids@[q]),
                p <= n,
                forall|q: int| 0 <= q < p && q != cur ==> !board.spec_sees(current_room_id, #[trigger] self.player_room_ids@[q]),
            decreases n - p,
        {
            if p != cur {
                let other = self.player_room_ids[p];
                assert(board.in_range(self.player_room_ids@[p as int]));
                if board.sight[current_room_id.0 as usize][other.0 as usize] {
                    assert(board.spec_sees(current_room_id, self.player_room_ids@[p as int]));
                    return PlayerAction::Nothing;
                }
            }
            p = p + 1;
        }
        assert(!seen_by_others(self.board(), self.model(), self.n()));
        if current_room_id == self.doctor_room_id && (!STRANGERS_ARE_NOSY || !moved_stranger_that_saw_doctor) {
            return PlayerAction::Attack;
        }
        assert(board.in_range(self.doctor_room_id)) by { self.lemma_rooms_in_range(); }
        if board.sight[current_room_id.0 as usize][self.doctor_room_id.0 as usize] {
            PlayerAction::Nothing
        } else {
            PlayerAction::Loot
        }
    }

    /// Every room of the state indexes the board's matrices.
    pub proof fn lemma_rooms_in_range(&self)
        requires
            self.wf(),
        ensures
            self.board().in_range(self.doctor_room_id),
            forall|q: int| 0 <= q < self.n() ==> self.board().in_range(#[trigger] self.player_room_ids@[q]),
    {
        let ids = self.board().room_ids@;
        let k = choose|k: int| 0 <= k < ids.len() && ids[k] == self.doctor_room_id;
        assert(0 <= ids[k].0 < self.board().dim());
        assert forall|q: int| 0 <= q < self.n() implies self.board().in_range(#[trigger] self.player_room_ids@[q]) by {
            assert(ids.contains(self.player_room_ids@[q]));
            let j = choose|j: int| 0 <= j < ids.len() && ids[j] == self.player_room_ids@[q];
            assert(0 <= ids[j].0 < self.board().dim());
        }
    }
}

/// Bound on card holdings and attack budgets that keeps the arithmetic in range.
pub const AMOUNT_CAP: i64 = 1099511627776;

/// A defender spends cards worth `num / den` clovers each against `budget`.
fn defend_with_card_type(cards: i64, budget: i64, num: i64, den: i64) -> (r: (i64, i64))
    requires
        0 <= cards <= AMOUNT_CAP,
        0 <= budget <= AMOUNT_CAP,
        (num == 1 && den == 1) || (num == CLOVERS_PER_FAILURE_NUM && den == CLOVERS_PER_FAILURE_DEN),
    ensures
        (r.0 as int, r.1 as int) == defend_cards(cards as int, budget as int, num as int, den as int),
        0 <= r.0 <= cards,
        0 <= r.1 <= budget,
{
    if budget > 0 && cards > 0 {
        let wanted = budget * den / num;
        let used = if cards <= wanted { cards } else { wanted };
        let ghost (u, nn, dd, bb, cc) = (used as int, num as int, den as int, budget as int, cards as int);
        assert(u * nn / dd <= bb) by (nonlinear_arith)
            requires
                u <= bb * dd / nn,
                u >= 0,
                bb >= 0,
                (nn == 1 && dd == 1) || (nn == 25 && dd == 12),
        ;
        assert(0 <= u * nn / dd) by (nonlinear_arith)
            requires u >= 0, nn > 0, dd > 0;
        assert(u * nn <= 1099511627776 * 25) by (nonlinear_arith)
            requires u <= cc, cc <= 1099511627776, 0 <= u, 0 < nn <= 25;
        (cards - used, budget - used * num / den)
    } else {
        (cards, budget)
    }
}

impl MutableGameState {
    /// Holdings are within `AMOUNT_CAP`.
    pub open spec fn amounts_capped(&self) -> bool {
        &&& forall|p: int| 0 <= p < self.n() ==> 0 <= #[trigger] self.player_move_cards@[p] <= AMOUNT_CAP
        &&& forall|p: int| 0 <= p < self.n() ==> 0 <= #[trigger] self.player_weapons@[p] <= AMOUNT_CAP
        &&& forall|p: int| 0 <= p < self.n() ==> 0 <= #[trigger] self.player_failures@[p] <= AMOUNT_CAP
    }

    pub open spec fn sizes_ok(&self) -> bool {
        &&& self.common.wf()
        &&& self.player_room_ids@.len() == self.n()
        &&& self.player_move_cards@.len() == self.n()
        &&& self.player_weapons@.len() == self.n()
        &&& self.player_failures@.len() == self.n()
        &&& self.player_strengths@.len() == self.n()
    }

    /// Player `p` defends against `budget`; returns what is left of it.
    fn defend(&mut self, p: usize, budget: i64) -> (r: i64)
        requires
            old(self).sizes_ok(),
            old(self).amounts_capped(),
            p < old(self).n(),
            0 <= budget <= AMOUNT_CAP,
        ensures
            final(self).sizes_ok(),
            final(self).amounts_capped(),
            0 <= r <= budget,
            ({
                let (c, b) = defend_player(cards_of(old(self).model()), p as int, budget as int);
                final(self).model() == with_cards(old(self).model(), c) && r == b
            }),
            final(self).common == old(self).common,
            forall|q: int| 0 <= q < old(self).n() ==> #[trigger] final(self).player_move_cards@[q] <= old(self).player_move_cards@[q],
            forall|q: int| 0 <= q < old(self).n() ==> #[trigger] final(self).player_weapons@[q] <= old(self).player_weapons@[q],
            forall|q: int| 0 <= q < old(self).n() ==> #[trigger] final(self).player_failures@[q] <= old(self).player_failures@[q],
    {
        let (f, b1) = defend_with_card_type(self.player_failures[p], budget, CLOVERS_PER_FAILURE_NUM, CLOVERS_PER_FAILURE_DEN);
        let (w, b2) = defend_with_card_type(self.player_weapons[p], b1, 1, 1);
        let (m, b3) = defend_with_card_type(self.player_move_cards[p], b2, 1, 1);
        self.player_failures.set(p, f);
        self.player_weapons.set(p, w);
        self.player_move_cards.set(p, m);
        proof {
            let (c, b) = defend_player(cards_of(old(self).model()), p as int, budget as int);
            assert(self.player_failures@ =~= c.failures);
            assert(self.player_weapons@ =~= c.weapons);
            assert(self.player_move_cards@ =~= c.moves);
        }
        b3
    }

    /// The current player spends a weapon, if it holds a whole one.
    fn spend_weapon(&mut self, budget: i64) -> (r: i64)
        requires
            old(self).sizes_ok(),
            old(self).amounts_capped(),
            0 <= old(self).current_player_id.0 < old(self).n(),
            0 <= budget <= AMOUNT_CAP - STRENGTH_PER_WEAPON,
        ensures
            final(self).sizes_ok(),
            final(self).amounts_capped(),
            budget <= r <= budget + STRENGTH_PER_WEAPON,
            ({
                let (c, b) = use_weapon(cards_of(old(self).model()), old(self).current_player_id.0 as int, budget as int);
                final(self).model() == with_cards(old(self).model(), c) && r == b
            }),
            final(self).common == old(self).common,
            forall|q: int| 0 <= q < old(self).n() ==> #[trigger] final(self).player_move_cards@[q] <= old(self).player_move_cards@[q],
            forall|q: int| 0 <= q < old(self).n() ==> #[trigger] final(self).player_weapons@[q] <= old(self).player_weapons@[q],
            forall|q: int| 0 <= q < old(self).n() ==> #[trigger] final(self).player_failures@[q] <= old(self).player_failures@[q],
    {
        let cur = self.current_player_id.0 as usize;
        if self.player_weapons[cur] >= CARD_UNIT {
            let w = self.player_weapons[cur] - CARD_UNIT;
            self.player_weapons.set(cur, w);
            proof {
                let (c, b) = use_weapon(cards_of(old(self).model()), cur as int, budget as int);
                assert(self.player_weapons@ =~= c.weapons);
            }
            budget + STRENGTH_PER_WEAPON
        } else {
            budget
        }
    }
}

impl MutableGameState {
    /// Clovers the current player's opponents can defend with.
    pub fn num_defensive_clovers(&self) -> (r: i64)
        requires
            self.sizes_ok(),
            self.amounts_capped(),
            0 <= self.current_player_id.0 < self.n(),
        ensures
            r as int == defensive_clovers(cards_of(self.model()), self.common.spec_has_strangers(),
                self.common.num_normal_players as int, self.current_player_id.0 as int, self.common.num_normal_players as int),
            0 <= r <= 16 * 5 * AMOUNT_CAP,
    {
        let num_normal = self.common.num_normal_players;
        let cur = self.current_player_id;
        let attacking_side = self.common.to_normal_player_id(cur);
        let mut clovers: i64 = 0;
        let mut p: usize = 0;
        proof {
            assert(num_normal <= self.n());
        }
        while p < num_normal
            invariant
                self.sizes_ok(),
                self.amounts_capped(),
                num_normal == self.common.num_normal_players,
                num_normal <= self.n() <= MAX_PLAYERS,
                cur == self.current_player_id,
                attacking_side.0 as int == spec_to_normal_player_id(cur.0 as int, num_normal as int),
                p <= num_normal,
                clovers as int == defensive_clovers(cards_of(self.model()), self.common.spec_has_strangers(), num_normal as int, cur.0 as int, p as int),
                0 <= clovers <= p * 5 * AMOUNT_CAP,
            decreases num_normal - p,
        {
            let pid = PlayerId(p as i32);
            if p as i32 != cur.0 && self.common.get_player_type(pid) == PlayerType::Normal && p as i32 != attacking_side.0 {
                let f = self.player_failures[p];
                let w = self.player_weapons[p];
                let m = self.player_move_cards[p];
                assert(0 <= f <= AMOUNT_CAP && 0 <= w <= AMOUNT_CAP && 0 <= m <= AMOUNT_CAP);
                let fc = f * CLOVERS_PER_FAILURE_NUM / CLOVERS_PER_FAILURE_DEN;
                assert(fc <= 3 * AMOUNT_CAP);
                clovers = clovers + fc + w + m;
            }
            p = p + 1;
        }
        clovers
    }

    /// Resolves an attack by the current player; true when it succeeds.
    fn process_attack(&mut self) -> (r: bool)
        requires
            old(self).sizes_ok(),
            old(self).amounts_capped(),
            0 <= old(self).current_player_id.0 < old(self).n(),
            0 <= old(self).player_strengths@[old(self).current_player_id.0 as int] < TURN_LIMIT,
        ensures
            (r, final(self).model()) == spec_attack(*old(self).common, old(self).model()),
            final(self).player_strengths@ == old(self).player_strengths@.update(old(self).current_player_id.0 as int,
                (old(self).player_strengths@[old(self).current_player_id.0 as int] + 1) as i32),
            final(self).player_room_ids@ == old(self).player_room_ids@,
            final(self).doctor_room_id == old(self).doctor_room_id,
            final(self).current_player_id == old(self).current_player_id,
            final(self).winner == old(self).winner,
            final(self).turn_id == old(self).turn_id,
            final(self).sizes_ok(),
            final(self).amounts_capped(),
            final(self).common == old(self).common,
            forall|q: int| 0 <= q < old(self).n() ==> #[trigger] final(self).player_move_cards@[q] <= old(self).player_move_cards@[q],
            forall|q: int| 0 <= q < old(self).n() ==> #[trigger] final(self).player_weapons@[q] <= old(self).player_weapons@[q],
            forall|q: int| 0 <= q < old(self).n() ==> #[trigger] final(self).player_failures@[q] <= old(self).player_failures@[q],
    {
        let ghost m0 = self.model();
        let ghost common = self.common;
        let cur = self.current_player_id.0 as usize;
        let n = self.common.num_all_players;
        let strength = self.player_strengths[cur];
        self.player_strengths.set(cur, strength + 1);
        self.attacker_hist.push(self.current_player_id);
        let ghost m1 = self.model();
        proof {
            assert(self.player_strengths@ =~= m0.strengths.update(cur as int, (strength + 1) as i32));
            assert(m1 == spec_attack_start(m0));
            assert(m1 == with_cards(m1, cards_of(m1)));
        }
        let mut budget: i64 = strength as i64 * CARD_UNIT;
        if self.common.has_strangers() {
            if budget < 0 {
                return false;
            }
            if self.is_normal_turn() {
                budget = self.spend_weapon(budget);
            }
            let defender = opposing_normal_player(self.current_player_id);
            assert(0 <= defender.0 < 4);
            budget = self.defend(defender.0 as usize, budget);
            budget > 0
        } else {
            let clovers = self.num_defensive_clovers();
            if clovers <= 2 * budget {
                budget = self.spend_weapon(budget);
            }
            if clovers < budget {
                return true;
            }
            let ghost c1 = cards_of(self.model());
            let ghost b1 = budget as int;
            assert(spec_attack(*common, m0) == (defend_round(c1, cur as int, n as int, 1, b1).1,
                with_cards(m1, defend_round(c1, cur as int, n as int, 1, b1).0)));
            let mut k: usize = 1;
            while k < n
                invariant
                    self.sizes_ok(),
                    self.amounts_capped(),
                    n == self.n(),
                    1 <= n <= MAX_PLAYERS,
                    cur == self.current_player_id.0,
                    cur < n,
                    1 <= k <= n,
                    0 <= budget <= AMOUNT_CAP,
                    self.common == common,
                    common == old(self).common,
                    m0 == old(self).model(),
                    m1 == spec_attack_start(m0),
                    spec_attack(*common, m0) == (defend_round(c1, cur as int, n as int, 1, b1).1,
                        with_cards(m1, defend_round(c1, cur as int, n as int, 1, b1).0)),
                    self.model() == with_cards(m1, cards_of(self.model())),
                    defend_round(cards_of(self.model()), cur as int, n as int, k as int, budget as int)
                        == defend_round(c1, cur as int, n as int, 1, b1),
                    forall|q: int| 0 <= q < n ==> #[trigger] self.player_move_cards@[q] <= m0.moves[q],
                    forall|q: int| 0 <= q < n ==> #[trigger] self.player_weapons@[q] <= m0.weapons[q],
                    forall|q: int| 0 <= q < n ==> #[trigger] self.player_failures@[q] <= m0.failures[q],
                decreases n - k,
            {
                if budget <= 0 {
                    assert(defend_round(cards_of(self.model()), cur as int, n as int, k as int, budget as int) == (cards_of(self.model()), false));
                    return false;
                }
                let defender = (cur + n - k) % n;
                proof {
                    vstd::arithmetic::div_mod::lemma_mod_add_multiples_vanish(cur as int - k as int, n as int);
                    assert(defender as int == (cur as int - k as int) % (n as int));
                }
                budget = self.defend(defender, budget);
                k = k + 1;
            }
            assert(defend_round(cards_of(self.model()), cur as int, n as int, k as int, budget as int) == (cards_of(self.model()), budget > 0));
            budget > 0
        }
    }
}

/// Most moves in one turn: the active player, a stranger, or two of them.
pub const MAX_TURN_MOVES: usize = 2;

/// Summed distance of the moves, each from its mover's room in `rooms`.
pub open spec fn total_dist(b: Board, rooms: Seq<RoomId>, moves: Seq<PlayerMove>) -> int
    decreases moves.len(),
{
    if moves.len() == 0 {
        0
    } else {
        let mv = moves.last();
        total_dist(b, rooms, moves.drop_last()) + b.spec_dist(rooms[mv.player_id.0 as int], mv.dest_room_id)
    }
}

/// Move cards spent on a walk of `dist` rooms: the first step is free.
pub open spec fn cards_used(dist: int) -> int {
    if dist - 1 > 0 { (dist - 1) * CARD_UNIT } else { 0 }
}

/// The pieces moved one after another, and whether a moved piece other than
/// `cur` could see the doctor from where it stood.
pub open spec fn move_pieces(b: Board, rooms: Seq<RoomId>, moves: Seq<PlayerMove>, cur: int, doctor: RoomId) -> (Seq<RoomId>, bool)
    decreases moves.len(),
{
    if moves.len() == 0 {
        (rooms, false)
    } else {
        let (r, saw) = move_pieces(b, rooms, moves.drop_last(), cur, doctor);
        let mv = moves.last();
        let p = mv.player_id.0 as int;
        (r.update(p, mv.dest_room_id), saw || (p != cur && b.spec_sees(r[p], doctor)))
    }
}

/// A turn the current state accepts.
pub open spec fn spec_turn_legal(common: CommonGameState, m: GameModel, moves: Seq<PlayerMove>) -> bool {
    let n = common.num_all_players as int;
    &&& moves.len() <= MAX_TURN_MOVES
    &&& forall|k: int| 0 <= k < moves.len() ==> 0 <= #[trigger] moves[k].player_id.0 < n
    &&& forall|k: int| 0 <= k < moves.len() ==> common.board.room_ids@.contains(#[trigger] moves[k].dest_room_id)
    &&& m.moves[m.current] >= cards_used(total_dist(common.board, m.rooms, moves))
    &&& forall|k: int| 0 <= k < moves.len() ==> (#[trigger] moves[k].player_id.0 == m.current
        || spec_player_type(common.spec_has_strangers(), moves[k].player_id.0 as int) == PlayerType::Stranger)
}

pub open spec fn spec_loot(m: GameModel) -> GameModel {
    let c = m.current;
    GameModel {
        moves: m.moves.update(c, (m.moves[c] + MOVE_CARDS_PER_LOOT) as i64),
        weapons: m.weapons.update(c, (m.weapons[c] + WEAPONS_PER_LOOT) as i64),
        failures: m.failures.update(c, (m.failures[c] + FAILURES_PER_LOOT) as i64),
        ..m
    }
}

/// After the action: the doctor phase unless someone won, then the next turn id.
pub open spec fn spec_end_turn(b: Board, n: int, m: GameModel) -> GameModel {
    let m1 = if m.winner == INVALID_PLAYER_ID { spec_doctor_phase(b, n, m) } else { m };
    GameModel { turn_id: m1.turn_id + 1, ..m1 }
}

/// The current normal player's own turn, before any forced stranger turns.
pub open spec fn spec_normal_turn(common: CommonGameState, m: GameModel, moves: Seq<PlayerMove>) -> GameModel {
    let b = common.board;
    let n = common.num_all_players as int;
    let cur = m.current;
    let used = cards_used(total_dist(b, m.rooms, moves));
    let (rooms, saw) = move_pieces(b, m.rooms, moves, cur, m.doctor);
    let m1 = GameModel {
        moves: m.moves.update(cur, (m.moves[cur] - used) as i64),
        rooms,
        prev_turn: moves,
        ..m
    };
    let action = spec_best_action(b, m1, n, saw);
    let m2 = if action == PlayerAction::Attack {
        let (won, ma) = spec_attack(common, m1);
        if won { GameModel { winner: cur, ..ma } } else { ma }
    } else if action == PlayerAction::Loot {
        spec_loot(m1)
    } else {
        m1
    };
    spec_end_turn(b, n, m2)
}

/// A stranger's forced turn: it attacks where it may, else steps back one room
/// in the doctor's order and attacks if it then may.
pub open spec fn spec_stranger_turn(common: CommonGameState, m: GameModel) -> GameModel {
    let b = common.board;
    let n = common.num_all_players as int;
    let cur = m.current;
    let a = spec_best_action(b, m, n, false);
    let room = if a == PlayerAction::Attack {
        m.rooms[cur]
    } else {
        ring(b.room_ids@, index_of(b.room_ids@, m.rooms[cur]), -1)
    };
    let m1 = GameModel { rooms: m.rooms.update(cur, room), ..m };
    let a2 = if a != PlayerAction::Attack { spec_best_action(b, m1, n, false) } else { a };
    let m2 = if a2 == PlayerAction::Attack {
        let (won, ma) = spec_attack(common, m1);
        if won {
            let side = spec_to_normal_player_id(cur, common.num_normal_players as int);
            GameModel { current: side, winner: side, ..ma }
        } else {
            ma
        }
    } else {
        m1
    };
    spec_end_turn(b, n, m2)
}

/// Stranger turns resolved one after another while the game goes on and a
/// stranger is to move, at most `fuel` of them.
pub open spec fn spec_forced_turns(common: CommonGameState, m: GameModel, fuel: int) -> GameModel
    decreases fuel,
{
    if fuel <= 0 || m.winner != INVALID_PLAYER_ID
        || spec_player_type(common.spec_has_strangers(), m.current) == PlayerType::Normal {
        m
    } else {
        spec_forced_turns(common, spec_stranger_turn(common, m), fuel - 1)
    }
}

/// The whole effect of a legal turn.
pub open spec fn spec_after_turn(common: CommonGameState, m: GameModel, moves: Seq<PlayerMove>) -> GameModel {
    spec_forced_turns(common, spec_normal_turn(common, m, moves), MAX_FORCED_SUBTURNS as int)
}

impl MutableGameState {
    /// The doctor steps on and the turn passes to the next player.
    fn do_doctor_phase(&mut self)
        requires
            old(self).wf_with(1),
        ensures
            final(self).wf_with(1),
            final(self).model() == spec_doctor_phase(old(self).board(), old(self).n(), old(self).model()),
            final(self).common == old(self).common,
            final(self).board().room_ids@.contains(final(self).doctor_room_id),
            0 <= final(self).current_player_id.0 < old(self).n(),
    {
        let board = &self.common.board;
        proof { lemma_ascending_fits(board.room_ids@, board.dim()); }
        self.doctor_room_id = Board::next_room_id(self.doctor_room_id, 1, board.room_ids.as_slice());
        proof {
            let ids = board.room_ids@;
            let i = index_of(ids, old(self).doctor_room_id);
            assert(0 <= i < ids.len() && ids[i] == old(self).doctor_room_id);
            vstd::arithmetic::div_mod::lemma_mod_bound(i + 1, ids.len() as int);
            assert(ids.contains(ids[(i + 1) % (ids.len() as int)]));
        }
        let n = self.common.num_all_players;
        let c = (self.current_player_id.0 as usize + 1) % n;
        self.current_player_id = PlayerId(c as i32);
        if self.turn_id as usize >= n {
            let next = first_player_in_room(&self.player_room_ids, self.doctor_room_id, c, n);
            self.current_player_id = PlayerId(next as i32);
        }
    }
}

fn first_player_in_room(rooms: &Vec<RoomId>, doctor: RoomId, c: usize, n: usize) -> (r: usize)
    requires
        1 <= n <= MAX_PLAYERS,
        c < n,
        rooms@.len() == n,
    ensures
        r as int == first_in_room(rooms@, doctor, c as int, n as int, 0),
        r < n,
{
    let mut o: usize = 0;
    while o < n
        invariant
            1 <= n <= MAX_PLAYERS,
            c < n,
            o <= n,
            rooms@.len() == n,
            first_in_room(rooms@, doctor, c as int, n as int, o as int) == first_in_room(rooms@, doctor, c as int, n as int, 0),
        decreases n - o,
    {
        let pid = (c + o) % n;
        if rooms[pid] == doctor {
            return pid;
        }
        o = o + 1;
    }
    c
}

impl MutableGameState {
    proof fn lemma_capped(&self, slack: int)
        requires
            self.wf_with(slack),
        ensures
            self.amounts_capped(),
    {
        assert(card_cap(self.turn_id as int + slack) <= AMOUNT_CAP);
    }

    /// Summed distance of the moves from the movers' rooms.
    fn total_distance(&self, moves: &Vec<PlayerMove>) -> (r: i64)
        requires
            self.wf(),
            moves@.len() <= MAX_TURN_MOVES,
            forall|k: int| 0 <= k < moves@.len() ==> 0 <= #[trigger] moves@[k].player_id.0 < self.n(),
            forall|k: int| 0 <= k < moves@.len() ==> self.board().room_ids@.contains(#[trigger] moves@[k].dest_room_id),
        ensures
            r as int == total_dist(self.board(), self.player_room_ids@, moves@),
            0 <= r <= 999 * moves@.len(),
    {
        proof { self.lemma_rooms_in_range(); }
        let board = &self.common.board;
        let mut total: i64 = 0;
        let mut k: usize = 0;
        while k < moves.len()
            invariant
                self.wf(),
                board == self.common.board,
                moves@.len() <= MAX_TURN_MOVES,
                forall|j: int| 0 <= j < moves@.len() ==> 0 <= #[trigger] moves@[j].player_id.0 < self.n(),
                forall|j: int| 0 <= j < moves@.len() ==> self.board().room_ids@.contains(#[trigger] moves@[j].dest_room_id),
                forall|q: int| 0 <= q < self.n() ==> board.in_range(#[trigger] self.player_room_ids@[q]),
                k <= moves@.len(),
                total as int == total_dist(*board, self.player_room_ids@, moves@.subrange(0, k as int)),
                0 <= total <= 999 * k,
            decreases moves.len() - k,
        {
            let mv = moves[k];
            let from = self.player_room_ids[mv.player_id.0 as usize];
            assert(board.in_range(self.player_room_ids@[mv.player_id.0 as int]));
            proof { lemma_id_in_range(*board, mv.dest_room_id); }
            let d = board.distance[from.0 as usize][mv.dest_room_id.0 as usize];
            proof {
                lemma_dist_bounds(*board, from, mv.dest_room_id);
                assert(moves@.subrange(0, k as int + 1).drop_last() =~= moves@.subrange(0, k as int));
            }
            total = total + d as i64;
            k = k + 1;
        }
        assert(moves@.subrange(0, moves@.len() as int) =~= moves@);
        total
    }

    /// Moves the pieces one after another; true when a moved piece other than
    /// the current player could see the doctor from where it stood.
    fn move_all(&mut self, moves: &Vec<PlayerMove>) -> (saw: bool)
        requires
            old(self).wf(),
            forall|k: int| 0 <= k < moves@.len() ==> 0 <= #[trigger] moves@[k].player_id.0 < old(self).n(),
            forall|k: int| 0 <= k < moves@.len() ==> old(self).board().room_ids@.contains(#[trigger] moves@[k].dest_room_id),
        ensures
            final(self).wf(),
            final(self).common == old(self).common,
            ({
                let (rooms, s) = move_pieces(old(self).board(), old(self).player_room_ids@, moves@,
                    old(self).current_player_id.0 as int, old(self).doctor_room_id);
                final(self).model() == (GameModel { rooms, ..old(self).model() }) && saw == s
            }),
    {
        let mut saw = false;
        let mut k: usize = 0;
        let cur = self.current_player_id.0;
        while k < moves.len()
            invariant
                self.wf(),
                self.common == old(self).common,
                cur == old(self).current_player_id.0,
                forall|j: int| 0 <= j < moves@.len() ==> 0 <= #[trigger] moves@[j].player_id.0 < old(self).n(),
                forall|j: int| 0 <= j < moves@.len() ==> old(self).board().room_ids@.contains(#[trigger] moves@[j].dest_room_id),
                k <= moves@.len(),
                ({
                    let (rooms, s) = move_pieces(old(self).board(), old(self).player_room_ids@, moves@.subrange(0, k as int),
                        cur as int, old(self).doctor_room_id);
                    self.model() == (GameModel { rooms, ..old(self).model() }) && saw == s
                }),
            decreases moves.len() - k,
        {
            let mv = moves[k];
            let p = mv.player_id.0 as usize;
            let room = self.player_room_ids[p];
            proof { self.lemma_rooms_in_range(); }
            assert(self.board().in_range(self.player_room_ids@[p as int]));
            let sees = self.common.board.sight[room.0 as usize][self.doctor_room_id.0 as usize];
            if mv.player_id.0 != cur && sees {
                saw = true;
            }
            let ghost before = self.player_room_ids@;
            self.player_room_ids.set(p, mv.dest_room_id);
            proof {
                assert(moves@.subrange(0, k as int + 1).drop_last() =~= moves@.subrange(0, k as int));
                assert(moves@.subrange(0, k as int + 1).last() == mv);
                assert(self.player_room_ids@ =~= before.update(p as int, mv.dest_room_id));
                assert forall|q: int| 0 <= q < self.n() implies self.board().room_ids@.contains(#[trigger] self.player_room_ids@[q]) by {
                    if q != p {
                        assert(self.player_room_ids@[q] == before[q]);
                    }
                }
            }
            k = k + 1;
        }
        assert(moves@.subrange(0, moves@.len() as int) =~= moves@);
        saw
    }
}

proof fn lemma_id_in_range(b: Board, r: RoomId)
    requires
        b.wf(),
        b.room_ids@.contains(r),
    ensures
        b.in_range(r),
{
    let k = choose|k: int| 0 <= k < b.room_ids@.len() && b.room_ids@[k] == r;
    assert(0 <= b.room_ids@[k].0 < b.dim());
}

proof fn lemma_dist_bounds(b: Board, x: RoomId, y: RoomId)
    requires
        b.wf(),
        b.in_range(x),
        b.in_range(y),
    ensures
        0 <= b.spec_dist(x, y) <= 999,
{
    assert(crate::distance::supported_at(b.adjacency@, b.distance@, b.dim(), x.0 as int, y.0 as int));
}

impl MutableGameState {
    proof fn lemma_slack(&self)
        requires
            self.wf(),
            self.turn_id < TURN_LIMIT,
        ensures
            self.wf_with(1),
    {
        assert forall|p: int| 0 <= p < self.n() implies 0 <= #[trigger] self.player_move_cards@[p] <= card_cap(self.turn_id as int + 1) by {}
        assert forall|p: int| 0 <= p < self.n() implies 0 <= #[trigger] self.player_weapons@[p] <= card_cap(self.turn_id as int + 1) by {}
        assert forall|p: int| 0 <= p < self.n() implies 0 <= #[trigger] self.player_failures@[p] <= card_cap(self.turn_id as int + 1) by {}
    }

    /// The current player loots.
    fn loot(&mut self)
        requires
            old(self).wf(),
            old(self).turn_id < TURN_LIMIT,
        ensures
            final(self).model() == spec_loot(old(self).model()),
            final(self).wf_with(1),
            final(self).common == old(self).common,
    {
        let cur = self.current_player_id.0 as usize;
        let m = self.player_move_cards[cur] + MOVE_CARDS_PER_LOOT;
        let w = self.player_weapons[cur] + WEAPONS_PER_LOOT;
        let f = self.player_failures[cur] + FAILURES_PER_LOOT;
        self.player_move_cards.set(cur, m);
        self.player_weapons.set(cur, w);
        self.player_failures.set(cur, f);
        proof {
            let m0 = old(self).model();
            assert(self.player_move_cards@ =~= m0.moves.update(cur as int, (m0.moves[cur as int] + MOVE_CARDS_PER_LOOT) as i64));
            assert(self.player_weapons@ =~= m0.weapons.update(cur as int, (m0.weapons[cur as int] + WEAPONS_PER_LOOT) as i64));
            assert(self.player_failures@ =~= m0.failures.update(cur as int, (m0.failures[cur as int] + FAILURES_PER_LOOT) as i64));
            assert forall|p: int| 0 <= p < self.n() implies 0 <= #[trigger] self.player_move_cards@[p] <= card_cap(self.turn_id as int + 1) by {
                assert(0 <= old(self).player_move_cards@[p] <= card_cap(self.turn_id as int));
            }
            assert forall|p: int| 0 <= p < self.n() implies 0 <= #[trigger] self.player_weapons@[p] <= card_cap(self.turn_id as int + 1) by {
                assert(0 <= old(self).player_weapons@[p] <= card_cap(self.turn_id as int));
            }
            assert forall|p: int| 0 <= p < self.n() implies 0 <= #[trigger] self.player_failures@[p] <= card_cap(self.turn_id as int + 1) by {
                assert(0 <= old(self).player_failures@[p] <= card_cap(self.turn_id as int));
            }
        }
    }

    /// The doctor phase unless someone won, then the next turn id.
    fn end_turn(&mut self)
        requires
            old(self).wf_with(1),
        ensures
            final(self).model() == spec_end_turn(old(self).board(), old(self).n(), old(self).model()),
            final(self).wf(),
            final(self).common == old(self).common,
            final(self).turn_id == old(self).turn_id + 1,
    {
        if !self.has_winner() {
            self.do_doctor_phase();
        }
        self.turn_id = self.turn_id + 1;
    }

    /// An attack by the current player; the current player's side wins when it
    /// succeeds.
    fn attack_and_settle(&mut self, stranger_side_wins: bool) -> (won: bool)
        requires
            old(self).wf(),
            old(self).turn_id < TURN_LIMIT,
        ensures
            final(self).wf_with(1),
            final(self).common == old(self).common,
            ({
                let (w, ma) = spec_attack(*old(self).common, old(self).model());
                let side = if stranger_side_wins {
                    spec_to_normal_player_id(old(self).current_player_id.0 as int, old(self).common.num_normal_players as int)
                } else {
                    old(self).current_player_id.0 as int
                };
                won == w && final(self).model() == (if w { GameModel { current: side, winner: side, ..ma } } else { ma })
            }),
    {
        proof { self.lemma_capped(0); }
        let won = self.process_attack();
        if won {
            let side = if stranger_side_wins {
                self.common.to_normal_player_id(self.current_player_id)
            } else {
                self.current_player_id
            };
            assert(0 <= side.0 < self.n());
            self.current_player_id = side;
            self.winner = side;
        }
        proof {
            assert forall|p: int| 0 <= p < self.n() implies 0 <= #[trigger] self.player_strengths@[p] <= self.turn_id as int + 1 by {
                assert(0 <= old(self).player_strengths@[p] <= self.turn_id as int);
            }
            assert forall|p: int| 0 <= p < self.n() implies 0 <= #[trigger] self.player_move_cards@[p] <= card_cap(self.turn_id as int + 1) by {
                assert(0 <= old(self).player_move_cards@[p] <= card_cap(self.turn_id as int));
            }
            assert forall|p: int| 0 <= p < self.n() implies 0 <= #[trigger] self.player_weapons@[p] <= card_cap(self.turn_id as int + 1) by {
                assert(0 <= old(self).player_weapons@[p] <= card_cap(self.turn_id as int));
            }
            assert forall|p: int| 0 <= p < self.n() implies 0 <= #[trigger] self.player_failures@[p] <= card_cap(self.turn_id as int + 1) by {
                assert(0 <= old(self).player_failures@[p] <= card_cap(self.turn_id as int));
            }
        }
        won
    }
}

impl MutableGameState {
    /// A stranger's forced turn.
    fn after_stranger_turn(&mut self)
        requires
            old(self).wf(),
            old(self).turn_id < TURN_LIMIT,
        ensures
            final(self).wf(),
            final(self).common == old(self).common,
            final(self).model() == spec_stranger_turn(*old(self).common, old(self).model()),
            final(self).turn_id == old(self).turn_id + 1,
    {
        let a = self.best_action_allowed(false);
        let cur = self.current_player_id.0 as usize;
        let room = self.player_room_ids[cur];
        let board = &self.common.board;
        proof { lemma_ascending_fits(board.room_ids@, board.dim()); }
        let new_room = if a == PlayerAction::Attack {
            room
        } else {
            Board::next_room_id(room, -1, board.room_ids.as_slice())
        };
        proof {
            let ids = board.room_ids@;
            let i = index_of(ids, room);
            assert(ids.contains(room));
            assert(0 <= i < ids.len() && ids[i] == room);
            vstd::arithmetic::div_mod::lemma_mod_bound(i - 1, ids.len() as int);
            assert(ids.contains(ids[(i - 1) % (ids.len() as int)]));
        }
        let ghost before = self.player_room_ids@;
        self.player_room_ids.set(cur, new_room);
        proof {
            assert forall|q: int| 0 <= q < self.n() implies self.board().room_ids@.contains(#[trigger] self.player_room_ids@[q]) by {
                if q != cur {
                    assert(self.player_room_ids@[q] == before[q]);
                }
            }
            assert(self.model() == (GameModel { rooms: old(self).model().rooms.update(cur as int, new_room), ..old(self).model() }));
        }
        let a2 = if a != PlayerAction::Attack { self.best_action_allowed(false) } else { a };
        if a2 == PlayerAction::Attack {
            self.attack_and_settle(true);
        } else {
            proof { self.lemma_slack(); }
        }
        self.end_turn();
    }

    /// Stranger turns, one after another, while a stranger is to move.
    fn forced_turns(&mut self)
        requires
            old(self).wf(),
            old(self).turn_id + MAX_FORCED_SUBTURNS <= TURN_LIMIT,
        ensures
            final(self).wf(),
            final(self).common == old(self).common,
            final(self).model() == spec_forced_turns(*old(self).common, old(self).model(), MAX_FORCED_SUBTURNS as int),
            final(self).turn_id <= old(self).turn_id + MAX_FORCED_SUBTURNS,
            final(self).turn_id >= old(self).turn_id,
            final(self).spec_has_winner() || final(self).spec_is_normal_turn()
                || final(self).turn_id == old(self).turn_id + MAX_FORCED_SUBTURNS,
    {
        let mut fuel: i32 = MAX_FORCED_SUBTURNS;
        while fuel > 0 && !self.has_winner() && !self.is_normal_turn()
            invariant
                self.wf(),
                self.common == old(self).common,
                0 <= fuel <= MAX_FORCED_SUBTURNS,
                self.turn_id + fuel == old(self).turn_id + MAX_FORCED_SUBTURNS,
                old(self).turn_id + MAX_FORCED_SUBTURNS <= TURN_LIMIT,
                spec_forced_turns(*self.common, self.model(), fuel as int)
                    == spec_forced_turns(*old(self).common, old(self).model(), MAX_FORCED_SUBTURNS as int),
            decreases fuel,
        {
            self.after_stranger_turn();
            fuel = fuel - 1;
        }
    }

    /// Applies a legal turn of the current player, then any stranger turns it
    /// forces.
    pub fn after_normal_turn(&mut self, turn: SimpleTurn)
        requires
            old(self).wf(),
            spec_turn_legal(*old(self).common, old(self).model(), turn.moves@),
            old(self).turn_id + MAX_FORCED_SUBTURNS < TURN_LIMIT,
        ensures
            final(self).wf(),
            final(self).common == old(self).common,
            final(self).model() == spec_after_turn(*old(self).common, old(self).model(), turn.moves@),
            final(self).turn_id <= old(self).turn_id + 1 + MAX_FORCED_SUBTURNS,
            final(self).turn_id >= old(self).turn_id + 1,
            final(self).spec_has_winner() || final(self).spec_is_normal_turn()
                || final(self).turn_id == old(self).turn_id + 1 + MAX_FORCED_SUBTURNS,
    {
        let total = self.total_distance(&turn.moves);
        let used: i64 = if total - 1 > 0 { (total - 1) * CARD_UNIT } else { 0 };
        let cur = self.current_player_id.0 as usize;
        let mc = self.player_move_cards[cur] - used;
        let ghost before = self.player_move_cards@;
        self.player_move_cards.set(cur, mc);
        proof {
            assert forall|p: int| 0 <= p < self.n() implies 0 <= #[trigger] self.player_move_cards@[p] <= card_cap(self.turn_id as int) by {
                if p != cur {
                    assert(self.player_move_cards@[p] == before[p]);
                }
            }
        }
        let saw = self.move_all(&turn.moves);
        self.prev_turn = turn;
        let ghost m1 = self.model();
        let action = self.best_action_allowed(saw);
        if action == PlayerAction::Attack {
            self.attack_and_settle(false);
        } else if action == PlayerAction::Loot {
            self.loot();
        } else {
            proof { self.lemma_slack(); }
        }
        self.end_turn();
        proof {
            let m0 = old(self).model();
            assert(m1.moves =~= m0.moves.update(cur as int, (m0.moves[cur as int] - cards_used(total_dist(old(self).board(), m0.rooms, turn.moves@))) as i64));
        }
        self.forced_turns();
    }
}

impl MutableGameState {
    /// Ok exactly when the turn is legal for the current state; otherwise the
    /// first problem found.
    pub fn check_normal_turn(&self, turn: &SimpleTurn) -> (r: Result<(), String>)
        requires
            self.wf(),
        ensures
            r is Ok <==> spec_turn_legal(*self.common, self.model(), turn.moves@),
    {
        let n = self.common.num_all_players;
        if turn.moves.len() > MAX_TURN_MOVES {
            return Err(String::from_str("a turn moves one or two pieces"));
        }
        let mut k: usize = 0;
        while k < turn.moves.len()
            invariant
                self.wf(),
                n == self.n(),
                k <= turn.moves@.len(),
                forall|j: int| 0 <= j < k ==> 0 <= #[trigger] turn.moves@[j].player_id.0 < n,
                forall|j: int| 0 <= j < k ==> self.board().room_ids@.contains(#[trigger] turn.moves@[j].dest_room_id),
            decreases turn.moves.len() - k,
        {
            let mv = turn.moves[k];
            if mv.player_id.0 < 0 || mv.player_id.0 as usize >= n {
                let mut text = String::from_str("invalid playerId ");
                crate::text::push_int(&mut text, mv.player_id.0 as i64);
                return Err(text);
            }
            if !crate::room::contains_room_id(self.common.board.room_ids.as_slice(), mv.dest_room_id) {
                let mut text = String::from_str("invalid roomId ");
                crate::text::push_int(&mut text, mv.dest_room_id.0 as i64);
                return Err(text);
            }
            k = k + 1;
        }
        let total = self.total_distance(&turn.moves);
        let used: i64 = if total - 1 > 0 { (total - 1) * CARD_UNIT } else { 0 };
        let cur = self.current_player_id;
        if self.player_move_cards[cur.0 as usize] < used {
            let mut text = self.common.player_text(cur);
            text.append(" used too many move points (");
            crate::text::push_int(&mut text, total);
            text.append(")");
            return Err(text);
        }
        let mut k: usize = 0;
        while k < turn.moves.len()
            invariant
                self.wf(),
                cur == self.current_player_id,
                k <= turn.moves@.len(),
                forall|j: int| 0 <= j < k ==> (#[trigger] turn.moves@[j].player_id.0 == cur.0
                    || spec_player_type(self.common.spec_has_strangers(), turn.moves@[j].player_id.0 as int) == PlayerType::Stranger),
            decreases turn.moves.len() - k,
        {
            let mv = turn.moves[k];
            if mv.player_id.0 != cur.0 && self.common.get_player_type(mv.player_id) != PlayerType::Stranger {
                let mut text = self.common.player_text(cur);
                text.append(" tried to move a piece that is not a stranger");
                return Err(text);
            }
            k = k + 1;
        }
        Ok(())
    }
}

/// Turn notation values of a list of turns.
pub open spec fn turns_view(turns: Seq<SimpleTurn>) -> Seq<Seq<PlayerMove>> {
    turns.map_values(|t: SimpleTurn| t.moves@)
}

/// One-move turns of player `p` to every room within `allowed`, among the first
/// `k` room ids.
pub open spec fn singles_upto(b: Board, from: RoomId, p: int, allowed: int, k: int) -> Seq<Seq<PlayerMove>>
    decreases k,
{
    if k <= 0 {
        Seq::empty()
    } else {
        let rest = singles_upto(b, from, p, allowed, k - 1);
        let d = b.room_ids@[k - 1];
        if b.spec_dist(from, d) <= allowed {
            rest.push(seq![PlayerMove { player_id: PlayerId(p as i32), dest_room_id: d }])
        } else {
            rest
        }
    }
}

/// Two-move turns with `a` going to room `da` and `bp` to each of the first
/// `k` room ids within what `a` left of `allowed`.
pub open spec fn duals_inner(b: Board, from_a: RoomId, from_b: RoomId, a: int, bp: int, da: RoomId, remaining: int, k: int) -> Seq<Seq<PlayerMove>>
    decreases k,
{
    if k <= 0 {
        Seq::empty()
    } else {
        let rest = duals_inner(b, from_a, from_b, a, bp, da, remaining, k - 1);
        let db = b.room_ids@[k - 1];
        if b.spec_dist(from_b, db) > remaining || from_b == db {
            rest
        } else {
            rest.push(seq![PlayerMove { player_id: PlayerId(a as i32), dest_room_id: da },
                PlayerMove { player_id: PlayerId(bp as i32), dest_room_id: db }])
        }
    }
}

/// Two-move turns of `a` and `bp` whose summed distance is within `allowed`,
/// both pieces actually moving, with `a` going to one of the first `k` room ids.
pub open spec fn duals_upto(b: Board, from_a: RoomId, from_b: RoomId, a: int, bp: int, allowed: int, k: int) -> Seq<Seq<PlayerMove>>
    decreases k,
{
    if k <= 0 {
        Seq::empty()
    } else {
        let rest = duals_upto(b, from_a, from_b, a, bp, allowed, k - 1);
        let da = b.room_ids@[k - 1];
        let remaining = allowed - b.spec_dist(from_a, da);
        if remaining <= 0 || from_a == da {
            rest
        } else {
            rest + duals_inner(b, from_a, from_b, a, bp, da, remaining, b.room_ids@.len() as int)
        }
    }
}

pub open spec fn spec_singles(b: Board, m: GameModel, p: int, allowed: int) -> Seq<Seq<PlayerMove>> {
    singles_upto(b, m.rooms[p], p, allowed, b.room_ids@.len() as int)
}

pub open spec fn spec_duals(b: Board, m: GameModel, a: int, bp: int, allowed: int) -> Seq<Seq<PlayerMove>> {
    duals_upto(b, m.rooms[a], m.rooms[bp], a, bp, allowed, b.room_ids@.len() as int)
}

/// Every turn the current side can take, in enumeration order.
pub open spec fn spec_possible_turns(common: CommonGameState, m: GameModel) -> Seq<Seq<PlayerMove>> {
    let b = common.board;
    let cur = m.current;
    let allowed = (m.moves[cur] as int) / (CARD_UNIT as int) + 1;
    if m.winner != INVALID_PLAYER_ID {
        Seq::empty()
    } else if common.spec_has_strangers() {
        let ally = spec_allied_stranger(cur);
        let opp = spec_opposing_stranger(cur);
        let base = spec_singles(b, m, cur, allowed) + spec_singles(b, m, ally, allowed) + spec_singles(b, m, opp, allowed);
        if m.moves[cur] > 0 {
            base + spec_duals(b, m, cur, ally, allowed) + spec_duals(b, m, cur, opp, allowed) + spec_duals(b, m, ally, opp, allowed)
        } else {
            base
        }
    } else {
        spec_singles(b, m, cur, allowed)
    }
}

proof fn lemma_turns_view_push(turns: Seq<SimpleTurn>, t: SimpleTurn)
    ensures
        turns_view(turns.push(t)) == turns_view(turns).push(t.moves@),
{
    assert(turns_view(turns.push(t)) =~= turns_view(turns).push(t.moves@));
}

impl MutableGameState {
    /// Appends the one-move turns of player `p`.
    fn possible_turns_single(&self, dist_allowed: i64, p: usize, turns: &mut Vec<SimpleTurn>)
        requires
            self.wf(),
            p < self.n(),
        ensures
            turns_view(final(turns)@) == turns_view(old(turns)@) + spec_singles(self.board(), self.model(), p as int, dist_allowed as int),
    {
        proof { self.lemma_rooms_in_range(); }
        let board = &self.common.board;
        let from = self.player_room_ids[p];
        assert(board.in_range(self.player_room_ids@[p as int]));
        let mut k: usize = 0;
        while k < board.room_ids.len()
            invariant
                self.wf(),
                board == self.common.board,
                board.in_range(from),
                from == self.player_room_ids@[p as int],
                p < self.n(),
                k <= board.room_ids@.len(),
                turns_view(turns@) == turns_view(old(turns)@) + singles_upto(*board, from, p as int, dist_allowed as int, k as int),
            decreases board.room_ids.len() - k,
        {
            let dest = board.room_ids[k];
            assert(board.in_range(board.room_ids@[k as int]));
            if board.distance[from.0 as usize][dest.0 as usize] as i64 <= dist_allowed {
                let t = SimpleTurn::single(PlayerId(p as i32), dest);
                proof { lemma_turns_view_push(turns@, t); }
                turns.push(t);
                proof {
                    assert(turns_view(old(turns)@) + singles_upto(*board, from, p as int, dist_allowed as int, k as int + 1)
                        =~= (turns_view(old(turns)@) + singles_upto(*board, from, p as int, dist_allowed as int, k as int)).push(t.moves@));
                }
            }
            k = k + 1;
        }
    }

    /// Appends the two-move turns of `a` and `b`.
    fn possible_turns_dual(&self, dist_allowed: i64, a: usize, b: usize, turns: &mut Vec<SimpleTurn>)
        requires
            self.wf(),
            a < self.n(),
            b < self.n(),
            0 <= dist_allowed <= AMOUNT_CAP,
        ensures
            turns_view(final(turns)@) == turns_view(old(turns)@) + spec_duals(self.board(), self.model(), a as int, b as int, dist_allowed as int),
    {
        proof { self.lemma_rooms_in_range(); }
        let board = &self.common.board;
        let src_a = self.player_room_ids[a];
        let src_b = self.player_room_ids[b];
        assert(board.in_range(self.player_room_ids@[a as int]));
        assert(board.in_range(self.player_room_ids@[b as int]));
        let n = board.room_ids.len();
        let mut ka: usize = 0;
        while ka < n
            invariant
                self.wf(),
                board == self.common.board,
                n == board.room_ids@.len(),
                board.in_range(src_a),
                board.in_range(src_b),
                src_a == self.player_room_ids@[a as int],
                src_b == self.player_room_ids@[b as int],
                0 <= dist_allowed <= AMOUNT_CAP,
                ka <= n,
                turns_view(turns@) == turns_view(old(turns)@) + duals_upto(*board, src_a, src_b, a as int, b as int, dist_allowed as int, ka as int),
            decreases n - ka,
        {
            let dst_a = board.room_ids[ka];
            assert(board.in_range(board.room_ids@[ka as int]));
            proof { lemma_dist_bounds(*board, src_a, dst_a); }
            let remaining = dist_allowed - board.distance[src_a.0 as usize][dst_a.0 as usize] as i64;
            let ghost start = turns_view(turns@);
            if remaining > 0 && src_a != dst_a {
                let move_a = PlayerMove::new(PlayerId(a as i32), dst_a);
                let mut kb: usize = 0;
                while kb < n
                    invariant
                        self.wf(),
                        board == self.common.board,
                        n == board.room_ids@.len(),
                        board.in_range(src_b),
                        move_a == (PlayerMove { player_id: PlayerId(a as i32), dest_room_id: dst_a }),
                        kb <= n,
                        turns_view(turns@) == start + duals_inner(*board, src_a, src_b, a as int, b as int, dst_a, remaining as int, kb as int),
                    decreases n - kb,
                {
                    let dst_b = board.room_ids[kb];
                    assert(board.in_range(board.room_ids@[kb as int]));
                    if !(board.distance[src_b.0 as usize][dst_b.0 as usize] as i64 > remaining || src_b == dst_b) {
                        let move_b = PlayerMove::new(PlayerId(b as i32), dst_b);
                        let t = SimpleTurn::new(vec![move_a, move_b]);
                        proof { lemma_turns_view_push(turns@, t); }
                        turns.push(t);
                        proof {
                            assert(t.moves@ =~= seq![move_a, move_b]);
                            assert(start + duals_inner(*board, src_a, src_b, a as int, b as int, dst_a, remaining as int, kb as int + 1)
                                =~= (start + duals_inner(*board, src_a, src_b, a as int, b as int, dst_a, remaining as int, kb as int)).push(t.moves@));
                        }
                    }
                    kb = kb + 1;
                }
                proof {
                    assert(turns_view(old(turns)@) + duals_upto(*board, src_a, src_b, a as int, b as int, dist_allowed as int, ka as int + 1)
                        =~= turns_view(old(turns)@) + duals_upto(*board, src_a, src_b, a as int, b as int, dist_allowed as int, ka as int)
                            + duals_inner(*board, src_a, src_b, a as int, b as int, dst_a, remaining as int, n as int));
                }
            }
            ka = ka + 1;
        }
    }

    /// Every turn the side to move can take: the current player alone, each
    /// stranger alone, and, with move cards left, every pair of two of them.
    pub fn possible_turns(&self) -> (r: Vec<SimpleTurn>)
        requires
            self.wf(),
        ensures
            turns_view(r@) == spec_possible_turns(*self.common, self.model()),
            self.spec_is_normal_turn() ==> no_duplicates(turns_view(r@)),
    {
        proof {
            if self.spec_is_normal_turn() {
                self.lemma_possible_turns_distinct();
            }
        }
        let mut turns: Vec<SimpleTurn> = Vec::new();
        if self.has_winner() {
            assert(turns_view(turns@) =~= Seq::<Seq<PlayerMove>>::empty());
            return turns;
        }
        let cur = self.current_player_id;
        let mc = self.player_move_cards[cur.0 as usize];
        let dist_allowed = mc / CARD_UNIT + 1;
        proof { assert(turns_view(turns@) =~= Seq::<Seq<PlayerMove>>::empty()); }
        self.possible_turns_single(dist_allowed, cur.0 as usize, &mut turns);
        if self.common.has_strangers() {
            let ally = allied_stranger(cur);
            let opp = opposing_stranger(cur);
            assert(0 <= ally.0 < 4 && 0 <= opp.0 < 4);
            self.possible_turns_single(dist_allowed, ally.0 as usize, &mut turns);
            self.possible_turns_single(dist_allowed, opp.0 as usize, &mut turns);
            if mc > 0 {
                self.possible_turns_dual(dist_allowed, cur.0 as usize, ally.0 as usize, &mut turns);
                self.possible_turns_dual(dist_allowed, cur.0 as usize, opp.0 as usize, &mut turns);
                self.possible_turns_dual(dist_allowed, ally.0 as usize, opp.0 as usize, &mut turns);
            }
        }
        proof {
            let m = self.model();
            let b = self.board();
            let allowed = (m.moves[m.current] as int) / (CARD_UNIT as int) + 1;
            assert(allowed == dist_allowed as int);
            assert(Seq::<Seq<PlayerMove>>::empty() + spec_singles(b, m, m.current, allowed) =~= spec_singles(b, m, m.current, allowed));
        }
        turns
    }
}

/// Scores are fixed-point numbers: one strength point is worth this many units.
pub const SCORE_PER_STRENGTH: i64 = 76800;
/// Half a strength point per move card, per strength point: 4 units per card unit.
pub const SCORE_PER_STRENGTH_MOVE_UNIT: i64 = 4;
/// The side to move gains 0.475 strength points per strength point.
pub const SCORE_TURN_BONUS_PER_STRENGTH: i64 = 36480;
pub const SCORE_PER_WEAPON_UNIT: i64 = 4;
pub const SCORE_PER_FAILURE_UNIT: i64 = 1;
/// A certainty of reaching the doctor now, in decay units. Chosen so that one
/// decay unit per strength point is one score unit.
pub const DECAY_ONE: i64 = 34560;
/// `DECAY_ONE / 0.9`: the normal decay one step before now.
pub const DECAY_NORMAL_BEFORE: i64 = 38400;
/// `DECAY_ONE / 0.5`: the stranger decay one step before now.
pub const DECAY_STRANGER_BEFORE: i64 = 69120;
/// Doctor distance of a player who cannot reach the doctor on this round.
pub const FAR_AWAY: i64 = 999;

/// Decay of a normal player's chance, by a factor 0.9 per doctor step.
pub open spec fn decay_normal(k: int) -> int
    decreases k,
{
    if k < 0 { DECAY_NORMAL_BEFORE as int } else if k == 0 { DECAY_ONE as int } else { decay_normal(k - 1) * 9 / 10 }
}

/// Decay of a stranger's chance, by a factor 0.5 per doctor step.
pub open spec fn decay_stranger(k: int) -> int
    decreases k,
{
    if k < 0 { DECAY_STRANGER_BEFORE as int } else if k == 0 { DECAY_ONE as int } else { decay_stranger(k - 1) / 2 }
}

/// The doctor's room, then every room in the order the doctor will reach
/// them from its room after the players who have not moved yet this round.
pub open spec fn spec_doctor_rooms(b: Board, m: GameModel, n: int) -> Seq<RoomId> {
    let ids = b.room_ids@;
    let not_had = n - m.turn_id;
    let delta = if not_had + 1 > 1 { not_had + 1 } else { 1 };
    let next = ring(ids, index_of(ids, m.doctor), delta);
    seq![m.doctor] + Seq::new(ids.len(), |i: int| ring(ids, index_of(ids, next), i))
}

/// First position at or after `i` that holds `target`, or -1.
pub open spec fn find_from(rooms: Seq<RoomId>, target: RoomId, i: int) -> int
    decreases rooms.len() - i,
{
    if i >= rooms.len() || i < 0 {
        -1
    } else if rooms[i] == target {
        i
    } else {
        find_from(rooms, target, i + 1)
    }
}

/// First position at or after `i` where the player in `room` meets the doctor
/// or stands next to its room (never at position 0), or `FAR_AWAY`.
pub open spec fn meet_from(b: Board, rooms: Seq<RoomId>, room: RoomId, i: int) -> int
    decreases rooms.len() - i,
{
    if i >= rooms.len() || i < 0 {
        FAR_AWAY as int
    } else if rooms[i] == room || (i > 0 && b.spec_dist(room, rooms[i]) <= 1) {
        i
    } else {
        meet_from(b, rooms, room, i + 1)
    }
}

/// How much closer to the doctor's future path one side stands than the other.
pub open spec fn spec_doctor_score(b: Board, m: GameModel, n: int, my_room: RoomId, ally_room: RoomId, enemy_room: RoomId, enemy_ally_room: RoomId) -> int {
    let rooms = spec_doctor_rooms(b, m, n);
    let start = if n - m.turn_id > 0 { 1int } else { 0int };
    decay_normal(meet_from(b, rooms, my_room, start))
        + decay_stranger(find_from(rooms, ally_room, 1))
        - decay_normal(find_from(rooms, enemy_room, 1))
        - decay_stranger(find_from(rooms, enemy_ally_room, 1))
}

/// Score of player `p`'s holdings with the side's `strength`.
pub open spec fn spec_misc_score(m: GameModel, p: int, strength: int, is_turn: bool, advantage: int) -> int {
    SCORE_PER_STRENGTH * strength
        + SCORE_PER_STRENGTH_MOVE_UNIT * (strength * m.moves[p])
        + (if is_turn { SCORE_TURN_BONUS_PER_STRENGTH * strength } else { 0 })
        + strength * advantage
        + SCORE_PER_WEAPON_UNIT * m.weapons[p]
        + SCORE_PER_FAILURE_UNIT * m.failures[p]
}

/// Sum of the scores of the players below `k` other than `a`.
pub open spec fn others_score(m: GameModel, a: int, k: int) -> int
    decreases k,
{
    if k <= 0 {
        0
    } else {
        let p = k - 1;
        others_score(m, a, k - 1) + if p == a { 0 } else { spec_misc_score(m, p, m.strengths[p] as int, p == m.current, 0) }
    }
}

/// Appraisal of the state from the side of `a`.
pub open spec fn spec_heuristic(common: CommonGameState, m: GameModel, a: int) -> int {
    let nn = common.num_normal_players as int;
    let n = common.num_all_players as int;
    if m.winner != INVALID_PLAYER_ID {
        if a == spec_to_normal_player_id(m.winner, nn) { HEURISTIC_SCORE_WIN as int } else { HEURISTIC_SCORE_LOSS as int }
    } else if common.spec_has_strangers() {
        let ally = spec_allied_stranger(a);
        let opp = spec_opposing_normal_player(a);
        let opp_ally = spec_allied_stranger(opp);
        let allied_strength = m.strengths[a] + m.strengths[ally];
        let opp_strength = m.strengths[opp] + m.strengths[opp_ally];
        let mine = a == m.current;
        let adv = if mine {
            spec_doctor_score(common.board, m, n, m.rooms[a], m.rooms[ally], m.rooms[opp], m.rooms[opp_ally])
        } else {
            -spec_doctor_score(common.board, m, n, m.rooms[opp], m.rooms[opp_ally], m.rooms[a], m.rooms[ally])
        };
        spec_misc_score(m, a, allied_strength, mine, adv) - spec_misc_score(m, opp, opp_strength, !mine, -adv)
    } else {
        let own = spec_misc_score(m, a, m.strengths[a] as int, a == m.current, 0);
        if nn <= 1 { own } else { (nn - 1) * own - others_score(m, a, n) }
    }
}

fn decay_normal_exec(k: i64) -> (r: i64)
    requires
        -1 <= k <= MAX_DIM_ROOMS,
    ensures
        r as int == decay_normal(k as int),
        0 <= r <= DECAY_NORMAL_BEFORE,
{
    if k < 0 {
        return DECAY_NORMAL_BEFORE;
    }
    let mut v: i64 = DECAY_ONE;
    let mut i: i64 = 0;
    while i < k && v > 0
        invariant
            0 <= i <= k,
            v as int == decay_normal(i as int),
            0 <= v <= DECAY_ONE,
        decreases k - i,
    {
        v = v * 9 / 10;
        i = i + 1;
    }
    proof { lemma_decay_normal_zero(i as int, k as int); }
    v
}

proof fn lemma_decay_normal_zero(i: int, k: int)
    requires
        0 <= i <= k,
        i == k || decay_normal(i) == 0,
    ensures
        decay_normal(k) == decay_normal(i),
    decreases k - i,
{
    if i < k {
        lemma_decay_normal_zero(i + 1, k);
    }
}

fn decay_stranger_exec(k: i64) -> (r: i64)
    requires
        -1 <= k <= MAX_DIM_ROOMS,
    ensures
        r as int == decay_stranger(k as int),
        0 <= r <= DECAY_STRANGER_BEFORE,
{
    if k < 0 {
        return DECAY_STRANGER_BEFORE;
    }
    let mut v: i64 = DECAY_ONE;
    let mut i: i64 = 0;
    while i < k && v > 0
        invariant
            0 <= i <= k,
            v as int == decay_stranger(i as int),
            0 <= v <= DECAY_ONE,
        decreases k - i,
    {
        v = v / 2;
        i = i + 1;
    }
    proof { lemma_decay_stranger_zero(i as int, k as int); }
    v
}

proof fn lemma_decay_stranger_zero(i: int, k: int)
    requires
        0 <= i <= k,
        i == k || decay_stranger(i) == 0,
    ensures
        decay_stranger(k) == decay_stranger(i),
    decreases k - i,
{
    if i < k {
        lemma_decay_stranger_zero(i + 1, k);
    }
}

fn find_index_from(rooms: &Vec<RoomId>, target: RoomId, start: usize) -> (r: i64)
    requires
        rooms@.len() <= MAX_DIM_ROOMS,
    ensures
        r as int == find_from(rooms@, target, start as int),
        -1 <= r < MAX_DIM_ROOMS,
{
    let mut i = start;
    while i < rooms.len()
        invariant
            rooms@.len() <= MAX_DIM_ROOMS,
            start <= i,
            find_from(rooms@, target, i as int) == find_from(rooms@, target, start as int),
        decreases rooms.len() - i,
    {
        if rooms[i] == target {
            return i as i64;
        }
        i = i + 1;
    }
    -1
}

/// Longest list of doctor rooms: every room, plus the doctor's own.
pub const MAX_DIM_ROOMS: usize = 4097;

/// Bound on the magnitude of one side's score.
pub const MISC_BOUND: i64 = 30000000000000000;
/// Bound on the magnitude of a doctor score.
pub const ADVANTAGE_BOUND: i64 = 300000;

proof fn lemma_product_bound(s: int, m: int, bs: int, bm: int)
    requires
        0 <= s <= bs,
        0 <= m <= bm,
    ensures
        0 <= s * m <= bs * bm,
{
    assert(0 <= s * m <= bs * bm) by (nonlinear_arith)
        requires 0 <= s <= bs, 0 <= m <= bm;
}

proof fn lemma_signed_product_bound(s: int, a: int, bs: int, ba: int)
    requires
        0 <= s <= bs,
        -ba <= a <= ba,
    ensures
        -(bs * ba) <= s * a <= bs * ba,
{
    assert(-(bs * ba) <= s * a <= bs * ba) by (nonlinear_arith)
        requires 0 <= s <= bs, -ba <= a <= ba;
}

impl MutableGameState {
    fn misc_score(&self, p: usize, strength: i64, is_turn: bool, advantage: i64) -> (r: i64)
        requires
            self.wf(),
            p < self.n(),
            0 <= strength <= 2 * TURN_LIMIT,
            -ADVANTAGE_BOUND <= advantage <= ADVANTAGE_BOUND,
        ensures
            r as int == spec_misc_score(self.model(), p as int, strength as int, is_turn, advantage as int),
            -MISC_BOUND <= r <= MISC_BOUND,
    {
        let mc = self.player_move_cards[p];
        let w = self.player_weapons[p];
        let f = self.player_failures[p];
        proof {
            assert(card_cap(self.turn_id as int) <= card_cap(TURN_LIMIT as int));
            assert(card_cap(TURN_LIMIT as int) == 3300038400);
            lemma_product_bound(strength as int, mc as int, 2000000, 3300038400);
            assert(2000000 * 3300038400 == 6600076800000000int);
            lemma_signed_product_bound(strength as int, advantage as int, 2000000, 300000);
            assert(2000000 * 300000 == 600000000000int);
        }
        let turn_bonus: i64 = if is_turn { SCORE_TURN_BONUS_PER_STRENGTH * strength } else { 0 };
        SCORE_PER_STRENGTH * strength + SCORE_PER_STRENGTH_MOVE_UNIT * (strength * mc) + turn_bonus
            + strength * advantage + SCORE_PER_WEAPON_UNIT * w + SCORE_PER_FAILURE_UNIT * f
    }

    /// The doctor's room and the rooms it will reach, in order.
    fn doctor_rooms(&self) -> (r: Vec<RoomId>)
        requires
            self.wf(),
        ensures
            r@ == spec_doctor_rooms(self.board(), self.model(), self.n()),
            r@.len() <= MAX_DIM_ROOMS,
    {
        let board = &self.common.board;
        proof { lemma_ascending_fits(board.room_ids@, board.dim()); }
        let not_had = self.common.num_all_players as i64 - self.turn_id as i64;
        let delta: i64 = if not_had + 1 > 1 { not_had + 1 } else { 1 };
        let next = Board::next_room_id(self.doctor_room_id, delta as i32, board.room_ids.as_slice());
        proof {
            let ids = board.room_ids@;
            let i = index_of(ids, self.doctor_room_id);
            assert(0 <= i < ids.len() && ids[i] == self.doctor_room_id);
            vstd::arithmetic::div_mod::lemma_mod_bound(i + delta, ids.len() as int);
            assert(ids.contains(ids[(i + delta) % (ids.len() as int)]));
        }
        let order = board.room_ids_in_doctor_visit_order(next);
        let mut rooms: Vec<RoomId> = vec![self.doctor_room_id];
        let mut i: usize = 0;
        while i < order.len()
            invariant
                i <= order@.len(),
                rooms@ == seq![self.doctor_room_id] + order@.subrange(0, i as int),
            decreases order.len() - i,
        {
            rooms.push(order[i]);
            assert(rooms@ =~= seq![self.doctor_room_id] + order@.subrange(0, i as int + 1));
            i = i + 1;
        }
        proof {
            let ids = board.room_ids@;
            assert(order@.subrange(0, order@.len() as int) =~= order@);
            assert(order@ =~= Seq::new(ids.len(), |j: int| ring(ids, index_of(ids, next), j)));
        }
        rooms
    }

    /// How much closer to the doctor's coming path one side stands than the other.
    pub fn doctor_score_with_rooms(&self, my_room: RoomId, stranger_ally_room: RoomId, normal_enemy_room: RoomId, stranger_enemy_room: RoomId) -> (r: i64)
        requires
            self.wf(),
            self.board().room_ids@.contains(my_room),
        ensures
            r as int == spec_doctor_score(self.board(), self.model(), self.n(), my_room, stranger_ally_room, normal_enemy_room, stranger_enemy_room),
            -ADVANTAGE_BOUND <= r <= ADVANTAGE_BOUND,
    {
        let rooms = self.doctor_rooms();
        let board = &self.common.board;
        proof { lemma_id_in_range(*board, my_room); }
        let start: usize = if self.common.num_all_players as i64 - self.turn_id as i64 > 0 { 1 } else { 0 };
        let my_dist = self.meet_index(&rooms, my_room, start);

        let ally_dist = find_index_from(&rooms, stranger_ally_room, 1);
        let enemy_dist = find_index_from(&rooms, normal_enemy_room, 1);
        let enemy_ally_dist = find_index_from(&rooms, stranger_enemy_room, 1);
        decay_normal_exec(my_dist) + decay_stranger_exec(ally_dist) - decay_normal_exec(enemy_dist) - decay_stranger_exec(enemy_ally_dist)
    }

    proof fn lemma_doctor_rooms_in_range(&self, rooms: Seq<RoomId>, i: int)
        requires
            self.wf(),
            rooms == spec_doctor_rooms(self.board(), self.model(), self.n()),
            0 <= i < rooms.len(),
        ensures
            self.board().in_range(rooms[i]),
    {
        let ids = self.board().room_ids@;
        if i == 0 {
            lemma_id_in_range(self.board(), self.doctor_room_id);
        } else {
            let not_had = self.n() - self.turn_id;
            let delta = if not_had + 1 > 1 { not_had + 1 } else { 1 };
            let next = ring(ids, index_of(ids, self.doctor_room_id), delta);
            let k = index_of(ids, next);
            let j = (k + (i - 1)) % (ids.len() as int);
            vstd::arithmetic::div_mod::lemma_mod_bound(k + (i - 1), ids.len() as int);
            assert(rooms[i] == ids[j]);
            assert(0 <= ids[j].0 < self.board().dim());
        }
    }
}

impl MutableGameState {
    fn meet_index(&self, rooms: &Vec<RoomId>, my_room: RoomId, start: usize) -> (r: i64)
        requires
            self.wf(),
            self.board().in_range(my_room),
            rooms@ == spec_doctor_rooms(self.board(), self.model(), self.n()),
            rooms@.len() <= MAX_DIM_ROOMS,
        ensures
            r as int == meet_from(self.board(), rooms@, my_room, start as int),
            -1 <= r <= MAX_DIM_ROOMS,
    {
        let board = &self.common.board;
        let mut i = start;
        while i < rooms.len()
            invariant
                self.wf(),
                board == self.common.board,
                board.in_range(my_room),
                rooms@ == spec_doctor_rooms(self.board(), self.model(), self.n()),
                rooms@.len() <= MAX_DIM_ROOMS,
                start <= i,
                meet_from(*board, rooms@, my_room, i as int) == meet_from(*board, rooms@, my_room, start as int),
            decreases rooms.len() - i,
        {
            if rooms[i] == my_room {
                return i as i64;
            }
            proof { self.lemma_doctor_rooms_in_range(rooms@, i as int); }
            if i > 0 && board.distance[my_room.0 as usize][rooms[i].0 as usize] <= 1 {
                return i as i64;
            }
            i = i + 1;
        }
        FAR_AWAY
    }
}

impl MutableGameState {
    /// Appraisal of the state for the side of `analysis_player_id`: the
    /// sentinels once someone has won, else a weighted sum of strength, cards
    /// and closeness to the doctor's path, against the other side (or against
    /// the average of all other players when there are no strangers).
    pub fn heuristic_score(&self, analysis_player_id: PlayerId) -> (r: i64)
        requires
            self.wf(),
            0 <= analysis_player_id.0 < self.n(),
        ensures
            r as int == spec_heuristic(*self.common, self.model(), analysis_player_id.0 as int),
            HEURISTIC_SCORE_LOSS <= r <= HEURISTIC_SCORE_WIN,
    {
        let a = analysis_player_id;
        if self.has_winner() {
            let side = self.common.to_normal_player_id(self.winner);
            return if a.0 == side.0 { HEURISTIC_SCORE_WIN } else { HEURISTIC_SCORE_LOSS };
        }
        let cur = self.current_player_id;
        if self.common.has_strangers() {
            let ally = allied_stranger(a);
            let opp = opposing_normal_player(a);
            let opp_ally = allied_stranger(opp);
            let own_idx = a.0 as usize;
            let ally_idx = ally.0 as usize;
            let opp_idx = opp.0 as usize;
            let opp_ally_idx = opp_ally.0 as usize;
            let allied_strength = self.player_strengths[own_idx] as i64 + self.player_strengths[ally_idx] as i64;
            let opp_strength = self.player_strengths[opp_idx] as i64 + self.player_strengths[opp_ally_idx] as i64;
            let mine = a.0 == cur.0;
            let adv = if mine {
                self.doctor_score_with_rooms(self.player_room_ids[own_idx], self.player_room_ids[ally_idx], self.player_room_ids[opp_idx], self.player_room_ids[opp_ally_idx])
            } else {
                -self.doctor_score_with_rooms(self.player_room_ids[opp_idx], self.player_room_ids[opp_ally_idx], self.player_room_ids[own_idx], self.player_room_ids[ally_idx])
            };
            self.misc_score(own_idx, allied_strength, mine, adv) - self.misc_score(opp_idx, opp_strength, !mine, -adv)
        } else {
            let own_idx = a.0 as usize;
            let own = self.misc_score(own_idx, self.player_strengths[own_idx] as i64, a.0 == cur.0, 0);
            let nn = self.common.num_normal_players;
            if nn <= 1 {
                return own;
            }
            let n = self.common.num_all_players;
            let mut others: i64 = 0;
            let mut p: usize = 0;
            while p < n
                invariant
                    self.wf(),
                    n == self.n(),
                    n <= MAX_PLAYERS,
                    own_idx < n,
                    cur == self.current_player_id,
                    p <= n,
                    others as int == others_score(self.model(), own_idx as int, p as int),
                    -(p * MISC_BOUND) <= others <= p * MISC_BOUND,
                decreases n - p,
            {
                if p != own_idx {
                    let v = self.misc_score(p, self.player_strengths[p] as i64, p as i32 == cur.0, 0);
                    others = others + v;
                }
                p = p + 1;
            }
            proof {
                assert(nn <= 16);
                lemma_signed_product_bound((nn - 1) as int, own as int, 15, MISC_BOUND as int);
                assert(15 * MISC_BOUND == 450000000000000000int);
                assert(p * MISC_BOUND <= 16 * MISC_BOUND) by (nonlinear_arith) requires p <= 16;
            }
            (nn as i64 - 1) * own - others
        }
    }
}

fn copy_vec<T: Copy>(v: &Vec<T>) -> (r: Vec<T>)
    ensures
        r@ == v@,
{
    let mut r: Vec<T> = Vec::new();
    let mut i: usize = 0;
    while i < v.len()
        invariant
            i <= v@.len(),
            r@ == v@.subrange(0, i as int),
        decreases v.len() - i,
    {
        r.push(v[i]);
        assert(r@ =~= v@.subrange(0, i as int + 1));
        i = i + 1;
    }
    assert(v@.subrange(0, v@.len() as int) =~= v@);
    r
}

impl MutableGameState {
    /// An independent copy sharing the immutable match data.
    pub fn copy_state(&self) -> (r: MutableGameState)
        ensures
            r.model() == self.model(),
            r.common == self.common,
            r.attacker_hist@ == self.attacker_hist@,
            self.wf() ==> r.wf(),
    {
        MutableGameState {
            common: Rc::clone(&self.common),
            turn_id: self.turn_id,
            current_player_id: self.current_player_id,
            doctor_room_id: self.doctor_room_id,
            player_room_ids: copy_vec(&self.player_room_ids),
            player_move_cards: copy_vec(&self.player_move_cards),
            player_weapons: copy_vec(&self.player_weapons),
            player_failures: copy_vec(&self.player_failures),
            player_strengths: copy_vec(&self.player_strengths),
            attacker_hist: copy_vec(&self.attacker_hist),
            winner: self.winner,
            prev_turn: self.prev_turn.copy(),
        }
    }

    /// The state after a legal turn. With `must_return_new_object` this state
    /// is left as it is; otherwise it becomes the new state too.
    pub fn after_turn(&mut self, turn: SimpleTurn, must_return_new_object: bool) -> (r: MutableGameState)
        requires
            old(self).wf(),
            spec_turn_legal(*old(self).common, old(self).model(), turn.moves@),
            old(self).turn_id + MAX_FORCED_SUBTURNS < TURN_LIMIT,
        ensures
            r.wf(),
            r.common == old(self).common,
            r.model() == spec_after_turn(*old(self).common, old(self).model(), turn.moves@),
            r.turn_id <= old(self).turn_id + 1 + MAX_FORCED_SUBTURNS,
            must_return_new_object ==> final(self).model() == old(self).model(),
            !must_return_new_object ==> final(self).model() == r.model(),
            final(self).wf(),
    {
        if must_return_new_object {
            let mut new_state = self.copy_state();
            new_state.after_normal_turn(turn);
            new_state
        } else {
            self.after_normal_turn(turn);
            self.copy_state()
        }
    }

    /// How many steps the doctor needs to reach `room_id` along the room order.
    pub fn doctor_moves_until_room(&self, room_id: RoomId) -> (r: i32)
        requires
            self.wf(),
            self.board().room_ids@.contains(room_id),
        ensures
            ({
                let ids = self.board().room_ids@;
                let d = index_of(ids, self.doctor_room_id);
                let t = index_of(ids, room_id);
                r as int == if t >= d { t - d } else { ids.len() - (d - t) }
            }),
    {
        let ids = &self.common.board.room_ids;
        proof { lemma_ascending_fits(ids@, self.board().dim()); }
        let doctor_idx = crate::board::position_of(self.doctor_room_id, ids.as_slice());
        let target_idx = crate::board::position_of(room_id, ids.as_slice());
        let distance = if target_idx >= doctor_idx {
            target_idx - doctor_idx
        } else {
            ids.len() - (doctor_idx - target_idx)
        };
        distance as i32
    }
}

/// A turn is applied the same way to equal states: the result depends on the
/// match data, the state's values and the turn alone.
pub proof fn lemma_after_turn_deterministic(s1: MutableGameState, s2: MutableGameState, moves: Seq<PlayerMove>)
    requires
        *s1.common == *s2.common,
        s1.model() == s2.model(),
    ensures
        spec_after_turn(*s1.common, s1.model(), moves) == spec_after_turn(*s2.common, s2.model(), moves),
{
}

/// On a finished game the appraisal is the winning sentinel for the winner's
/// side and the losing sentinel for everyone else, whatever the holdings.
pub proof fn lemma_terminal_appraisal(common: CommonGameState, m1: GameModel, m2: GameModel, a: int)
    requires
        m1.winner != INVALID_PLAYER_ID,
        m2.winner == m1.winner,
    ensures
        spec_heuristic(common, m1, a) == spec_heuristic(common, m2, a),
        spec_heuristic(common, m1, a) == if a == spec_to_normal_player_id(m1.winner, common.num_normal_players as int) {
            HEURISTIC_SCORE_WIN as int
        } else {
            HEURISTIC_SCORE_LOSS as int
        },
{
}

/// A turn naming a room that is not on the board is rejected, and so is one
/// whose summed distance, beyond the free first step, exceeds the mover's move
/// cards.
pub proof fn lemma_check_rejects(common: CommonGameState, m: GameModel, moves: Seq<PlayerMove>)
    ensures
        (exists|k: int| 0 <= k < moves.len() && !common.board.room_ids@.contains(#[trigger] moves[k].dest_room_id))
            ==> !spec_turn_legal(common, m, moves),
        cards_used(total_dist(common.board, m.rooms, moves)) > m.moves[m.current] ==> !spec_turn_legal(common, m, moves),
{
}

fn same_rooms(a: &Vec<RoomId>, b: &Vec<RoomId>) -> (r: bool)
    ensures
        r == (a@ == b@),
{
    if a.len() != b.len() {
        return false;
    }
    let mut i: usize = 0;
    while i < a.len()
        invariant
            a@.len() == b@.len(),
            i <= a@.len(),
            forall|j: int| 0 <= j < i ==> a@[j] == b@[j],
        decreases a.len() - i,
    {
        if a[i] != b[i] {
            return false;
        }
        i = i + 1;
    }
    assert(a@ =~= b@);
    true
}

fn same_amounts(a: &Vec<i64>, b: &Vec<i64>) -> (r: bool)
    ensures
        r == (a@ == b@),
{
    if a.len() != b.len() {
        return false;
    }
    let mut i: usize = 0;
    while i < a.len()
        invariant
            a@.len() == b@.len(),
            i <= a@.len(),
            forall|j: int| 0 <= j < i ==> a@[j] == b@[j],
        decreases a.len() - i,
    {
        if a[i] != b[i] {
            return false;
        }
        i = i + 1;
    }
    assert(a@ =~= b@);
    true
}

fn same_strengths(a: &Vec<i32>, b: &Vec<i32>) -> (r: bool)
    ensures
        r == (a@ == b@),
{
    if a.len() != b.len() {
        return false;
    }
    let mut i: usize = 0;
    while i < a.len()
        invariant
            a@.len() == b@.len(),
            i <= a@.len(),
            forall|j: int| 0 <= j < i ==> a@[j] == b@[j],
        decreases a.len() - i,
    {
        if a[i] != b[i] {
            return false;
        }
        i = i + 1;
    }
    assert(a@ =~= b@);
    true
}

pub open spec fn states_equal(a: &MutableGameState, b: &MutableGameState) -> bool {
    &&& a.common.board.name@ == b.common.board.name@
    &&& a.common.num_normal_players == b.common.num_normal_players
    &&& a.common.num_all_players == b.common.num_all_players
    &&& a.current_player_id == b.current_player_id
    &&& a.doctor_room_id == b.doctor_room_id
    &&& a.player_room_ids@ == b.player_room_ids@
    &&& a.player_move_cards@ == b.player_move_cards@
    &&& a.player_weapons@ == b.player_weapons@
    &&& a.player_failures@ == b.player_failures@
    &&& a.player_strengths@ == b.player_strengths@
    &&& a.winner == b.winner
}

/// Two states are equal when they are of equal rosters and hold the same
/// positions, holdings, strengths, player to move and winner.
impl PartialEq for MutableGameState {
    fn eq(&self, other: &MutableGameState) -> (r: bool)
        ensures
            r == states_equal(self, other),
    {
        *self.common == *other.common
            && self.current_player_id == other.current_player_id
            && self.doctor_room_id == other.doctor_room_id
            && same_rooms(&self.player_room_ids, &other.player_room_ids)
            && same_amounts(&self.player_move_cards, &other.player_move_cards)
            && same_amounts(&self.player_weapons, &other.player_weapons)
            && same_amounts(&self.player_failures, &other.player_failures)
            && same_strengths(&self.player_strengths, &other.player_strengths)
            && self.winner == other.winner
    }
}

impl vstd::std_specs::cmp::PartialEqSpecImpl for MutableGameState {
    open spec fn obeys_eq_spec() -> bool {
        true
    }

    open spec fn eq_spec(&self, other: &MutableGameState) -> bool {
        states_equal(self, other)
    }
}

proof fn lemma_singles_shape(b: Board, from: RoomId, p: int, allowed: int, k: int)
    requires
        0 <= k <= b.room_ids@.len(),
    ensures
        forall|i: int| 0 <= i < singles_upto(b, from, p, allowed, k).len() ==> {
            let t = #[trigger] singles_upto(b, from, p, allowed, k)[i];
            &&& t.len() == 1
            &&& t[0].player_id == PlayerId(p as i32)
            &&& b.room_ids@.contains(t[0].dest_room_id)
            &&& b.spec_dist(from, t[0].dest_room_id) <= allowed
        },
    decreases k,
{
    if k > 0 {
        lemma_singles_shape(b, from, p, allowed, k - 1);
        let d = b.room_ids@[k - 1];
        assert(b.room_ids@.contains(d));
        let rest = singles_upto(b, from, p, allowed, k - 1);
        let all = singles_upto(b, from, p, allowed, k);
        assert forall|i: int| 0 <= i < all.len() implies {
            let t = #[trigger] all[i];
            &&& t.len() == 1
            &&& t[0].player_id == PlayerId(p as i32)
            &&& b.room_ids@.contains(t[0].dest_room_id)
            &&& b.spec_dist(from, t[0].dest_room_id) <= allowed
        } by {
            if i < rest.len() {
                assert(all[i] == rest[i]);
            }
        }
    }
}

proof fn lemma_duals_inner_shape(b: Board, from_a: RoomId, from_b: RoomId, a: int, bp: int, da: RoomId, remaining: int, k: int)
    requires
        0 <= k <= b.room_ids@.len(),
    ensures
        forall|i: int| 0 <= i < duals_inner(b, from_a, from_b, a, bp, da, remaining, k).len() ==> {
            let t = #[trigger] duals_inner(b, from_a, from_b, a, bp, da, remaining, k)[i];
            &&& t.len() == 2
            &&& t[0] == PlayerMove { player_id: PlayerId(a as i32), dest_room_id: da }
            &&& t[1].player_id == PlayerId(bp as i32)
            &&& b.room_ids@.contains(t[1].dest_room_id)
            &&& b.spec_dist(from_b, t[1].dest_room_id) <= remaining
        },
    decreases k,
{
    if k > 0 {
        lemma_duals_inner_shape(b, from_a, from_b, a, bp, da, remaining, k - 1);
        let d = b.room_ids@[k - 1];
        assert(b.room_ids@.contains(d));
        let rest = duals_inner(b, from_a, from_b, a, bp, da, remaining, k - 1);
        let all = duals_inner(b, from_a, from_b, a, bp, da, remaining, k);
        assert forall|i: int| 0 <= i < all.len() implies {
            let t = #[trigger] all[i];
            &&& t.len() == 2
            &&& t[0] == PlayerMove { player_id: PlayerId(a as i32), dest_room_id: da }
            &&& t[1].player_id == PlayerId(bp as i32)
            &&& b.room_ids@.contains(t[1].dest_room_id)
            &&& b.spec_dist(from_b, t[1].dest_room_id) <= remaining
        } by {
            if i < rest.len() {
                assert(all[i] == rest[i]);
            }
        }
    }
}

proof fn lemma_duals_shape(b: Board, from_a: RoomId, from_b: RoomId, a: int, bp: int, allowed: int, k: int)
    requires
        0 <= k <= b.room_ids@.len(),
    ensures
        forall|i: int| 0 <= i < duals_upto(b, from_a, from_b, a, bp, allowed, k).len() ==> {
            let t = #[trigger] duals_upto(b, from_a, from_b, a, bp, allowed, k)[i];
            &&& t.len() == 2
            &&& t[0].player_id == PlayerId(a as i32)
            &&& t[1].player_id == PlayerId(bp as i32)
            &&& b.room_ids@.contains(t[0].dest_room_id)
            &&& b.room_ids@.contains(t[1].dest_room_id)
            &&& b.spec_dist(from_a, t[0].dest_room_id) + b.spec_dist(from_b, t[1].dest_room_id) <= allowed
        },
    decreases k,
{
    if k > 0 {
        lemma_duals_shape(b, from_a, from_b, a, bp, allowed, k - 1);
        let da = b.room_ids@[k - 1];
        assert(b.room_ids@.contains(da));
        let remaining = allowed - b.spec_dist(from_a, da);
        lemma_duals_inner_shape(b, from_a, from_b, a, bp, da, remaining, b.room_ids@.len() as int);
        let rest = duals_upto(b, from_a, from_b, a, bp, allowed, k - 1);
        let inner = duals_inner(b, from_a, from_b, a, bp, da, remaining, b.room_ids@.len() as int);
        if !(remaining <= 0 || from_a == da) {
            assert forall|i: int| 0 <= i < (rest + inner).len() implies {
                let t = #[trigger] (rest + inner)[i];
                &&& t.len() == 2
                &&& t[0].player_id == PlayerId(a as i32)
                &&& t[1].player_id == PlayerId(bp as i32)
                &&& b.room_ids@.contains(t[0].dest_room_id)
                &&& b.room_ids@.contains(t[1].dest_room_id)
                &&& b.spec_dist(from_a, t[0].dest_room_id) + b.spec_dist(from_b, t[1].dest_room_id) <= allowed
            } by {
                if i < rest.len() {
                    assert((rest + inner)[i] == rest[i]);
                } else {
                    assert((rest + inner)[i] == inner[i - rest.len()]);
                }
            }
        }
    }
}

/// Moves of a turn that the current player may make: their movers are the
/// current player or strangers, and they go to rooms of the board.
pub open spec fn movers_ok(common: CommonGameState, m: GameModel, t: Seq<PlayerMove>) -> bool {
    &&& forall|k: int| 0 <= k < t.len() ==> 0 <= #[trigger] t[k].player_id.0 < common.num_all_players
    &&& forall|k: int| 0 <= k < t.len() ==> common.board.room_ids@.contains(#[trigger] t[k].dest_room_id)
    &&& forall|k: int| 0 <= k < t.len() ==> (#[trigger] t[k].player_id.0 == m.current
        || spec_player_type(common.spec_has_strangers(), t[k].player_id.0 as int) == PlayerType::Stranger)
}

proof fn lemma_budget(moves: int, dist: int)
    requires
        0 <= moves,
        dist <= moves / (CARD_UNIT as int) + 1,
    ensures
        cards_used(dist) <= moves,
{
    let q = moves / (CARD_UNIT as int);
    assert(q * CARD_UNIT <= moves) by (nonlinear_arith)
        requires q == moves / 9600, moves >= 0;
    if dist - 1 > 0 {
        assert((dist - 1) * CARD_UNIT <= q * CARD_UNIT) by (nonlinear_arith)
            requires dist - 1 <= q;
    }
}

impl MutableGameState {
    /// Every turn the state enumerates is one it accepts.
    pub proof fn lemma_possible_turns_legal(&self)
        requires
            self.wf(),
        ensures
            forall|i: int| 0 <= i < spec_possible_turns(*self.common, self.model()).len() ==>
                spec_turn_legal(*self.common, self.model(), #[trigger] spec_possible_turns(*self.common, self.model())[i]),
    {
        let common = *self.common;
        let m = self.model();
        let b = common.board;
        let cur = m.current;
        let allowed = m.moves[cur] / CARD_UNIT + 1;
        let n = b.room_ids@.len() as int;
        let all = spec_possible_turns(common, m);
        lemma_singles_shape(b, m.rooms[cur], cur, allowed, n);
        if common.spec_has_strangers() {
            let ally = spec_allied_stranger(cur);
            let opp = spec_opposing_stranger(cur);
            lemma_singles_shape(b, m.rooms[ally], ally, allowed, n);
            lemma_singles_shape(b, m.rooms[opp], opp, allowed, n);
            lemma_duals_shape(b, m.rooms[cur], m.rooms[ally], cur, ally, allowed, n);
            lemma_duals_shape(b, m.rooms[cur], m.rooms[opp], cur, opp, allowed, n);
            lemma_duals_shape(b, m.rooms[ally], m.rooms[opp], ally, opp, allowed, n);
        }
        assert forall|i: int| 0 <= i < all.len() implies spec_turn_legal(common, m, #[trigger] all[i]) by {
            self.lemma_turn_legal_at(i);
        }
    }
}

proof fn lemma_single_legal(common: CommonGameState, m: GameModel, t: Seq<PlayerMove>, from: RoomId, allowed: int)
    requires
        t.len() == 1,
        0 <= m.moves[m.current],
        allowed == (m.moves[m.current] as int) / (CARD_UNIT as int) + 1,
        from == m.rooms[t[0].player_id.0 as int],
        common.board.spec_dist(from, t[0].dest_room_id) <= allowed,
        movers_ok(common, m, t),
    ensures
        spec_turn_legal(common, m, t),
{
    assert(t.drop_last().len() == 0);
    assert(total_dist(common.board, m.rooms, t.drop_last()) == 0);
    lemma_budget(m.moves[m.current] as int, total_dist(common.board, m.rooms, t));
}

proof fn lemma_dual_legal(common: CommonGameState, m: GameModel, t: Seq<PlayerMove>, from_a: RoomId, from_b: RoomId, allowed: int)
    requires
        t.len() == 2,
        0 <= m.moves[m.current],
        allowed == (m.moves[m.current] as int) / (CARD_UNIT as int) + 1,
        from_a == m.rooms[t[0].player_id.0 as int],
        from_b == m.rooms[t[1].player_id.0 as int],
        common.board.spec_dist(from_a, t[0].dest_room_id) + common.board.spec_dist(from_b, t[1].dest_room_id) <= allowed,
        movers_ok(common, m, t),
    ensures
        spec_turn_legal(common, m, t),
{
    assert(t.drop_last().drop_last().len() == 0);
    assert(t.drop_last()[0] == t[0]);
    assert(t.drop_last().last() == t[0]);
    assert(t.last() == t[1]);
    assert(total_dist(common.board, m.rooms, t.drop_last().drop_last()) == 0);
    assert(total_dist(common.board, m.rooms, t.drop_last()) == common.board.spec_dist(from_a, t[0].dest_room_id));
    assert(total_dist(common.board, m.rooms, t) == common.board.spec_dist(from_a, t[0].dest_room_id)
        + common.board.spec_dist(from_b, t[1].dest_room_id));
    lemma_budget(m.moves[m.current] as int, total_dist(common.board, m.rooms, t));
}

impl MutableGameState {
    #[verifier::rlimit(50)]
    proof fn lemma_turn_legal_at(&self, i: int)
        requires
            self.wf(),
            0 <= i < spec_possible_turns(*self.common, self.model()).len(),
            ({
                let common = *self.common;
                let m = self.model();
                let b = common.board;
                let cur = m.current;
                let allowed = (m.moves[cur] as int) / (CARD_UNIT as int) + 1;
                let n = b.room_ids@.len() as int;
                &&& forall|j: int| 0 <= j < spec_singles(b, m, cur, allowed).len() ==> {
                    let t = #[trigger] spec_singles(b, m, cur, allowed)[j];
                    t.len() == 1 && t[0].player_id == PlayerId(cur as i32) && b.room_ids@.contains(t[0].dest_room_id)
                        && b.spec_dist(m.rooms[cur], t[0].dest_room_id) <= allowed
                }
                &&& common.spec_has_strangers() ==> {
                    let ally = spec_allied_stranger(cur);
                    let opp = spec_opposing_stranger(cur);
                    &&& forall|j: int| 0 <= j < spec_singles(b, m, ally, allowed).len() ==> {
                        let t = #[trigger] spec_singles(b, m, ally, allowed)[j];
                        t.len() == 1 && t[0].player_id == PlayerId(ally as i32) && b.room_ids@.contains(t[0].dest_room_id)
                            && b.spec_dist(m.rooms[ally], t[0].dest_room_id) <= allowed
                    }
                    &&& forall|j: int| 0 <= j < spec_singles(b, m, opp, allowed).len() ==> {
                        let t = #[trigger] spec_singles(b, m, opp, allowed)[j];
                        t.len() == 1 && t[0].player_id == PlayerId(opp as i32) && b.room_ids@.contains(t[0].dest_room_id)
                            && b.spec_dist(m.rooms[opp], t[0].dest_room_id) <= allowed
                    }
                    &&& forall|j: int| 0 <= j < spec_duals(b, m, cur, ally, allowed).len() ==> {
                        let t = #[trigger] spec_duals(b, m, cur, ally, allowed)[j];
                        t.len() == 2 && t[0].player_id == PlayerId(cur as i32) && t[1].player_id == PlayerId(ally as i32)
                            && b.room_ids@.contains(t[0].dest_room_id) && b.room_ids@.contains(t[1].dest_room_id)
                            && b.spec_dist(m.rooms[cur], t[0].dest_room_id) + b.spec_dist(m.rooms[ally], t[1].dest_room_id) <= allowed
                    }
                    &&& forall|j: int| 0 <= j < spec_duals(b, m, cur, opp, allowed).len() ==> {
                        let t = #[trigger] spec_duals(b, m, cur, opp, allowed)[j];
                        t.len() == 2 && t[0].player_id == PlayerId(cur as i32) && t[1].player_id == PlayerId(opp as i32)
                            && b.room_ids@.contains(t[0].dest_room_id) && b.room_ids@.contains(t[1].dest_room_id)
                            && b.spec_dist(m.rooms[cur], t[0].dest_room_id) + b.spec_dist(m.rooms[opp], t[1].dest_room_id) <= allowed
                    }
                    &&& forall|j: int| 0 <= j < spec_duals(b, m, ally, opp, allowed).len() ==> {
                        let t = #[trigger] spec_duals(b, m, ally, opp, allowed)[j];
                        t.len() == 2 && t[0].player_id == PlayerId(ally as i32) && t[1].player_id == PlayerId(opp as i32)
                            && b.room_ids@.contains(t[0].dest_room_id) && b.room_ids@.contains(t[1].dest_room_id)
                            && b.spec_dist(m.rooms[ally], t[0].dest_room_id) + b.spec_dist(m.rooms[opp], t[1].dest_room_id) <= allowed
                    }
                }
            }),
        ensures
            spec_turn_legal(*self.common, self.model(), spec_possible_turns(*self.common, self.model())[i]),
    {
        let common = *self.common;
        let m = self.model();
        let b = common.board;
        let cur = m.current;
        let allowed = (m.moves[cur] as int) / (CARD_UNIT as int) + 1;
        let all = spec_possible_turns(common, m);
        let t = all[i];
        let s1 = spec_singles(b, m, cur, allowed);
        if !common.spec_has_strangers() {
            assert(t == s1[i]);
            lemma_single_legal(common, m, t, m.rooms[cur], allowed);
        } else {
            let ally = spec_allied_stranger(cur);
            let opp = spec_opposing_stranger(cur);
            assert(spec_player_type(true, ally) == PlayerType::Stranger);
            assert(spec_player_type(true, opp) == PlayerType::Stranger);
            let s2 = spec_singles(b, m, ally, allowed);
            let s3 = spec_singles(b, m, opp, allowed);
            let d1 = spec_duals(b, m, cur, ally, allowed);
            let d2 = spec_duals(b, m, cur, opp, allowed);
            let d3 = spec_duals(b, m, ally, opp, allowed);
            let l1 = s1.len() as int;
            let l2 = l1 + s2.len();
            let l3 = l2 + s3.len();
            let l4 = l3 + d1.len();
            let l5 = l4 + d2.len();
            if i < l1 {
                assert(t == s1[i]);
                lemma_single_legal(common, m, t, m.rooms[cur], allowed);
            } else if i < l2 {
                assert(t == s2[i - l1]);
                lemma_single_legal(common, m, t, m.rooms[ally], allowed);
            } else if i < l3 {
                assert(t == s3[i - l2]);
                lemma_single_legal(common, m, t, m.rooms[opp], allowed);
            } else if i < l4 {
                assert(t == d1[i - l3]);
                lemma_dual_legal(common, m, t, m.rooms[cur], m.rooms[ally], allowed);
            } else if i < l5 {
                assert(t == d2[i - l4]);
                lemma_dual_legal(common, m, t, m.rooms[cur], m.rooms[opp], allowed);
            } else {
                assert(t == d3[i - l5]);
                lemma_dual_legal(common, m, t, m.rooms[ally], m.rooms[opp], allowed);
            }
        }
    }
}

proof fn lemma_singles_nonempty(b: Board, from: RoomId, p: int, allowed: int, k: int)
    requires
        b.wf(),
        allowed >= 0,
        0 <= k <= b.room_ids@.len(),
        b.room_ids@.contains(from),
        exists|j: int| 0 <= j < k && b.room_ids@[j] == from,
    ensures
        singles_upto(b, from, p, allowed, k).len() >= 1,
    decreases k,
{
    let d = b.room_ids@[k - 1];
    if d == from {
        lemma_id_in_range(b, from);
        assert(crate::distance::supported_at(b.adjacency@, b.distance@, b.dim(), from.0 as int, from.0 as int));
    } else {
        lemma_singles_nonempty(b, from, p, allowed, k - 1);
    }
}

impl MutableGameState {
    /// A state without a winner has a turn: at least staying put.
    pub proof fn lemma_possible_turns_nonempty(&self)
        requires
            self.wf(),
            !self.spec_has_winner(),
        ensures
            spec_possible_turns(*self.common, self.model()).len() >= 1,
    {
        let m = self.model();
        let b = self.board();
        let cur = m.current;
        let from = m.rooms[cur];
        let ids = b.room_ids@;
        assert(ids.contains(from));
        let j = choose|j: int| 0 <= j < ids.len() && ids[j] == from;
        let allowed = (m.moves[cur] as int) / (CARD_UNIT as int) + 1;
        lemma_singles_nonempty(b, from, cur, allowed, ids.len() as int);
    }
}

impl MutableGameState {
    /// Whether the room of player 1 is in sight of the room of player 2.
    pub fn player_sees_player(&self, player_id1: PlayerId, player_id2: PlayerId) -> (r: bool)
        requires
            self.wf(),
            0 <= player_id1.0 < self.n(),
            0 <= player_id2.0 < self.n(),
        ensures
            r == self.board().spec_sees(self.player_room_ids@[player_id1.0 as int], self.player_room_ids@[player_id2.0 as int]),
    {
        proof { self.lemma_rooms_in_range(); }
        let room1 = self.player_room_ids[player_id1.0 as usize];
        let room2 = self.player_room_ids[player_id2.0 as usize];
        assert(self.board().in_range(self.player_room_ids@[player_id1.0 as int]));
        assert(self.board().in_range(self.player_room_ids@[player_id2.0 as int]));
        self.common.board.sight[room1.0 as usize][room2.0 as usize]
    }

    /// The clovers a player's cards are worth in defence.
    pub fn player_equivalent_clovers(&self, player_id: PlayerId) -> (r: i64)
        requires
            self.wf(),
            0 <= player_id.0 < self.n(),
        ensures
            r as int == clovers_of(cards_of(self.model()), player_id.0 as int),
    {
        proof { self.lemma_capped(0); }
        let p = player_id.0 as usize;
        self.player_failures[p] * CLOVERS_PER_FAILURE_NUM / CLOVERS_PER_FAILURE_DEN + self.player_weapons[p]
            + self.player_move_cards[p]
    }

    /// How many steps the doctor needs to reach the room of `player_id`.
    pub fn doctor_moves_until_player_room(&self, player_id: PlayerId) -> (r: i32)
        requires
            self.wf(),
            0 <= player_id.0 < self.n(),
        ensures
            ({
                let ids = self.board().room_ids@;
                let d = index_of(ids, self.doctor_room_id);
                let t = index_of(ids, self.player_room_ids@[player_id.0 as int]);
                r as int == if t >= d { t - d } else { ids.len() - (d - t) }
            }),
    {
        let room = self.player_room_ids[player_id.0 as usize];
        self.doctor_moves_until_room(room)
    }

    /// The doctor score of the side to move, with strangers on the board.
    pub fn doctor_score(&self) -> (r: i64)
        requires
            self.wf(),
            self.common.spec_has_strangers(),
        ensures
            ({
                let m = self.model();
                let cur = m.current;
                r as int == spec_doctor_score(self.board(), m, self.n(), m.rooms[cur], m.rooms[spec_allied_stranger(cur)],
                    m.rooms[spec_opposing_normal_player(cur)], m.rooms[spec_opposing_stranger(cur)])
            }),
    {
        let cur = self.current_player_id;
        let ally = allied_stranger(cur);
        let opp = opposing_normal_player(cur);
        let opp_ally = opposing_stranger(cur);
        self.doctor_score_with_rooms(self.player_room_ids[cur.0 as usize], self.player_room_ids[ally.0 as usize],
            self.player_room_ids[opp.0 as usize], self.player_room_ids[opp_ally.0 as usize])
    }
}

/// No turn occurs twice in `ts`.
pub open spec fn no_duplicates(ts: Seq<Seq<PlayerMove>>) -> bool {
    forall|i: int, j: int| 0 <= i < j < ts.len() ==> ts[i] != ts[j]
}

proof fn lemma_no_duplicates_concat(a: Seq<Seq<PlayerMove>>, b: Seq<Seq<PlayerMove>>)
    requires
        no_duplicates(a),
        no_duplicates(b),
        forall|i: int, j: int| 0 <= i < a.len() && 0 <= j < b.len() ==> a[i] != b[j],
    ensures
        no_duplicates(a + b),
{
    assert forall|i: int, j: int| 0 <= i < j < (a + b).len() implies (a + b)[i] != (a + b)[j] by {
        if j < a.len() {
        } else if i < a.len() {
            assert((a + b)[j] == b[j - a.len()]);
        } else {
            assert((a + b)[i] == b[i - a.len()]);
            assert((a + b)[j] == b[j - a.len()]);
        }
    }
}

/// The one-move turns of the first `k` rooms go to distinct rooms among them.
proof fn lemma_singles_distinct(b: Board, from: RoomId, p: int, allowed: int, k: int)
    requires
        b.wf(),
        0 <= k <= b.room_ids@.len(),
    ensures
        no_duplicates(singles_upto(b, from, p, allowed, k)),
        forall|i: int| 0 <= i < singles_upto(b, from, p, allowed, k).len() ==>
            exists|x: int| 0 <= x < k && (#[trigger] singles_upto(b, from, p, allowed, k)[i])[0].dest_room_id == b.room_ids@[x],
    decreases k,
{
    if k > 0 {
        lemma_singles_distinct(b, from, p, allowed, k - 1);
        lemma_singles_shape(b, from, p, allowed, k);
        let rest = singles_upto(b, from, p, allowed, k - 1);
        let all = singles_upto(b, from, p, allowed, k);
        let d = b.room_ids@[k - 1];
        assert forall|i: int| 0 <= i < all.len() implies
            exists|x: int| 0 <= x < k && (#[trigger] all[i])[0].dest_room_id == b.room_ids@[x] by {
            if i < rest.len() {
                assert(all[i] == rest[i]);
                let x = choose|x: int| 0 <= x < k - 1 && rest[i][0].dest_room_id == b.room_ids@[x];
            } else {
                assert(all[i][0].dest_room_id == d);
            }
        }
        assert forall|i: int, j: int| 0 <= i < j < all.len() implies all[i] != all[j] by {
            if j < rest.len() {
                assert(all[i] == rest[i] && all[j] == rest[j]);
            } else {
                assert(all[i] == rest[i]);
                let x = choose|x: int| 0 <= x < k - 1 && rest[i][0].dest_room_id == b.room_ids@[x];
                assert(b.room_ids@[x].0 < b.room_ids@[k - 1].0);
                assert(all[j][0].dest_room_id == d);
            }
        }
    }
}

proof fn lemma_duals_inner_distinct(b: Board, from_a: RoomId, from_b: RoomId, a: int, bp: int, da: RoomId, remaining: int, k: int)
    requires
        b.wf(),
        0 <= k <= b.room_ids@.len(),
    ensures
        no_duplicates(duals_inner(b, from_a, from_b, a, bp, da, remaining, k)),
        forall|i: int| 0 <= i < duals_inner(b, from_a, from_b, a, bp, da, remaining, k).len() ==>
            exists|x: int| 0 <= x < k && (#[trigger] duals_inner(b, from_a, from_b, a, bp, da, remaining, k)[i])[1].dest_room_id == b.room_ids@[x],
    decreases k,
{
    if k > 0 {
        lemma_duals_inner_distinct(b, from_a, from_b, a, bp, da, remaining, k - 1);
        let rest = duals_inner(b, from_a, from_b, a, bp, da, remaining, k - 1);
        let all = duals_inner(b, from_a, from_b, a, bp, da, remaining, k);
        let d = b.room_ids@[k - 1];
        assert forall|i: int| 0 <= i < all.len() implies
            exists|x: int| 0 <= x < k && (#[trigger] all[i])[1].dest_room_id == b.room_ids@[x] by {
            if i < rest.len() {
                assert(all[i] == rest[i]);
                let x = choose|x: int| 0 <= x < k - 1 && rest[i][1].dest_room_id == b.room_ids@[x];
            } else {
                assert(all[i][1].dest_room_id == d);
            }
        }
        assert forall|i: int, j: int| 0 <= i < j < all.len() implies all[i] != all[j] by {
            if j < rest.len() {
                assert(all[i] == rest[i] && all[j] == rest[j]);
            } else {
                assert(all[i] == rest[i]);
                let x = choose|x: int| 0 <= x < k - 1 && rest[i][1].dest_room_id == b.room_ids@[x];
                assert(b.room_ids@[x].0 < b.room_ids@[k - 1].0);
                assert(all[j][1].dest_room_id == d);
            }
        }
    }
}

proof fn lemma_duals_distinct(b: Board, from_a: RoomId, from_b: RoomId, a: int, bp: int, allowed: int, k: int)
    requires
        b.wf(),
        0 <= k <= b.room_ids@.len(),
    ensures
        no_duplicates(duals_upto(b, from_a, from_b, a, bp, allowed, k)),
        forall|i: int| 0 <= i < duals_upto(b, from_a, from_b, a, bp, allowed, k).len() ==>
            exists|x: int| 0 <= x < k && (#[trigger] duals_upto(b, from_a, from_b, a, bp, allowed, k)[i])[0].dest_room_id == b.room_ids@[x],
    decreases k,
{
    if k > 0 {
        lemma_duals_distinct(b, from_a, from_b, a, bp, allowed, k - 1);
        let rest = duals_upto(b, from_a, from_b, a, bp, allowed, k - 1);
        let all = duals_upto(b, from_a, from_b, a, bp, allowed, k);
        let da = b.room_ids@[k - 1];
        let remaining = allowed - b.spec_dist(from_a, da);
        let n = b.room_ids@.len() as int;
        let inner = duals_inner(b, from_a, from_b, a, bp, da, remaining, n);
        lemma_duals_inner_shape(b, from_a, from_b, a, bp, da, remaining, n);
        lemma_duals_inner_distinct(b, from_a, from_b, a, bp, da, remaining, n);
        if !(remaining <= 0 || from_a == da) {
            assert forall|i: int, j: int| 0 <= i < rest.len() && 0 <= j < inner.len() implies rest[i] != inner[j] by {
                let x = choose|x: int| 0 <= x < k - 1 && rest[i][0].dest_room_id == b.room_ids@[x];
                assert(b.room_ids@[x].0 < b.room_ids@[k - 1].0);
                assert(inner[j][0].dest_room_id == da);
            }
            lemma_no_duplicates_concat(rest, inner);
            assert forall|i: int| 0 <= i < all.len() implies
                exists|x: int| 0 <= x < k && (#[trigger] all[i])[0].dest_room_id == b.room_ids@[x] by {
                if i < rest.len() {
                    assert(all[i] == rest[i]);
                    let x = choose|x: int| 0 <= x < k - 1 && rest[i][0].dest_room_id == b.room_ids@[x];
                } else {
                    assert(all[i] == inner[i - rest.len()]);
                    assert(all[i][0].dest_room_id == b.room_ids@[k - 1]);
                }
            }
        } else {
            assert forall|i: int| 0 <= i < all.len() implies
                exists|x: int| 0 <= x < k && (#[trigger] all[i])[0].dest_room_id == b.room_ids@[x] by {
                let x = choose|x: int| 0 <= x < k - 1 && rest[i][0].dest_room_id == b.room_ids@[x];
            }
        }
    }
}

/// Which group of the enumeration a turn belongs to: the moving pieces.
pub open spec fn turn_group(cur: int, ally: int, t: Seq<PlayerMove>) -> int {
    if t.len() == 1 {
        if t[0].player_id.0 == cur { 1 } else if t[0].player_id.0 == ally { 2 } else { 3 }
    } else if t[0].player_id.0 == cur && t[1].player_id.0 == ally {
        4
    } else if t[0].player_id.0 == cur {
        5
    } else {
        6
    }
}

proof fn lemma_concat_grouped(a: Seq<Seq<PlayerMove>>, b: Seq<Seq<PlayerMove>>, cur: int, ally: int, g: int)
    requires
        no_duplicates(a),
        no_duplicates(b),
        forall|i: int| 0 <= i < a.len() ==> turn_group(cur, ally, #[trigger] a[i]) < g,
        forall|j: int| 0 <= j < b.len() ==> turn_group(cur, ally, #[trigger] b[j]) == g,
    ensures
        no_duplicates(a + b),
        forall|i: int| 0 <= i < (a + b).len() ==> turn_group(cur, ally, #[trigger] (a + b)[i]) <= g,
{
    assert forall|i: int, j: int| 0 <= i < a.len() && 0 <= j < b.len() implies a[i] != b[j] by {
        assert(turn_group(cur, ally, a[i]) < g);
        assert(turn_group(cur, ally, b[j]) == g);
    }
    lemma_no_duplicates_concat(a, b);
    assert forall|i: int| 0 <= i < (a + b).len() implies turn_group(cur, ally, #[trigger] (a + b)[i]) <= g by {
        if i < a.len() {
            assert((a + b)[i] == a[i]);
        } else {
            assert((a + b)[i] == b[i - a.len()]);
        }
    }
}

impl MutableGameState {
    /// No turn is enumerated twice when a normal player is to move.
    pub proof fn lemma_possible_turns_distinct(&self)
        requires
            self.wf(),
            self.spec_is_normal_turn(),
        ensures
            no_duplicates(spec_possible_turns(*self.common, self.model())),
    {
        let common = *self.common;
        let m = self.model();
        let b = common.board;
        let cur = m.current;
        let allowed = (m.moves[cur] as int) / (CARD_UNIT as int) + 1;
        let n = b.room_ids@.len() as int;
        if m.winner != INVALID_PLAYER_ID {
            return;
        }
        lemma_singles_distinct(b, m.rooms[cur], cur, allowed, n);
        lemma_singles_shape(b, m.rooms[cur], cur, allowed, n);
        if !common.spec_has_strangers() {
            return;
        }
        let ally = spec_allied_stranger(cur);
        let opp = spec_opposing_stranger(cur);
        assert(cur == 0 || cur == 2);
        let s1 = spec_singles(b, m, cur, allowed);
        let s2 = spec_singles(b, m, ally, allowed);
        let s3 = spec_singles(b, m, opp, allowed);
        lemma_singles_distinct(b, m.rooms[ally], ally, allowed, n);
        lemma_singles_shape(b, m.rooms[ally], ally, allowed, n);
        lemma_singles_distinct(b, m.rooms[opp], opp, allowed, n);
        lemma_singles_shape(b, m.rooms[opp], opp, allowed, n);
        assert forall|i: int| 0 <= i < s1.len() implies turn_group(cur, ally, #[trigger] s1[i]) < 2 by {}
        assert forall|i: int| 0 <= i < s2.len() implies turn_group(cur, ally, #[trigger] s2[i]) == 2 by {}
        lemma_concat_grouped(s1, s2, cur, ally, 2);
        assert forall|i: int| 0 <= i < s3.len() implies turn_group(cur, ally, #[trigger] s3[i]) == 3 by {}
        lemma_concat_grouped(s1 + s2, s3, cur, ally, 3);
        if m.moves[cur] > 0 {
            let d1 = spec_duals(b, m, cur, ally, allowed);
            let d2 = spec_duals(b, m, cur, opp, allowed);
            let d3 = spec_duals(b, m, ally, opp, allowed);
            lemma_duals_distinct(b, m.rooms[cur], m.rooms[ally], cur, ally, allowed, n);
            lemma_duals_shape(b, m.rooms[cur], m.rooms[ally], cur, ally, allowed, n);
            lemma_duals_distinct(b, m.rooms[cur], m.rooms[opp], cur, opp, allowed, n);
            lemma_duals_shape(b, m.rooms[cur], m.rooms[opp], cur, opp, allowed, n);
            lemma_duals_distinct(b, m.rooms[ally], m.rooms[opp], ally, opp, allowed, n);
            lemma_duals_shape(b, m.rooms[ally], m.rooms[opp], ally, opp, allowed, n);
            assert forall|i: int| 0 <= i < d1.len() implies turn_group(cur, ally, #[trigger] d1[i]) == 4 by {}
            lemma_concat_grouped(s1 + s2 + s3, d1, cur, ally, 4);
            assert forall|i: int| 0 <= i < d2.len() implies turn_group(cur, ally, #[trigger] d2[i]) == 5 by {}
            lemma_concat_grouped(s1 + s2 + s3 + d1, d2, cur, ally, 5);
            assert forall|i: int| 0 <= i < d3.len() implies turn_group(cur, ally, #[trigger] d3[i]) == 6 by {}
            lemma_concat_grouped(s1 + s2 + s3 + d1 + d2, d3, cur, ally, 6);
        }
    }
}

/// The first `k` room ids, in order, that lie within `n` steps of `from`.
pub open spec fn rooms_within(b: Board, from: RoomId, n: int, k: int) -> Seq<RoomId>
    decreases k,
{
    if k <= 0 {
        Seq::empty()
    } else {
        let rest = rooms_within(b, from, n, k - 1);
        let r = b.room_ids@[k - 1];
        if b.spec_dist(from, r) <= n { rest.push(r) } else { rest }
    }
}

impl MutableGameState {
    /// The rooms within `n` steps of the room of `player_id`, ascending.
    pub fn reachable_rooms(&self, player_id: PlayerId, n: i32) -> (r: Vec<RoomId>)
        requires
            self.wf(),
            0 <= player_id.0 < self.n(),
        ensures
            r@ == rooms_within(self.board(), self.player_room_ids@[player_id.0 as int], n as int,
                self.board().room_ids@.len() as int),
    {
        proof { self.lemma_rooms_in_range(); }
        let board = &self.common.board;
        let from = self.player_room_ids[player_id.0 as usize];
        assert(board.in_range(self.player_room_ids@[player_id.0 as int]));
        let mut r: Vec<RoomId> = Vec::new();
        let mut k: usize = 0;
        while k < board.room_ids.len()
            invariant
                self.wf(),
                board == self.common.board,
                board.in_range(from),
                from == self.player_room_ids@[player_id.0 as int],
                k <= board.room_ids@.len(),
                r@ == rooms_within(*board, from, n as int, k as int),
            decreases board.room_ids.len() - k,
        {
            let dest = board.room_ids[k];
            proof { lemma_id_in_range(*board, dest); }
            if board.distance[from.0 as usize][dest.0 as usize] <= n {
                r.push(dest);
            }
            k = k + 1;
        }
        r
    }
}

} // verus!
