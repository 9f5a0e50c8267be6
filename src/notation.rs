//! Reading turns written in notation: moves `<player number>@<room id>`,
//! separated by single spaces, the whole turn ended by `;`.

use vstd::prelude::*;
use crate::player::{PlayerId, PlayerMove, move_text, moves_text, turn_text};
use crate::room::RoomId;
use crate::simple_turn::SimpleTurn;
use crate::text::{digit_char, nat_text};

verus! {

/// Largest number the notation reads.
pub const MAX_NOTATION_NUMBER: u64 = 99999999;

fn digit_value(c: char) -> (r: Option<u64>)
    ensures
        r matches Some(d) ==> d < 10 && digit_char(d as int) == c,
        r is None ==> forall|d: int| 0 <= d < 10 ==> digit_char(d) != c,
{
    if c == '0' { Some(0) }
    else if c == '1' { Some(1) }
    else if c == '2' { Some(2) }
    else if c == '3' { Some(3) }
    else if c == '4' { Some(4) }
    else if c == '5' { Some(5) }
    else if c == '6' { Some(6) }
    else if c == '7' { Some(7) }
    else if c == '8' { Some(8) }
    else if c == '9' { Some(9) }
    else { None }
}

proof fn lemma_nat_text_step(v: nat, d: nat)
    requires
        v >= 1,
        d < 10,
    ensures
        nat_text(v * 10 + d) == nat_text(v) + seq![digit_char(d as int)],
{
    let n = v * 10 + d;
    assert(n / 10 == v && n % 10 == d) by (nonlinear_arith)
        requires n == v * 10 + d, d < 10;
}

/// `chars` hold `nat_text(w)` at `pos`, followed by the end or by a
/// character that is not a digit.
pub open spec fn written_at(chars: Seq<char>, pos: int, w: nat) -> bool {
    let l = nat_text(w).len() as int;
    &&& 0 <= pos
    &&& pos + l <= chars.len()
    &&& chars.subrange(pos, pos + l) == nat_text(w)
    &&& (pos + l == chars.len() || !is_digit(chars[pos + l]))
}

/// Reads the decimal number that starts at `pos`, written without leading
/// zeros, up to the first character that is not a digit.
fn read_number(chars: &Vec<char>, pos: usize) -> (r: Option<(u64, usize)>)
    ensures
        r matches Some((v, end)) ==> pos < end <= chars@.len() && v <= MAX_NOTATION_NUMBER
            && nat_text(v as nat) == chars@.subrange(pos as int, end as int),
        forall|w: nat| #![trigger nat_text(w)] w <= MAX_NOTATION_NUMBER && written_at(chars@, pos as int, w) ==> r == Some((w as u64, (pos + nat_text(w).len()) as usize)),
{
    if pos >= chars.len() {
        proof {
            assert forall|w: nat| #![trigger nat_text(w)] w <= MAX_NOTATION_NUMBER && written_at(chars@, pos as int, w) implies false by {
                lemma_nat_text_digits(w);
            }
        }
        return None;
    }
    let first = match digit_value(chars[pos]) {
        Some(d) => d,
        None => {
            proof {
                assert forall|w: nat| #![trigger nat_text(w)] w <= MAX_NOTATION_NUMBER && written_at(chars@, pos as int, w) implies false by {
                    lemma_nat_text_digits(w);
                    assert(chars@.subrange(pos as int, pos as int + nat_text(w).len())[0] == chars@[pos as int]);
                    let d = choose|d: int| 0 <= d < 10 && digit_char(d) == nat_text(w)[0];
                }
            }
            return None;
        },
    };
    let mut v: u64 = first;
    let mut i: usize = pos + 1;
    assert(chars@.subrange(pos as int, i as int) =~= seq![chars@[pos as int]]);
    if first == 0 {
        proof {
            assert(nat_text(0) == seq!['0']);
            assert forall|w: nat| #![trigger nat_text(w)] w <= MAX_NOTATION_NUMBER && written_at(chars@, pos as int, w)
                implies Some((0u64, i)) == Some((w as u64, (pos + nat_text(w).len()) as usize)) by {
                lemma_nat_text_digits(w);
                assert(chars@.subrange(pos as int, pos as int + nat_text(w).len())[0] == chars@[pos as int]);
                assert(chars@[pos as int] == '0');
            }
        }
        return Some((0, i));
    }
    proof {
        let t = chars@.subrange(pos as int, i as int);
        assert(t =~= seq![digit_char(first as int)]);
        assert(t.drop_last() =~= Seq::<char>::empty());
        assert(digits_value(Seq::<char>::empty()) == 0);
        lemma_char_digit(first as nat);
        assert(digits_value(t) == digits_value(t.drop_last()) * 10 + char_digit(t.last()));
    }
    while i < chars.len()
        invariant
            pos < i <= chars@.len(),
            1 <= v <= MAX_NOTATION_NUMBER,
            nat_text(v as nat) == chars@.subrange(pos as int, i as int),
            digits_value(chars@.subrange(pos as int, i as int)) == v,
            forall|w: nat| #![trigger nat_text(w)] w <= MAX_NOTATION_NUMBER && written_at(chars@, pos as int, w) ==>
                pos + nat_text(w).len() >= i && chars@.subrange(pos as int, i as int) == nat_text(w).subrange(0, i - pos),
        decreases chars.len() - i,
    {
        let d = match digit_value(chars[i]) {
            Some(d) => d,
            None => {
                proof {
                    assert forall|w: nat| #![trigger nat_text(w)] w <= MAX_NOTATION_NUMBER && written_at(chars@, pos as int, w)
                        implies Some((v, i)) == Some((w as u64, (pos + nat_text(w).len()) as usize)) by {
                        lemma_nat_text_digits(w);
                        let l = nat_text(w).len() as int;
                        if pos + l > i {
                            assert(chars@.subrange(pos as int, pos + l)[i - pos] == chars@[i as int]);
                            assert(is_digit(nat_text(w)[i - pos]));
                        }
                        assert(nat_text(w).subrange(0, i - pos) =~= nat_text(w));
                        lemma_digits_value(w);
                        lemma_digits_value(v as nat);
                    }
                }
                return Some((v, i));
            },
        };
        proof {
            assert(chars@.subrange(pos as int, i as int + 1) =~= chars@.subrange(pos as int, i as int).push(chars@[i as int]));
            assert(chars@.subrange(pos as int, i as int + 1).drop_last() =~= chars@.subrange(pos as int, i as int));
            lemma_char_digit(d as nat);
        }
        if v > (MAX_NOTATION_NUMBER - d) / 10 {
            proof {
                assert forall|w: nat| #![trigger nat_text(w)] w <= MAX_NOTATION_NUMBER && written_at(chars@, pos as int, w) implies false by {
                    lemma_nat_text_digits(w);
                    let l = nat_text(w).len() as int;
                    if pos + l == i {
                        assert(!is_digit(chars@[i as int]));
                        assert(is_digit(digit_char(d as int)));
                    } else {
                        assert(chars@.subrange(pos as int, pos + l)[i - pos] == chars@[i as int]);
                        assert(chars@.subrange(pos as int, i as int + 1) =~= nat_text(w).subrange(0, i - pos + 1));
                        lemma_digits_prefix(nat_text(w), i - pos + 1);
                        lemma_digits_value(w);
                        assert(digits_value(chars@.subrange(pos as int, i as int + 1)) == v * 10 + d);
                    }
                }
            }
            return None;
        }
        proof { lemma_nat_text_step(v as nat, d as nat); }
        v = v * 10 + d;
        proof {
            assert forall|w: nat| #![trigger nat_text(w)] w <= MAX_NOTATION_NUMBER && written_at(chars@, pos as int, w) implies
                pos + nat_text(w).len() >= i + 1 && chars@.subrange(pos as int, i as int + 1) == nat_text(w).subrange(0, i + 1 - pos) by {
                let l = nat_text(w).len() as int;
                if pos + l == i {
                    assert(!is_digit(chars@[i as int]));
                    assert(is_digit(digit_char(d as int)));
                }
                assert(chars@.subrange(pos as int, pos + l)[i - pos] == chars@[i as int]);
                assert(chars@.subrange(pos as int, i as int + 1) =~= nat_text(w).subrange(0, i + 1 - pos));
            }
        }
        i = i + 1;
    }
    proof {
        assert forall|w: nat| #![trigger nat_text(w)] w <= MAX_NOTATION_NUMBER && written_at(chars@, pos as int, w)
            implies Some((v, i)) == Some((w as u64, (pos + nat_text(w).len()) as usize)) by {
            assert(nat_text(w).subrange(0, i - pos) =~= nat_text(w));
            lemma_digits_value(w);
        }
    }
    Some((v, i))
}

/// The turn that `chars` write, when they write one exactly: each player
/// number at least 1, and nothing after the `;`.
#[verifier::rlimit(100)]
pub fn parse_turn_chars(chars: &Vec<char>) -> (r: Option<SimpleTurn>)
    ensures
        r matches Some(t) ==> turn_text(t.moves@) == chars@ && t.moves@.len() >= 1,
        forall|ms: Seq<PlayerMove>| notation_fits(ms) && turn_text(ms) == chars@ ==> (r matches Some(t) && t.moves@ == ms),
{
    let mut moves: Vec<PlayerMove> = Vec::new();
    let mut pos: usize = 0;
    loop
        invariant
            pos <= chars@.len(),
            moves@.len() == 0 ==> pos == 0,
            moves@.len() > 0 ==> pos < chars@.len() && chars@[pos as int] == ' '
                && moves_text(moves@) == chars@.subrange(0, pos as int),
            forall|ms: Seq<PlayerMove>| notation_fits(ms) && turn_text(ms) == chars@ ==>
                moves@.len() < ms.len() && moves@ == ms.subrange(0, moves@.len() as int),
        decreases chars@.len() - pos,
    {
        let start = if moves.len() == 0 {
            0
        } else {
            let len = chars.len();
            assert(pos < len);
            pos + 1
        };
        proof {
            assert forall|ms: Seq<PlayerMove>| notation_fits(ms) && turn_text(ms) == chars@ implies
                start == (if moves@.len() == 0 { 0 } else { moves_text(ms.subrange(0, moves@.len() as int)).len() + 1 }) by {
                if moves@.len() > 0 {
                    assert(moves_text(moves@).len() == pos);
                }
            }
            assert forall|ms: Seq<PlayerMove>| notation_fits(ms) && turn_text(ms) == chars@ implies {
                let k = moves@.len() as int;
                let mv = ms[k];
                let l1 = nat_text((mv.player_id.0 + 1) as nat).len() as int;
                let l2 = nat_text(mv.dest_room_id.0 as nat).len() as int;
                let end = start + l1 + 1 + l2;
                &&& written_at(chars@, start as int, (mv.player_id.0 + 1) as nat)
                &&& chars@[start + l1] == '@'
                &&& written_at(chars@, start + l1 + 1, mv.dest_room_id.0 as nat)
                &&& end < chars@.len()
                &&& chars@[end] == (if k + 1 < ms.len() { ' ' } else { ';' })
                &&& (k + 1 == ms.len() ==> end + 1 == chars@.len())
                &&& 0 <= mv.player_id.0 < MAX_NOTATION_NUMBER
                &&& 0 <= mv.dest_room_id.0 <= MAX_NOTATION_NUMBER
            } by {
                lemma_reader_step(chars@, ms, moves@.len() as int, start as int);
            }
        }
        let (number, at) = match read_number(chars, start) {
            Some(x) => x,
            None => return None,
        };
        if at >= chars.len() || chars[at] != '@' || number == 0 {
            return None;
        }
        let (room, end) = match read_number(chars, at + 1) {
            Some(x) => x,
            None => return None,
        };
        if end >= chars.len() {
            return None;
        }
        let mv = PlayerMove::new(PlayerId((number - 1) as i32), RoomId(room as i32));
        let ghost before = moves@;
        moves.push(mv);
        proof {
            assert forall|ms: Seq<PlayerMove>| notation_fits(ms) && turn_text(ms) == chars@ implies
                moves@ == ms.subrange(0, moves@.len() as int) && chars@[end as int] == (if moves@.len() < ms.len() { ' ' } else { ';' }) by {
                let k = before.len() as int;
                assert(ms[k] == mv);
                assert(moves@ =~= ms.subrange(0, k + 1));
            }
        }
        proof {
            assert(move_text(mv) == nat_text(number as nat) + seq!['@'] + nat_text(room as nat));
            assert(move_text(mv) =~= chars@.subrange(start as int, end as int));
            if before.len() == 0 {
                assert(moves@ =~= seq![mv]);
                assert(moves_text(moves@) == move_text(mv));
                assert(chars@.subrange(0, end as int) =~= chars@.subrange(start as int, end as int));
            } else {
                assert(moves@.drop_last() =~= before);
                assert(moves_text(moves@) == moves_text(before) + seq![' '] + move_text(mv));
                assert(chars@.subrange(0, end as int) =~= chars@.subrange(0, pos as int) + seq![' '] + chars@.subrange(start as int, end as int));
            }
        }
        if chars[end] == ';' {
            if end + 1 == chars.len() {
                assert(chars@ =~= chars@.subrange(0, end as int) + seq![';']);
                return Some(SimpleTurn::new(moves));
            }
            return None;
        } else if chars[end] == ' ' {
            pos = end;
        } else {
            return None;
        }
    }
}

/// The turn that `text` writes, when it writes one exactly.
pub fn parse_turn(text: &str) -> (r: Option<SimpleTurn>)
    ensures
        r matches Some(t) ==> turn_text(t.moves@) == text@,
        forall|ms: Seq<PlayerMove>| notation_fits(ms) && turn_text(ms) == text@ ==> (r matches Some(t) && t.moves@ == ms),
{
    let n = text.unicode_len();
    let mut chars: Vec<char> = Vec::new();
    let mut i: usize = 0;
    while i < n
        invariant
            n == text@.len(),
            i <= n,
            chars@ == text@.subrange(0, i as int),
        decreases n - i,
    {
        chars.push(text.get_char(i));
        assert(chars@ =~= text@.subrange(0, i as int + 1));
        i = i + 1;
    }
    assert(chars@ =~= text@);
    parse_turn_chars(&chars)
}

pub open spec fn is_digit(c: char) -> bool {
    exists|d: int| 0 <= d < 10 && digit_char(d) == c
}

/// Every character of `nat_text(v)` is a digit, and it starts with `0` only
/// when it is `0`.
proof fn lemma_nat_text_digits(v: nat)
    ensures
        nat_text(v).len() >= 1,
        forall|i: int| 0 <= i < nat_text(v).len() ==> is_digit(#[trigger] nat_text(v)[i]),
        v >= 1 ==> nat_text(v)[0] != '0',
        v == 0 ==> nat_text(v) == seq!['0'],
    decreases v,
{
    if v < 10 {
        assert(is_digit(digit_char(v as int)));
    } else {
        lemma_nat_text_digits(v / 10);
        let t = nat_text(v);
        assert(t == nat_text(v / 10) + seq![digit_char((v % 10) as int)]);
        assert forall|i: int| 0 <= i < t.len() implies is_digit(#[trigger] t[i]) by {
            if i < nat_text(v / 10).len() {
                assert(t[i] == nat_text(v / 10)[i]);
            } else {
                assert(is_digit(digit_char((v % 10) as int)));
            }
        }
        assert(t[0] == nat_text(v / 10)[0]);
    }
}

/// `nat_text(v)` and `nat_text(v / 10)` are related by the last digit.
proof fn lemma_nat_text_last(v: nat)
    requires
        v >= 10,
    ensures
        nat_text(v).drop_last() == nat_text(v / 10),
        nat_text(v).last() == digit_char((v % 10) as int),
{
    assert(nat_text(v).drop_last() =~= nat_text(v / 10));
}

proof fn lemma_digit_char_injective(a: int, b: int)
    requires
        0 <= a < 10,
        0 <= b < 10,
        digit_char(a) == digit_char(b),
    ensures
        a == b,
{
}

/// The number a run of digits writes.
pub open spec fn digits_value(s: Seq<char>) -> nat
    decreases s.len(),
{
    if s.len() == 0 {
        0
    } else {
        digits_value(s.drop_last()) * 10 + char_digit(s.last())
    }
}

/// The value of a digit character.
pub open spec fn char_digit(c: char) -> nat {
    choose|d: nat| d < 10 && digit_char(d as int) == c
}

proof fn lemma_char_digit(d: nat)
    requires
        d < 10,
    ensures
        char_digit(digit_char(d as int)) == d,
{
    let c = digit_char(d as int);
    assert(exists|e: nat| e < 10 && digit_char(e as int) == c);
    let e = char_digit(c);
    lemma_digit_char_injective(e as int, d as int);
}

/// Reading `nat_text(v)` back gives `v`.
proof fn lemma_digits_value(v: nat)
    ensures
        digits_value(nat_text(v)) == v,
    decreases v,
{
    if v < 10 {
        let t = seq![digit_char(v as int)];
        assert(t.drop_last() =~= Seq::<char>::empty());
        assert(digits_value(Seq::<char>::empty()) == 0);
        lemma_char_digit(v);
        assert(digits_value(t) == digits_value(t.drop_last()) * 10 + char_digit(t.last()));
    } else {
        lemma_nat_text_last(v);
        lemma_digits_value(v / 10);
        lemma_char_digit(v % 10);
        let t = nat_text(v);
        assert(digits_value(t) == digits_value(t.drop_last()) * 10 + char_digit(t.last()));
        assert((v / 10) * 10 + v % 10 == v) by (nonlinear_arith);
    }
}

/// A prefix of a run of digits is worth no more than the run.
proof fn lemma_digits_prefix(s: Seq<char>, k: int)
    requires
        0 <= k <= s.len(),
    ensures
        digits_value(s.subrange(0, k)) <= digits_value(s),
    decreases s.len() - k,
{
    if k < s.len() {
        lemma_digits_prefix(s, k + 1);
        let t = s.subrange(0, k + 1);
        assert(t.drop_last() =~= s.subrange(0, k));
        assert(digits_value(t) == digits_value(t.drop_last()) * 10 + char_digit(t.last()));
        let x = digits_value(s.subrange(0, k));
        assert(x <= x * 10 + char_digit(t.last())) by (nonlinear_arith);
    } else {
        assert(s.subrange(0, k) =~= s);
    }
}

/// Moves that the notation can write: at least one, with player and room
/// numbers within `MAX_NOTATION_NUMBER`.
pub open spec fn notation_fits(ms: Seq<PlayerMove>) -> bool {
    &&& ms.len() >= 1
    &&& forall|k: int| 0 <= k < ms.len() ==> 0 <= #[trigger] ms[k].player_id.0 < MAX_NOTATION_NUMBER
    &&& forall|k: int| 0 <= k < ms.len() ==> 0 <= #[trigger] ms[k].dest_room_id.0 <= MAX_NOTATION_NUMBER
}

/// The text of the first `j` moves begins the text of all of them, and a
/// space follows it when more moves come.
proof fn lemma_moves_prefix(ms: Seq<PlayerMove>, j: int)
    requires
        0 <= j <= ms.len(),
    ensures
        moves_text(ms.subrange(0, j)).len() <= moves_text(ms).len(),
        moves_text(ms).subrange(0, moves_text(ms.subrange(0, j)).len() as int) == moves_text(ms.subrange(0, j)),
        1 <= j < ms.len() ==> moves_text(ms.subrange(0, j)).len() < moves_text(ms).len()
            && moves_text(ms)[moves_text(ms.subrange(0, j)).len() as int] == ' ',
    decreases ms.len(),
{
    if j == ms.len() {
        assert(ms.subrange(0, j) =~= ms);
        assert(moves_text(ms).subrange(0, moves_text(ms).len() as int) =~= moves_text(ms));
    } else {
        let p = ms.drop_last();
        lemma_moves_prefix(p, j);
        assert(p.subrange(0, j) =~= ms.subrange(0, j));
        let tp = moves_text(p);
        let t = moves_text(ms);
        if ms.len() >= 2 {
            assert(t == tp + seq![' '] + move_text(ms.last()));
            assert(t.subrange(0, tp.len() as int) =~= tp);
            let l = moves_text(ms.subrange(0, j)).len() as int;
            assert(t.subrange(0, l) =~= tp.subrange(0, l));
            if j == ms.len() - 1 {
                assert(p.subrange(0, j) =~= p);
                assert(tp.subrange(0, tp.len() as int) =~= tp);
            }
        } else {
            assert(j == 0);
            assert(ms.subrange(0, 0) =~= Seq::<PlayerMove>::empty());
        }
    }
}

/// What one step of the reader meets when `chars` write the moves `ms` and
/// the first `k` of them are read.
proof fn lemma_reader_step(chars: Seq<char>, ms: Seq<PlayerMove>, k: int, start: int)
    requires
        notation_fits(ms),
        chars == turn_text(ms),
        0 <= k < ms.len(),
        start == if k == 0 { 0 } else { moves_text(ms.subrange(0, k)).len() + 1 },
    ensures
        ({
            let mv = ms[k];
            let l1 = nat_text((mv.player_id.0 + 1) as nat).len() as int;
            let l2 = nat_text(mv.dest_room_id.0 as nat).len() as int;
            let end = start + l1 + 1 + l2;
            &&& written_at(chars, start, (mv.player_id.0 + 1) as nat)
            &&& chars[start + l1] == '@'
            &&& written_at(chars, start + l1 + 1, mv.dest_room_id.0 as nat)
            &&& end < chars.len()
            &&& end == moves_text(ms.subrange(0, k + 1)).len()
            &&& chars[end] == (if k + 1 < ms.len() { ' ' } else { ';' })
            &&& (k + 1 == ms.len() ==> end + 1 == chars.len())
        }),
{
    let mv = ms[k];
    let pid = mv.player_id.0 as int;
    let room = mv.dest_room_id.0 as int;
    let n1 = nat_text((pid + 1) as nat);
    let n2 = nat_text(room as nat);
    let l1 = n1.len() as int;
    let l2 = n2.len() as int;
    assert(move_text(mv) == n1 + seq!['@'] + n2);
    let pre = ms.subrange(0, k);
    let cur = ms.subrange(0, k + 1);
    assert(cur.drop_last() =~= pre);
    assert(cur.last() == mv);
    let tpre = moves_text(pre);
    let tcur = moves_text(cur);
    if k == 0 {
        assert(cur =~= seq![mv]);
        assert(tcur == move_text(mv));
    } else {
        assert(tcur == tpre + seq![' '] + move_text(mv));
    }
    let head = tcur.subrange(0, start);
    assert(head.len() == start);
    assert(tcur =~= head + n1 + seq!['@'] + n2);
    assert(tcur.subrange(start, start + l1) =~= n1);
    assert(tcur[start + l1] == '@');
    assert(tcur.subrange(start + l1 + 1, start + l1 + 1 + l2) =~= n2);
    lemma_moves_prefix(ms, k + 1);
    let all = moves_text(ms);
    assert(chars == all + seq![';']);
    let end = start + l1 + 1 + l2;
    assert(end == tcur.len());
    assert(all.subrange(0, end) == tcur);
    assert(chars.subrange(0, end) =~= tcur);
    assert(chars.subrange(start, start + l1) =~= tcur.subrange(start, start + l1));
    assert(chars[start + l1] == tcur[start + l1]);
    assert(chars.subrange(start + l1 + 1, end) =~= tcur.subrange(start + l1 + 1, start + l1 + 1 + l2));
    lemma_nat_text_digits((pid + 1) as nat);
    lemma_nat_text_digits(room as nat);
    if k + 1 < ms.len() {
        assert(chars[end] == all[end]);
    } else {
        assert(cur =~= ms);
        assert(chars[end] == ';');
    }
}

} // verus!
