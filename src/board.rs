//! The board: rooms, adjacency and sight matrices, distances and the cyclic
//! order of room ids.

use vstd::prelude::*;
use crate::distance::{MAX_DIM, adjacency_to_distance, cell, relaxed, square, supported};
use crate::room::{Room, RoomId};
use crate::wing::Wing;
use crate::text::push_int;

verus! {

/// Largest room id a board accepts.
pub const MAX_ROOM_ID: i32 = 4000;

/// The description of a board as it is stored: rooms, wings and the candidate
/// start rooms of each role, in order of preference.
#[derive(Clone, Debug)]
pub struct BoardSpecification {
    pub name: String,
    pub player_start_room_ids: Vec<RoomId>,
    pub doctor_start_room_ids: Vec<RoomId>,
    pub cat_start_room_ids: Vec<RoomId>,
    pub dog_start_room_ids: Vec<RoomId>,
    pub wings: Vec<Wing>,
    pub rooms: Vec<Room>,
}

#[derive(Clone, Debug)]
pub struct Board {
    pub name: String,
    pub rooms: Vec<Room>,
    /// Ids of all rooms, ascending.
    pub room_ids: Vec<RoomId>,
    /// Indexed twice by room id; true on the diagonal of every room.
    pub adjacency: Vec<Vec<bool>>,
    /// Indexed twice by room id; true on the diagonal of every room.
    pub sight: Vec<Vec<bool>>,
    /// Indexed twice by room id.
    pub distance: Vec<Vec<i32>>,
    /// Indexed by room id: how many rooms the room lists as adjacent.
    pub adjacency_count: Vec<usize>,
    /// Indexed by an enemy room id, then by an allied stranger room id: true
    /// where a stranger there can approach the enemy unseen.
    pub stranger_loop_room_ids: Vec<Vec<bool>>,
    pub player_start_room_id: RoomId,
    pub doctor_start_room_id: RoomId,
    pub cat_start_room_id: RoomId,
    pub dog_start_room_id: RoomId,
    pub spec: Option<BoardSpecification>,
}

/// Strictly ascending ids.
pub open spec fn ascending(ids: Seq<RoomId>) -> bool {
    forall|a: int, b: int| 0 <= a < b < ids.len() ==> ids[a].0 < ids[b].0
}

/// Some room has id `i`.
pub open spec fn has_room(rooms: Seq<Room>, i: int) -> bool {
    exists|k: int| 0 <= k < rooms.len() && rooms[k].id.0 == i
}

/// The room with id `i` lists `j` as adjacent, or `i == j` names a room.
pub open spec fn lists_adjacent(rooms: Seq<Room>, i: int, j: int) -> bool {
    exists|k: int| 0 <= k < rooms.len() && rooms[k].id.0 == i && (i == j || rooms[k].adjacent@.contains(RoomId(j as i32)))
}

/// The room with id `i` lists `j` as visible, or `i == j` names a room.
pub open spec fn lists_visible(rooms: Seq<Room>, i: int, j: int) -> bool {
    exists|k: int| 0 <= k < rooms.len() && rooms[k].id.0 == i && (i == j || rooms[k].visible@.contains(RoomId(j as i32)))
}

/// One more than the largest room id, and at least 1.
pub open spec fn spec_dim(rooms: Seq<Room>) -> int
    decreases rooms.len(),
{
    if rooms.len() == 0 {
        1
    } else {
        let d = spec_dim(rooms.drop_last());
        if rooms.last().id.0 + 1 > d { rooms.last().id.0 + 1 } else { d }
    }
}

pub open spec fn ids_below(ids: Seq<RoomId>, dim: int) -> bool {
    forall|m: int| 0 <= m < ids.len() ==> 0 <= #[trigger] ids[m].0 < dim
}

/// What `Board::new` needs of its rooms: ids in range and distinct, and every
/// listed room within the matrices.
pub open spec fn rooms_buildable(rooms: Seq<Room>) -> bool {
    &&& forall|k: int| 0 <= k < rooms.len() ==> 0 <= #[trigger] rooms[k].id.0 <= MAX_ROOM_ID
    &&& forall|a: int, b: int| 0 <= a < b < rooms.len() ==> rooms[a].id != rooms[b].id
    &&& forall|k: int| 0 <= k < rooms.len() ==> ids_below(#[trigger] rooms[k].adjacent@, spec_dim(rooms))
    &&& forall|k: int| 0 <= k < rooms.len() ==> ids_below(#[trigger] rooms[k].visible@, spec_dim(rooms))
}

/// Position `k + delta` of the cyclic sequence `ids`.
pub open spec fn ring(ids: Seq<RoomId>, k: int, delta: int) -> RoomId {
    ids[(k + delta) % (ids.len() as int)]
}

/// Position of `r` in `ids`.
pub open spec fn index_of(ids: Seq<RoomId>, r: RoomId) -> int {
    choose|k: int| 0 <= k < ids.len() && ids[k] == r
}

proof fn lemma_dim_bounds(rooms: Seq<Room>)
    requires
        forall|k: int| 0 <= k < rooms.len() ==> 0 <= #[trigger] rooms[k].id.0 <= MAX_ROOM_ID,
    ensures
        1 <= spec_dim(rooms) <= MAX_ROOM_ID + 1,
        forall|k: int| 0 <= k < rooms.len() ==> #[trigger] rooms[k].id.0 < spec_dim(rooms),
    decreases rooms.len(),
{
    if rooms.len() > 0 {
        let p = rooms.drop_last();
        assert forall|k: int| 0 <= k < p.len() implies 0 <= #[trigger] p[k].id.0 <= MAX_ROOM_ID by {
            assert(p[k] == rooms[k]);
        }
        lemma_dim_bounds(p);
        assert forall|k: int| 0 <= k < rooms.len() implies #[trigger] rooms[k].id.0 < spec_dim(rooms) by {
            if k < p.len() {
                assert(p[k] == rooms[k]);
            }
        }
    }
}

fn compute_dim(rooms: &Vec<Room>) -> (dim: usize)
    requires
        forall|k: int| 0 <= k < rooms@.len() ==> 0 <= #[trigger] rooms@[k].id.0 <= MAX_ROOM_ID,
    ensures
        dim == spec_dim(rooms@),
        1 <= dim <= MAX_ROOM_ID + 1,
{
    let mut dim: usize = 1;
    let mut k: usize = 0;
    while k < rooms.len()
        invariant
            k <= rooms@.len(),
            forall|j: int| 0 <= j < rooms@.len() ==> 0 <= #[trigger] rooms@[j].id.0 <= MAX_ROOM_ID,
            dim == spec_dim(rooms@.subrange(0, k as int)),
            1 <= dim <= MAX_ROOM_ID + 1,
        decreases rooms.len() - k,
    {
        let id = rooms[k].id.0;
        assert(rooms@.subrange(0, k as int + 1).drop_last() =~= rooms@.subrange(0, k as int));
        if id as usize + 1 > dim {
            dim = id as usize + 1;
        }
        k = k + 1;
    }
    assert(rooms@.subrange(0, rooms@.len() as int) =~= rooms@);
    dim
}

fn bool_matrix(dim: usize) -> (m: Vec<Vec<bool>>)
    ensures
        square(m@, dim as int),
        forall|i: int, j: int| 0 <= i < dim && 0 <= j < dim ==> !cell(m@, i, j),
{
    let mut m: Vec<Vec<bool>> = Vec::new();
    let mut i: usize = 0;
    while i < dim
        invariant
            i <= dim,
            m@.len() == i,
            forall|a: int| 0 <= a < i ==> (#[trigger] m@[a])@.len() == dim,
            forall|a: int, b: int| 0 <= a < i && 0 <= b < dim ==> !cell(m@, a, b),
        decreases dim - i,
    {
        let mut row: Vec<bool> = Vec::new();
        let mut j: usize = 0;
        while j < dim
            invariant
                j <= dim,
                row@.len() == j,
                forall|b: int| 0 <= b < j ==> !row@[b],
            decreases dim - j,
        {
            row.push(false);
            j = j + 1;
        }
        let ghost before = m@;
        let ghost row_view = row@;
        m.push(row);
        proof {
            assert forall|a: int, b: int| 0 <= a <= i && 0 <= b < dim implies !cell(m@, a, b) by {
                if a < i {
                    assert(m@[a] == before[a]);
                    assert(!cell(before, a, b));
                } else {
                    assert(m@[a]@ == row_view);
                    assert(!row_view[b]);
                }
            }
        }
        i = i + 1;
    }
    m
}

/// Sets row `id` of `m` true at `id` and at every listed id.
fn mark_row(m: &mut Vec<Vec<bool>>, dim: usize, id: usize, ids: &Vec<RoomId>)
    requires
        square(old(m)@, dim as int),
        dim <= MAX_DIM,
        id < dim,
        ids_below(ids@, dim as int),
    ensures
        square(final(m)@, dim as int),
        forall|i: int, j: int| 0 <= i < dim && 0 <= j < dim ==>
            cell(final(m)@, i, j) == (cell(old(m)@, i, j) || (i == id && (i == j || ids@.contains(RoomId(j as i32))))),
{
    m[id][id] = true;
    let mut x: usize = 0;
    while x < ids.len()
        invariant
            x <= ids@.len(),
            id < dim,
            dim <= MAX_DIM,
            ids_below(ids@, dim as int),
            square(m@, dim as int),
            forall|i: int, j: int| 0 <= i < dim && 0 <= j < dim ==>
                cell(m@, i, j) == (cell(old(m)@, i, j) || (i == id && (i == j || ids@.subrange(0, x as int).contains(RoomId(j as i32))))),
        decreases ids.len() - x,
    {
        let target = ids[x].0 as usize;
        assert(0 <= ids@[x as int].0 < dim);
        let ghost before = m@;
        m[id][target] = true;
        proof {
            assert forall|i: int, j: int| 0 <= i < dim && 0 <= j < dim implies
                cell(m@, i, j) == (cell(old(m)@, i, j) || (i == id && (i == j || ids@.subrange(0, x as int + 1).contains(RoomId(j as i32))))) by {
                let p = ids@.subrange(0, x as int);
                let q = ids@.subrange(0, x as int + 1);
                assert(q =~= p.push(ids@[x as int]));
                if i == id && j == target as int {
                    assert(q[x as int] == RoomId(j as i32));
                    assert(q.contains(RoomId(j as i32)));
                } else if i == id {
                    assert(cell(m@, i, j) == cell(before, i, j));
                    if q.contains(RoomId(j as i32)) {
                        let w = choose|w: int| 0 <= w < q.len() && q[w] == RoomId(j as i32);
                        if w < x {
                            assert(p[w] == RoomId(j as i32));
                        }
                    }
                    if p.contains(RoomId(j as i32)) {
                        let w = choose|w: int| 0 <= w < p.len() && p[w] == RoomId(j as i32);
                        assert(q[w] == RoomId(j as i32));
                    }
                } else {
                    assert(m@[i] == before[i]);
                }
            }
        }
        x = x + 1;
    }
    assert(ids@.subrange(0, ids@.len() as int) =~= ids@);
}

/// The adjacent list of `room`, or its visible list.
pub open spec fn listed(room: Room, adjacent: bool) -> Seq<RoomId> {
    if adjacent { room.adjacent@ } else { room.visible@ }
}

pub open spec fn lists_among(rooms: Seq<Room>, n: int, adjacent: bool, i: int, j: int) -> bool {
    exists|k: int| 0 <= k < n && rooms[k].id.0 == i && (i == j || listed(rooms[k], adjacent).contains(RoomId(j as i32)))
}

/// The adjacency matrix (or the sight matrix) that `rooms` describe.
fn build_matrix(rooms: &Vec<Room>, dim: usize, adjacent: bool) -> (m: Vec<Vec<bool>>)
    requires
        rooms_buildable(rooms@),
        dim == spec_dim(rooms@),
    ensures
        square(m@, dim as int),
        forall|i: int, j: int| 0 <= i < dim && 0 <= j < dim ==>
            cell(m@, i, j) == lists_among(rooms@, rooms@.len() as int, adjacent, i, j),
{
    proof { lemma_dim_bounds(rooms@); }
    let mut m = bool_matrix(dim);
    let mut k: usize = 0;
    while k < rooms.len()
        invariant
            k <= rooms@.len(),
            rooms_buildable(rooms@),
            dim == spec_dim(rooms@),
            1 <= dim <= MAX_ROOM_ID + 1,
            forall|a: int| 0 <= a < rooms@.len() ==> #[trigger] rooms@[a].id.0 < spec_dim(rooms@),
            square(m@, dim as int),
            forall|i: int, j: int| 0 <= i < dim && 0 <= j < dim ==>
                cell(m@, i, j) == lists_among(rooms@, k as int, adjacent, i, j),
        decreases rooms.len() - k,
    {
        let id = rooms[k].id.0 as usize;
        assert(0 <= rooms@[k as int].id.0 < dim);
        let ghost before = m@;
        if adjacent {
            assert(ids_below(rooms@[k as int].adjacent@, dim as int));
            mark_row(&mut m, dim, id, &rooms[k].adjacent);
        } else {
            assert(ids_below(rooms@[k as int].visible@, dim as int));
            mark_row(&mut m, dim, id, &rooms[k].visible);
        }
        proof {
            assert forall|i: int, j: int| 0 <= i < dim && 0 <= j < dim implies
                cell(m@, i, j) == lists_among(rooms@, k as int + 1, adjacent, i, j) by {
                if lists_among(rooms@, k as int + 1, adjacent, i, j) {
                    let w = choose|w: int| 0 <= w < k as int + 1 && rooms@[w].id.0 == i && (i == j || listed(rooms@[w], adjacent).contains(RoomId(j as i32)));
                    if w < k {
                        assert(lists_among(rooms@, k as int, adjacent, i, j));
                    }
                }
                if lists_among(rooms@, k as int, adjacent, i, j) {
                    let w = choose|w: int| 0 <= w < k as int && rooms@[w].id.0 == i && (i == j || listed(rooms@[w], adjacent).contains(RoomId(j as i32)));
                    assert(lists_among(rooms@, k as int + 1, adjacent, i, j));
                }
                if i == id as int && (i == j || listed(rooms@[k as int], adjacent).contains(RoomId(j as i32))) {
                    assert(lists_among(rooms@, k as int + 1, adjacent, i, j));
                }
            }
        }
        k = k + 1;
    }
    m
}

/// The ids that some room has, ascending.
fn collect_room_ids(rooms: &Vec<Room>, dim: usize) -> (ids: Vec<RoomId>)
    requires
        rooms_buildable(rooms@),
        dim == spec_dim(rooms@),
    ensures
        ascending(ids@),
        ids_below(ids@, dim as int),
        forall|i: int| 0 <= i < dim ==> (ids@.contains(RoomId(i as i32)) <==> has_room(rooms@, i)),
{
    proof { lemma_dim_bounds(rooms@); }
    let mut present: Vec<bool> = Vec::new();
    let mut i: usize = 0;
    while i < dim
        invariant
            i <= dim,
            present@.len() == i,
            forall|a: int| 0 <= a < i ==> !present@[a],
        decreases dim - i,
    {
        present.push(false);
        i = i + 1;
    }
    let mut k: usize = 0;
    while k < rooms.len()
        invariant
            k <= rooms@.len(),
            present@.len() == dim,
            dim <= MAX_ROOM_ID + 1,
            forall|a: int| 0 <= a < rooms@.len() ==> 0 <= #[trigger] rooms@[a].id.0 < dim,
            forall|a: int| 0 <= a < dim ==> (present@[a] <==> exists|b: int| 0 <= b < k && rooms@[b].id.0 == a),
        decreases rooms.len() - k,
    {
        let id = rooms[k].id.0 as usize;
        assert(0 <= rooms@[k as int].id.0 < dim);
        present.set(id, true);
        proof {
            assert forall|a: int| 0 <= a < dim implies (present@[a] <==> exists|b: int| 0 <= b < k + 1 && rooms@[b].id.0 == a) by {
                if a == id as int {
                    assert(rooms@[k as int].id.0 == a);
                } else {
                    if exists|b: int| 0 <= b < k + 1 && rooms@[b].id.0 == a {
                        let b = choose|b: int| 0 <= b < k + 1 && rooms@[b].id.0 == a;
                        assert(b < k);
                    }
                }
            }
        }
        k = k + 1;
    }
    assert forall|a: int| 0 <= a < dim implies (present@[a] <==> has_room(rooms@, a)) by {
        if present@[a] {
            let b = choose|b: int| 0 <= b < rooms@.len() && rooms@[b].id.0 == a;
        }
        if has_room(rooms@, a) {
            let b = choose|b: int| 0 <= b < rooms@.len() && rooms@[b].id.0 == a;
        }
    }
    let mut ids: Vec<RoomId> = Vec::new();
    let mut i: usize = 0;
    while i < dim
        invariant
            i <= dim,
            present@.len() == dim,
            forall|a: int| 0 <= a < dim ==> (present@[a] <==> has_room(rooms@, a)),
            dim <= MAX_ROOM_ID + 1,
            ascending(ids@),
            forall|m: int| 0 <= m < ids@.len() ==> 0 <= #[trigger] ids@[m].0 < i,
            forall|a: int| 0 <= a < i ==> (ids@.contains(RoomId(a as i32)) <==> present@[a]),
        decreases dim - i,
    {
        let ghost before = ids@;
        if present[i] {
            ids.push(RoomId(i as i32));
        }
        proof {
            assert forall|a: int| 0 <= a < i + 1 implies (ids@.contains(RoomId(a as i32)) <==> present@[a]) by {
                if a < i {
                    if ids@.contains(RoomId(a as i32)) {
                        let w = choose|w: int| 0 <= w < ids@.len() && ids@[w] == RoomId(a as i32);
                        if w < before.len() {
                            assert(before[w] == ids@[w]);
                        }
                    }
                    if before.contains(RoomId(a as i32)) {
                        let w = choose|w: int| 0 <= w < before.len() && before[w] == RoomId(a as i32);
                        assert(ids@[w] == before[w]);
                    }
                } else {
                    if present@[a] {
                        assert(ids@[ids@.len() - 1] == RoomId(a as i32));
                    }
                    if ids@.contains(RoomId(a as i32)) {
                        let w = choose|w: int| 0 <= w < ids@.len() && ids@[w] == RoomId(a as i32);
                        if w < before.len() {
                            assert(before[w].0 < i);
                        }
                    }
                }
            }
        }
        i = i + 1;
    }
    ids
}

/// `x` modulo `modulus`, never negative.
pub fn positive_remainder(x: i64, modulus: usize) -> (r: usize)
    requires
        0 < modulus <= MAX_DIM,
    ensures
        r as int == (x as int) % (modulus as int),
        r < modulus,
{
    let m = modulus as i64;
    let v = x.checked_rem_euclid(m);
    match v {
        Some(v) => v as usize,
        None => {
            assert(false);
            0
        },
    }
}

proof fn lemma_ascending_index(ids: Seq<RoomId>, k: int)
    requires
        ascending(ids),
        0 <= k < ids.len(),
    ensures
        index_of(ids, ids[k]) == k,
{
    assert(0 <= k < ids.len() && ids[k] == ids[k]);
    let j = index_of(ids, ids[k]);
    if j < k {
        assert(ids[j].0 < ids[k].0);
    } else if j > k {
        assert(ids[k].0 < ids[j].0);
    }
}

/// Position of `room_id` in the ascending `room_ids`.
pub fn position_of(room_id: RoomId, room_ids: &[RoomId]) -> (k: usize)
    requires
        room_ids@.contains(room_id),
        ascending(room_ids@),
    ensures
        k < room_ids@.len(),
        room_ids@[k as int] == room_id,
        k as int == index_of(room_ids@, room_id),
{
    let mut k: usize = 0;
    while k < room_ids.len()
        invariant
            k <= room_ids@.len(),
            ascending(room_ids@),
            room_ids@.contains(room_id),
            forall|j: int| 0 <= j < k ==> room_ids@[j] != room_id,
        decreases room_ids.len() - k,
    {
        if room_ids[k] == room_id {
            proof { lemma_ascending_index(room_ids@, k as int); }
            return k;
        }
        k = k + 1;
    }
    assert(false);
    0
}

/// The id with the same content as `room_id` in a board's matrices.
pub open spec fn idx(r: RoomId) -> int {
    r.0 as int
}

/// Whether room `ke` of the cyclic order is a room that an enemy reaches two
/// steps early: its neighbours in the order are at most one step apart.
pub open spec fn enemy_at(ids: Seq<RoomId>, dist: Seq<Vec<i32>>, ke: int) -> bool {
    cell(dist, idx(ring(ids, ke, -1)), idx(ring(ids, ke, 1))) <= 1
}

/// Whether a stranger in room `ka` of the cyclic order can cut a corner unseen.
pub open spec fn ally_at(ids: Seq<RoomId>, dist: Seq<Vec<i32>>, sight: Seq<Vec<bool>>, ka: int) -> bool {
    cell(dist, idx(ring(ids, ka, -1)), idx(ring(ids, ka, 2))) <= 1
        && !cell(sight, idx(ids[ka]), idx(ring(ids, ka, 2)))
}

/// A stranger in room `ka` can approach an enemy in room `ke` unseen.
pub open spec fn ambush(ids: Seq<RoomId>, dist: Seq<Vec<i32>>, sight: Seq<Vec<bool>>, ke: int, ka: int) -> bool {
    &&& enemy_at(ids, dist, ke)
    &&& ally_at(ids, dist, sight, ka)
    &&& !cell(sight, idx(ids[ka]), idx(ids[ke]))
    &&& !cell(sight, idx(ids[ka]), idx(ring(ids, ke, -1)))
    &&& ids[ka] != ring(ids, ke, -2)
}

fn distance_to_stranger_loop_info(room_ids: &Vec<RoomId>, dist: &Vec<Vec<i32>>, sight: &Vec<Vec<bool>>, dim: usize) -> (info: Vec<Vec<bool>>)
    requires
        1 <= dim <= MAX_DIM,
        square(dist@, dim as int),
        square(sight@, dim as int),
        ascending(room_ids@),
        ids_below(room_ids@, dim as int),
    ensures
        square(info@, dim as int),
        forall|ke: int, ka: int| 0 <= ke < room_ids@.len() && 0 <= ka < room_ids@.len() ==>
            cell(info@, idx(room_ids@[ke]), idx(room_ids@[ka])) == ambush(room_ids@, dist@, sight@, ke, ka),
        forall|i: int, j: int| 0 <= i < dim && 0 <= j < dim && cell(info@, i, j) ==>
            room_ids@.contains(RoomId(i as i32)) && room_ids@.contains(RoomId(j as i32)),
{
    let mut info = bool_matrix(dim);
    let n = room_ids.len();
    proof { lemma_ascending_fits(room_ids@, dim as int); }
    let mut ke: usize = 0;
    while ke < n
        invariant
            n == room_ids@.len(),
            n <= dim,
            1 <= dim <= MAX_DIM,
            ke <= n,
            square(dist@, dim as int),
            square(sight@, dim as int),
            square(info@, dim as int),
            ascending(room_ids@),
            ids_below(room_ids@, dim as int),
            forall|e: int, a: int| 0 <= e < n && 0 <= a < n && done(e, a, ke as int, 0) ==>
                cell(info@, idx(room_ids@[e]), idx(room_ids@[a])) == ambush(room_ids@, dist@, sight@, e, a),
            forall|i: int, j: int| 0 <= i < dim && 0 <= j < dim && cell(info@, i, j) ==>
                exists|e: int, a: int| 0 <= e < n && 0 <= a < n && done(e, a, ke as int, 0) && idx(room_ids@[e]) == i && idx(room_ids@[a]) == j,
        decreases n - ke,
    {
        let e_minus1 = room_ids[positive_remainder(ke as i64 - 1, n)];
        let e_minus2 = room_ids[positive_remainder(ke as i64 - 2, n)];
        let e_plus1 = room_ids[positive_remainder(ke as i64 + 1, n)];
        let e = room_ids[ke];
        let is_enemy = dist[e_minus1.0 as usize][e_plus1.0 as usize] <= 1;
        let mut ka: usize = 0;
        while ka < n
            invariant
                n == room_ids@.len(),
                n <= dim,
                1 <= dim <= MAX_DIM,
                ke < n,
                ka <= n,
                e == room_ids@[ke as int],
                e_minus1 == ring(room_ids@, ke as int, -1),
                e_minus2 == ring(room_ids@, ke as int, -2),
                is_enemy == enemy_at(room_ids@, dist@, ke as int),
                square(dist@, dim as int),
                square(sight@, dim as int),
                square(info@, dim as int),
                ascending(room_ids@),
                ids_below(room_ids@, dim as int),
                forall|e2: int, a: int| 0 <= e2 < n && 0 <= a < n && done(e2, a, ke as int, ka as int) ==>
                    cell(info@, idx(room_ids@[e2]), idx(room_ids@[a])) == ambush(room_ids@, dist@, sight@, e2, a),
                forall|i: int, j: int| 0 <= i < dim && 0 <= j < dim && cell(info@, i, j) ==>
                    exists|e2: int, a: int| 0 <= e2 < n && 0 <= a < n && done(e2, a, ke as int, ka as int) && idx(room_ids@[e2]) == i && idx(room_ids@[a]) == j,
            decreases n - ka,
        {
            let a = room_ids[ka];
            let a_minus1 = room_ids[positive_remainder(ka as i64 - 1, n)];
            let a_plus2 = room_ids[positive_remainder(ka as i64 + 2, n)];
            let is_ally = dist[a_minus1.0 as usize][a_plus2.0 as usize] <= 1 && !sight[a.0 as usize][a_plus2.0 as usize];
            let works = is_enemy && is_ally && !sight[a.0 as usize][e.0 as usize]
                && !sight[a.0 as usize][e_minus1.0 as usize] && a != e_minus2;
            let ghost before = info@;
            proof {
                assert(works == ambush(room_ids@, dist@, sight@, ke as int, ka as int));
                assert(0 <= e.0 < dim && 0 <= a.0 < dim);
            }
            if works {
                info[e.0 as usize][a.0 as usize] = true;
            }
            proof {
                lemma_ambush_step(room_ids@, dist@, sight@, before, info@, dim as int, ke as int, ka as int, works);
            }
            ka = ka + 1;
        }
        proof {
            assert forall|e2: int, a: int| 0 <= e2 < n && 0 <= a < n && done(e2, a, ke as int + 1, 0) implies
                cell(info@, idx(room_ids@[e2]), idx(room_ids@[a])) == ambush(room_ids@, dist@, sight@, e2, a) by {
                assert(done(e2, a, ke as int, n as int));
            }
            assert forall|i: int, j: int| 0 <= i < dim && 0 <= j < dim && cell(info@, i, j) implies
                exists|e2: int, a: int| 0 <= e2 < n && 0 <= a < n && done(e2, a, ke as int + 1, 0) && idx(room_ids@[e2]) == i && idx(room_ids@[a]) == j by {
                let (x, y) = choose|x: int, y: int| 0 <= x < n && 0 <= y < n && done(x, y, ke as int, n as int) && idx(room_ids@[x]) == i && idx(room_ids@[y]) == j;
                assert(done(x, y, ke as int + 1, 0));
            }
        }
        ke = ke + 1;
    }
    proof {
        assert forall|e2: int, a: int| 0 <= e2 < n && 0 <= a < n implies
            cell(info@, idx(room_ids@[e2]), idx(room_ids@[a])) == ambush(room_ids@, dist@, sight@, e2, a) by {
            assert(done(e2, a, n as int, 0));
        }
        assert forall|i: int, j: int| 0 <= i < dim && 0 <= j < dim && cell(info@, i, j) implies
            room_ids@.contains(RoomId(i as i32)) && room_ids@.contains(RoomId(j as i32)) by {
            let (e2, a) = choose|e2: int, a: int| 0 <= e2 < n && 0 <= a < n && done(e2, a, n as int, 0) && idx(room_ids@[e2]) == i && idx(room_ids@[a]) == j;
            assert(room_ids@[e2] == RoomId(i as i32));
            assert(room_ids@[a] == RoomId(j as i32));
        }
    }
    info
}

/// Pair (e, a) comes before pair (ke, ka) in row-major order.
pub open spec fn done(e: int, a: int, ke: int, ka: int) -> bool {
    e < ke || (e == ke && a < ka)
}

pub proof fn lemma_ascending_fits(ids: Seq<RoomId>, dim: int)
    requires
        dim >= 0,
        ascending(ids),
        ids_below(ids, dim),
    ensures
        ids.len() <= dim,
{
    if ids.len() > 0 {
        let last = ids.len() - 1;
        assert forall|m: int| 0 <= m < ids.len() implies #[trigger] ids[m].0 >= 0 by {
            assert(0 <= ids[m].0 < dim);
        }
        lemma_ascending_at_least(ids, last);
        assert(ids[last].0 >= last);
        assert(0 <= ids[last].0 < dim);
    }
}

proof fn lemma_ascending_at_least(ids: Seq<RoomId>, k: int)
    requires
        ascending(ids),
        forall|m: int| 0 <= m < ids.len() ==> #[trigger] ids[m].0 >= 0,
        0 <= k < ids.len(),
    ensures
        ids[k].0 >= k,
    decreases k,
{
    if k > 0 {
        lemma_ascending_at_least(ids, k - 1);
        assert(ids[k - 1].0 < ids[k].0);
    } else {
        assert(ids[0].0 >= 0);
    }
}

proof fn lemma_ambush_step(ids: Seq<RoomId>, dist: Seq<Vec<i32>>, sight: Seq<Vec<bool>>, before: Seq<Vec<bool>>, after: Seq<Vec<bool>>, dim: int, ke: int, ka: int, works: bool)
    requires
        ascending(ids),
        ids_below(ids, dim),
        0 <= ke < ids.len(),
        0 <= ka < ids.len(),
        square(before, dim),
        square(after, dim),
        works == ambush(ids, dist, sight, ke, ka),
        forall|i: int, j: int| 0 <= i < dim && 0 <= j < dim ==>
            cell(after, i, j) == if works && i == idx(ids[ke]) && j == idx(ids[ka]) { true } else { cell(before, i, j) },
        forall|e2: int, a: int| 0 <= e2 < ids.len() && 0 <= a < ids.len() && done(e2, a, ke, ka) ==>
            cell(before, idx(ids[e2]), idx(ids[a])) == ambush(ids, dist, sight, e2, a),
        forall|i: int, j: int| 0 <= i < dim && 0 <= j < dim && cell(before, i, j) ==>
            exists|e2: int, a: int| 0 <= e2 < ids.len() && 0 <= a < ids.len() && done(e2, a, ke, ka) && idx(ids[e2]) == i && idx(ids[a]) == j,
    ensures
        forall|e2: int, a: int| 0 <= e2 < ids.len() && 0 <= a < ids.len() && done(e2, a, ke, ka + 1) ==>
            cell(after, idx(ids[e2]), idx(ids[a])) == ambush(ids, dist, sight, e2, a),
        forall|i: int, j: int| 0 <= i < dim && 0 <= j < dim && cell(after, i, j) ==>
            exists|e2: int, a: int| 0 <= e2 < ids.len() && 0 <= a < ids.len() && done(e2, a, ke, ka + 1) && idx(ids[e2]) == i && idx(ids[a]) == j,
{
    assert forall|e2: int, a: int| 0 <= e2 < ids.len() && 0 <= a < ids.len() && done(e2, a, ke, ka + 1) implies
        cell(after, idx(ids[e2]), idx(ids[a])) == ambush(ids, dist, sight, e2, a) by {
        assert(0 <= ids[e2].0 < dim && 0 <= ids[a].0 < dim);
        if e2 == ke && a == ka {
            if !works {
                if cell(before, idx(ids[e2]), idx(ids[a])) {
                    let (x, y) = choose|x: int, y: int| 0 <= x < ids.len() && 0 <= y < ids.len() && done(x, y, ke, ka) && idx(ids[x]) == idx(ids[e2]) && idx(ids[y]) == idx(ids[a]);
                    lemma_ascending_injective(ids, x, e2);
                    lemma_ascending_injective(ids, y, a);
                }
            }
        } else {
            assert(done(e2, a, ke, ka));
            if idx(ids[e2]) == idx(ids[ke]) && idx(ids[a]) == idx(ids[ka]) {
                lemma_ascending_injective(ids, e2, ke);
                lemma_ascending_injective(ids, a, ka);
            }
            assert(cell(after, idx(ids[e2]), idx(ids[a])) == cell(before, idx(ids[e2]), idx(ids[a])));
        }
    }
    assert forall|i: int, j: int| 0 <= i < dim && 0 <= j < dim && cell(after, i, j) implies
        exists|e2: int, a: int| 0 <= e2 < ids.len() && 0 <= a < ids.len() && done(e2, a, ke, ka + 1) && idx(ids[e2]) == i && idx(ids[a]) == j by {
        if works && i == idx(ids[ke]) && j == idx(ids[ka]) {
            assert(done(ke, ka, ke, ka + 1));
        } else {
            let (x, y) = choose|x: int, y: int| 0 <= x < ids.len() && 0 <= y < ids.len() && done(x, y, ke, ka) && idx(ids[x]) == i && idx(ids[y]) == j;
            assert(done(x, y, ke, ka + 1));
        }
    }
}

proof fn lemma_ascending_injective(ids: Seq<RoomId>, x: int, y: int)
    requires
        ascending(ids),
        0 <= x < ids.len(),
        0 <= y < ids.len(),
        ids[x].0 == ids[y].0,
    ensures
        x == y,
{
    if x < y {
        assert(ids[x].0 < ids[y].0);
    } else if y < x {
        assert(ids[y].0 < ids[x].0);
    }
}

fn adjacency_counts(rooms: &Vec<Room>, dim: usize) -> (counts: Vec<usize>)
    requires
        rooms_buildable(rooms@),
        dim == spec_dim(rooms@),
    ensures
        counts@.len() == dim,
        forall|k: int| 0 <= k < rooms@.len() ==> counts@[#[trigger] rooms@[k].id.0 as int] == rooms@[k].adjacent@.len(),
        forall|i: int| 0 <= i < dim && !has_room(rooms@, i) ==> counts@[i] == 0,
{
    proof { lemma_dim_bounds(rooms@); }
    let mut counts: Vec<usize> = Vec::new();
    let mut i: usize = 0;
    while i < dim
        invariant
            i <= dim,
            counts@.len() == i,
            forall|a: int| 0 <= a < i ==> counts@[a] == 0,
        decreases dim - i,
    {
        counts.push(0);
        i = i + 1;
    }
    let mut k: usize = 0;
    while k < rooms.len()
        invariant
            k <= rooms@.len(),
            counts@.len() == dim,
            rooms_buildable(rooms@),
            forall|a: int| 0 <= a < rooms@.len() ==> 0 <= #[trigger] rooms@[a].id.0 < dim,
            forall|a: int| 0 <= a < k ==> counts@[#[trigger] rooms@[a].id.0 as int] == rooms@[a].adjacent@.len(),
            forall|x: int| 0 <= x < dim && !(exists|a: int| 0 <= a < k && rooms@[a].id.0 == x) ==> counts@[x] == 0,
        decreases rooms.len() - k,
    {
        let id = rooms[k].id.0 as usize;
        assert(0 <= rooms@[k as int].id.0 < dim);
        counts.set(id, rooms[k].adjacent.len());
        proof {
            assert forall|a: int| 0 <= a < k + 1 implies counts@[#[trigger] rooms@[a].id.0 as int] == rooms@[a].adjacent@.len() by {
                if a < k {
                    assert(rooms@[a].id != rooms@[k as int].id);
                }
            }
            assert forall|x: int| 0 <= x < dim && !(exists|a: int| 0 <= a < k + 1 && rooms@[a].id.0 == x) implies counts@[x] == 0 by {
                assert(rooms@[k as int].id.0 != x);
                if exists|a: int| 0 <= a < k && rooms@[a].id.0 == x {
                    let a = choose|a: int| 0 <= a < k && rooms@[a].id.0 == x;
                    assert(0 <= a < k + 1 && rooms@[a].id.0 == x);
                }
            }
        }
        k = k + 1;
    }
    counts
}

impl Board {
    /// Side of the square matrices.
    pub open spec fn dim(&self) -> int {
        self.adjacency@.len() as int
    }

    /// Whether `r` indexes the matrices.
    pub open spec fn in_range(&self, r: RoomId) -> bool {
        0 <= r.0 < self.dim()
    }

    pub open spec fn wf(&self) -> bool {
        let dim = self.dim();
        &&& 1 <= dim <= MAX_DIM
        &&& square(self.adjacency@, dim)
        &&& square(self.sight@, dim)
        &&& square(self.distance@, dim)
        &&& square(self.stranger_loop_room_ids@, dim)
        &&& self.adjacency_count@.len() == dim
        &&& ascending(self.room_ids@)
        &&& ids_below(self.room_ids@, dim)
        &&& supported(self.adjacency@, self.distance@, dim)
        &&& relaxed(self.distance@, dim)
        &&& forall|a: int, b: int| 0 <= a < b < self.rooms@.len() ==> self.rooms@[a].id != self.rooms@[b].id
        &&& forall|k: int| 0 <= k < self.rooms@.len() ==> self.room_ids@.contains(#[trigger] self.rooms@[k].id)
        &&& forall|m: int| 0 <= m < self.room_ids@.len() ==> has_room(self.rooms@, (#[trigger] self.room_ids@[m]).0 as int)
    }

    pub open spec fn spec_dist(&self, a: RoomId, b: RoomId) -> int {
        cell(self.distance@, a.0 as int, b.0 as int) as int
    }

    pub open spec fn spec_sees(&self, a: RoomId, b: RoomId) -> bool {
        cell(self.sight@, a.0 as int, b.0 as int)
    }

    /// Builds the matrices, the ascending id list, the distances and the
    /// ambush table of the rooms.
    pub fn new(
        name: &str,
        rooms: Vec<Room>,
        player_start_room_id: RoomId,
        doctor_start_room_id: RoomId,
        cat_start_room_id: RoomId,
        dog_start_room_id: RoomId,
        spec: Option<BoardSpecification>,
    ) -> (b: Board)
        requires
            rooms_buildable(rooms@),
        ensures
            b.wf(),
            b.dim() == spec_dim(rooms@),
            b.name@ == name@,
            b.rooms@ == rooms@,
            b.player_start_room_id == player_start_room_id,
            b.doctor_start_room_id == doctor_start_room_id,
            b.cat_start_room_id == cat_start_room_id,
            b.dog_start_room_id == dog_start_room_id,
            b.spec == spec,
            forall|i: int| 0 <= i < b.dim() ==> (b.room_ids@.contains(RoomId(i as i32)) <==> has_room(rooms@, i)),
            forall|i: int, j: int| 0 <= i < b.dim() && 0 <= j < b.dim() ==>
                cell(b.adjacency@, i, j) == lists_among(rooms@, rooms@.len() as int, true, i, j),
            forall|i: int, j: int| 0 <= i < b.dim() && 0 <= j < b.dim() ==>
                cell(b.sight@, i, j) == lists_among(rooms@, rooms@.len() as int, false, i, j),
            forall|k: int| 0 <= k < rooms@.len() ==> b.adjacency_count@[#[trigger] rooms@[k].id.0 as int] == rooms@[k].adjacent@.len(),
            forall|i: int| 0 <= i < b.dim() && !has_room(rooms@, i) ==> b.adjacency_count@[i] == 0,
            forall|ke: int, ka: int| 0 <= ke < b.room_ids@.len() && 0 <= ka < b.room_ids@.len() ==>
                cell(b.stranger_loop_room_ids@, idx(b.room_ids@[ke]), idx(b.room_ids@[ka]))
                    == ambush(b.room_ids@, b.distance@, b.sight@, ke, ka),
            forall|i: int, j: int| 0 <= i < b.dim() && 0 <= j < b.dim() && cell(b.stranger_loop_room_ids@, i, j) ==>
                b.room_ids@.contains(RoomId(i as i32)) && b.room_ids@.contains(RoomId(j as i32)),
    {
        proof { lemma_dim_bounds(rooms@); }
        let dim = compute_dim(&rooms);
        let adjacency = build_matrix(&rooms, dim, true);
        let sight = build_matrix(&rooms, dim, false);
        let adjacency_count = adjacency_counts(&rooms, dim);
        let room_ids = collect_room_ids(&rooms, dim);
        let distance = adjacency_to_distance(&adjacency);
        let stranger_loop_room_ids = distance_to_stranger_loop_info(&room_ids, &distance, &sight, dim);
        proof {
            assert forall|k: int| 0 <= k < rooms@.len() implies room_ids@.contains(#[trigger] rooms@[k].id) by {
                let i = rooms@[k].id.0 as int;
                assert(0 <= i < dim);
                assert(has_room(rooms@, i));
                assert(RoomId(i as i32) == rooms@[k].id);
            }
            assert forall|m: int| 0 <= m < room_ids@.len() implies has_room(rooms@, (#[trigger] room_ids@[m]).0 as int) by {
                let i = room_ids@[m].0 as int;
                assert(0 <= i < dim);
                assert(RoomId(i as i32) == room_ids@[m]);
                assert(room_ids@.contains(RoomId(i as i32)));
            }
        }
        Board {
            name: String::from_str(name),
            rooms,
            room_ids,
            adjacency,
            sight,
            distance,
            adjacency_count,
            stranger_loop_room_ids,
            player_start_room_id,
            doctor_start_room_id,
            cat_start_room_id,
            dog_start_room_id,
            spec,
        }
    }

    /// Whether any of `rooms_with_other_people` is in sight of `room_of_concern`.
    pub fn room_is_seen_by(&self, room_of_concern: RoomId, rooms_with_other_people: &[RoomId]) -> (r: bool)
        requires
            self.wf(),
            self.in_range(room_of_concern),
            forall|k: int| 0 <= k < rooms_with_other_people@.len() ==> self.in_range(#[trigger] rooms_with_other_people@[k]),
        ensures
            r == exists|k: int| 0 <= k < rooms_with_other_people@.len()
                && self.spec_sees(room_of_concern, #[trigger] rooms_with_other_people@[k]),
    {
        let mut k: usize = 0;
        while k < rooms_with_other_people.len()
            invariant
                self.wf(),
                self.in_range(room_of_concern),
                forall|j: int| 0 <= j < rooms_with_other_people@.len() ==> self.in_range(#[trigger] rooms_with_other_people@[j]),
                k <= rooms_with_other_people@.len(),
                forall|j: int| 0 <= j < k ==> !self.spec_sees(room_of_concern, #[trigger] rooms_with_other_people@[j]),
            decreases rooms_with_other_people.len() - k,
        {
            let other = rooms_with_other_people[k];
            assert(self.in_range(rooms_with_other_people@[k as int]));
            if self.sight[room_of_concern.0 as usize][other.0 as usize] {
                return true;
            }
            k = k + 1;
        }
        false
    }

    /// The room `delta` steps after `room_id` in the cyclic order `room_ids`;
    /// a negative `delta` steps backwards.
    pub fn next_room_id(room_id: RoomId, delta: i32, room_ids: &[RoomId]) -> (r: RoomId)
        requires
            room_ids@.contains(room_id),
            ascending(room_ids@),
            room_ids@.len() <= MAX_DIM,
        ensures
            r == ring(room_ids@, index_of(room_ids@, room_id), delta as int),
    {
        let idx = position_of(room_id, room_ids);
        let next_idx = positive_remainder(idx as i64 + delta as i64, room_ids.len());
        room_ids[next_idx]
    }

    /// All room ids in the order the doctor visits them, from `start_room_id`.
    pub fn room_ids_in_doctor_visit_order(&self, start_room_id: RoomId) -> (r: Vec<RoomId>)
        requires
            self.wf(),
            self.room_ids@.contains(start_room_id),
        ensures
            r@.len() == self.room_ids@.len(),
            forall|i: int| 0 <= i < r@.len() ==>
                r@[i] == ring(self.room_ids@, index_of(self.room_ids@, start_room_id), i),
    {
        proof { lemma_ascending_fits(self.room_ids@, self.dim()); }
        let start_idx = position_of(start_room_id, self.room_ids.as_slice());
        let n = self.room_ids.len();
        let mut r: Vec<RoomId> = Vec::new();
        let mut i: usize = 0;
        while i < n
            invariant
                n == self.room_ids@.len(),
                n <= MAX_DIM,
                start_idx < n,
                start_idx as int == index_of(self.room_ids@, start_room_id),
                i <= n,
                r@.len() == i,
                forall|j: int| 0 <= j < i ==> r@[j] == ring(self.room_ids@, start_idx as int, j),
            decreases n - i,
        {
            let k = (start_idx + i) % n;
            r.push(self.room_ids[k]);
            i = i + 1;
        }
        r
    }
}

/// 1 for a failed check, 0 for a passed one.
pub open spec fn flag(failed: bool) -> int {
    if failed { 1 } else { 0 }
}

/// Every id of `ids` is one of `room_ids`.
pub open spec fn all_known(ids: Seq<RoomId>, room_ids: Seq<RoomId>) -> bool {
    forall|m: int| 0 <= m < ids.len() ==> room_ids.contains(#[trigger] ids[m])
}

/// Whether `m` is symmetric on its first `n` rows, over all columns.
pub open spec fn symmetric_rows<T>(m: Seq<Vec<T>>, n: int, dim: int) -> bool {
    forall|r1: int, r2: int| 0 <= r1 < n && 0 <= r2 < dim ==> cell(m, r1, r2) == cell(m, r2, r1)
}

impl Board {
    /// The board has positive start rooms, no room lists itself, every listed
    /// room exists, and both matrices are symmetric.
    pub open spec fn spec_is_valid(&self) -> bool {
        &&& self.player_start_room_id.0 > 0
        &&& self.doctor_start_room_id.0 > 0
        &&& self.cat_start_room_id.0 > 0
        &&& self.dog_start_room_id.0 > 0
        &&& forall|k: int| 0 <= k < self.rooms@.len() ==> self.room_is_sound(#[trigger] self.rooms@[k])
        &&& symmetric_rows(self.adjacency@, self.dim(), self.dim())
        &&& symmetric_rows(self.sight@, self.dim(), self.dim())
    }

    pub open spec fn room_is_sound(&self, room: Room) -> bool {
        &&& !room.adjacent@.contains(room.id)
        &&& !room.visible@.contains(room.id)
        &&& all_known(room.adjacent@, self.room_ids@)
        &&& all_known(room.visible@, self.room_ids@)
    }

    /// The four start rooms have positive ids.
    pub open spec fn starts_ok(&self) -> bool {
        self.player_start_room_id.0 > 0 && self.doctor_start_room_id.0 > 0
            && self.cat_start_room_id.0 > 0 && self.dog_start_room_id.0 > 0
    }

    /// Failed checks of one room: listing itself as adjacent, as visible,
    /// listing unknown adjacent rooms, listing unknown visible rooms.
    pub open spec fn room_problems(&self, room: Room) -> int {
        flag(room.adjacent@.contains(room.id)) + flag(room.visible@.contains(room.id))
            + flag(!all_known(room.adjacent@, self.room_ids@)) + flag(!all_known(room.visible@, self.room_ids@))
    }

    /// Failed checks of the first `k` rooms.
    pub open spec fn rooms_problems(&self, k: int) -> int
        decreases k,
    {
        if k <= 0 || k > self.rooms@.len() { 0 } else { self.rooms_problems(k - 1) + self.room_problems(self.rooms@[k - 1]) }
    }

    /// Failed symmetry checks of row `r` before column `c`.
    pub open spec fn row_problems(&self, r: int, c: int) -> int
        decreases c,
    {
        if c <= 0 {
            0
        } else {
            self.row_problems(r, c - 1) + flag(cell(self.adjacency@, r, c - 1) != cell(self.adjacency@, c - 1, r))
                + flag(cell(self.sight@, r, c - 1) != cell(self.sight@, c - 1, r))
        }
    }

    /// Failed symmetry checks of the first `r` rows.
    pub open spec fn matrix_problems(&self, r: int) -> int
        decreases r,
    {
        if r <= 0 { 0 } else { self.matrix_problems(r - 1) + self.row_problems(r - 1, self.dim()) }
    }

    /// Every failed check of `is_valid`, one for each message it gives.
    pub open spec fn problem_count(&self) -> int {
        flag(!self.starts_ok()) + self.rooms_problems(self.rooms@.len() as int) + self.matrix_problems(self.dim())
    }

    /// Ok when the board is sound; otherwise every problem found, one text each.
    pub fn is_valid(&self) -> (r: Result<(), Vec<String>>)
        requires
            self.wf(),
        ensures
            r is Ok <==> self.spec_is_valid(),
            r matches Err(mistakes) ==> mistakes@.len() == self.problem_count() && mistakes@.len() > 0,
    {
        let mut mistakes: Vec<String> = Vec::new();
        let starts_ok = self.player_start_room_id.0 > 0 && self.doctor_start_room_id.0 > 0
            && self.cat_start_room_id.0 > 0 && self.dog_start_room_id.0 > 0;
        if !starts_ok {
            mistakes.push(String::from_str("bad start room id"));
        }
        let mut k: usize = 0;
        while k < self.rooms.len()
            invariant
                self.wf(),
                k <= self.rooms@.len(),
                mistakes@.len() == 0 <==> (starts_ok && forall|j: int| 0 <= j < k ==> self.room_is_sound(#[trigger] self.rooms@[j])),
                starts_ok == self.starts_ok(),
                mistakes@.len() == flag(!starts_ok) + self.rooms_problems(k as int),
            decreases self.rooms.len() - k,
        {
            let room = &self.rooms[k];
            let ghost before = mistakes@.len();
            if contains_id(&room.adjacent, room.id) {
                let mut text = String::from_str("room ");
                push_int(&mut text, room.id.0 as i64);
                text.append(" is in own adjacent list");
                mistakes.push(text);
            }
            if contains_id(&room.visible, room.id) {
                let mut text = String::from_str("room ");
                push_int(&mut text, room.id.0 as i64);
                text.append(" is in own visible list");
                mistakes.push(text);
            }
            let unknown_adjacent = self.unknown_ids(&room.adjacent);
            if unknown_adjacent.len() > 0 {
                let mut text = String::from_str("room ");
                push_int(&mut text, room.id.0 as i64);
                text.append(" lists nonexistent adjacent rooms ");
                push_id_list(&mut text, &unknown_adjacent);
                mistakes.push(text);
            }
            let unknown_visible = self.unknown_ids(&room.visible);
            if unknown_visible.len() > 0 {
                let mut text = String::from_str("room ");
                push_int(&mut text, room.id.0 as i64);
                text.append(" lists nonexistent visible rooms ");
                push_id_list(&mut text, &unknown_visible);
                mistakes.push(text);
            }
            proof {
                assert(self.rooms@[k as int] == *room);
                assert(self.rooms_problems(k as int + 1) == self.rooms_problems(k as int) + self.room_problems(*room));
                assert forall|j: int| 0 <= j < k + 1 && (starts_ok && forall|i: int| 0 <= i < k ==> self.room_is_sound(#[trigger] self.rooms@[i])) && mistakes@.len() == 0
                    implies self.room_is_sound(self.rooms@[j]) by {}
            }
            k = k + 1;
        }
        let dim = self.adjacency.len();
        let mut r1: usize = 0;
        let ghost rooms_ok = mistakes@.len() == 0;
        let ghost base = mistakes@.len();
        assert(base == flag(!self.starts_ok()) + self.rooms_problems(self.rooms@.len() as int));
        while r1 < dim
            invariant
                self.wf(),
                dim == self.dim(),
                r1 <= dim,
                base == flag(!self.starts_ok()) + self.rooms_problems(self.rooms@.len() as int),
                mistakes@.len() == base + self.matrix_problems(r1 as int),
                mistakes@.len() == 0 <==> (rooms_ok && symmetric_rows(self.adjacency@, r1 as int, dim as int)
                    && symmetric_rows(self.sight@, r1 as int, dim as int)),
            decreases dim - r1,
        {
            let mut r2: usize = 0;
            while r2 < dim
                invariant
                    self.wf(),
                    dim == self.dim(),
                    r1 < dim,
                    r2 <= dim,
                    base == flag(!self.starts_ok()) + self.rooms_problems(self.rooms@.len() as int),
                    mistakes@.len() == base + self.matrix_problems(r1 as int) + self.row_problems(r1 as int, r2 as int),
                    mistakes@.len() == 0 <==> (rooms_ok && symmetric_rows(self.adjacency@, r1 as int, dim as int)
                        && symmetric_rows(self.sight@, r1 as int, dim as int)
                        && forall|c: int| 0 <= c < r2 ==> cell(self.adjacency@, r1 as int, c) == cell(self.adjacency@, c, r1 as int)
                            && cell(self.sight@, r1 as int, c) == cell(self.sight@, c, r1 as int)),
                decreases dim - r2,
            {
                let ghost before = mistakes@.len();
                let adj_ok = self.adjacency[r1][r2] == self.adjacency[r2][r1];
                let sight_ok = self.sight[r1][r2] == self.sight[r2][r1];
                if !adj_ok {
                    let mut text = String::from_str("Adjacency[");
                    push_int(&mut text, r1 as i64);
                    text.append(",");
                    push_int(&mut text, r2 as i64);
                    text.append("] contradiction");
                    mistakes.push(text);
                }
                if !sight_ok {
                    let mut text = String::from_str("Visibility[");
                    push_int(&mut text, r1 as i64);
                    text.append(",");
                    push_int(&mut text, r2 as i64);
                    text.append("] contradiction");
                    mistakes.push(text);
                }
                proof {
                    assert(adj_ok == (cell(self.adjacency@, r1 as int, r2 as int) == cell(self.adjacency@, r2 as int, r1 as int)));
                    assert(sight_ok == (cell(self.sight@, r1 as int, r2 as int) == cell(self.sight@, r2 as int, r1 as int)));
                    assert(mistakes@.len() >= before);
                    assert(mistakes@.len() == before <==> (adj_ok && sight_ok));
                    assert(self.row_problems(r1 as int, r2 as int + 1) == self.row_problems(r1 as int, r2 as int) + flag(!adj_ok) + flag(!sight_ok));
                }
                r2 = r2 + 1;
            }
            proof {
                if mistakes@.len() == 0 {
                    assert forall|a: int, b: int| 0 <= a < r1 + 1 && 0 <= b < dim implies cell(self.adjacency@, a, b) == cell(self.adjacency@, b, a) by {
                        if a == r1 {
                            assert(cell(self.adjacency@, r1 as int, b) == cell(self.adjacency@, b, r1 as int));
                        }
                    }
                    assert forall|a: int, b: int| 0 <= a < r1 + 1 && 0 <= b < dim implies cell(self.sight@, a, b) == cell(self.sight@, b, a) by {
                        if a == r1 {
                            assert(cell(self.sight@, r1 as int, b) == cell(self.sight@, b, r1 as int));
                        }
                    }
                }
            }
            assert(self.matrix_problems(r1 as int + 1) == self.matrix_problems(r1 as int) + self.row_problems(r1 as int, dim as int));
            r1 = r1 + 1;
        }
        if mistakes.len() == 0 {
            Ok(())
        } else {
            Err(mistakes)
        }
    }

    /// The ids of `ids` that are not room ids of the board.
    fn unknown_ids(&self, ids: &Vec<RoomId>) -> (r: Vec<RoomId>)
        ensures
            r@.len() == 0 <==> all_known(ids@, self.room_ids@),
    {
        let mut r: Vec<RoomId> = Vec::new();
        let mut m: usize = 0;
        while m < ids.len()
            invariant
                m <= ids@.len(),
                r@.len() == 0 <==> all_known(ids@.subrange(0, m as int), self.room_ids@),
            decreases ids.len() - m,
        {
            let known = contains_id(&self.room_ids, ids[m]);
            if !known {
                r.push(ids[m]);
            }
            proof {
                let p = ids@.subrange(0, m as int);
                let q = ids@.subrange(0, m as int + 1);
                assert(q[m as int] == ids@[m as int]);
                if all_known(q, self.room_ids@) {
                    assert forall|x: int| 0 <= x < p.len() implies self.room_ids@.contains(#[trigger] p[x]) by {
                        assert(q[x] == p[x]);
                    }
                }
                if all_known(p, self.room_ids@) && known {
                    assert forall|x: int| 0 <= x < q.len() implies self.room_ids@.contains(#[trigger] q[x]) by {
                        if x < m {
                            assert(q[x] == p[x]);
                        }
                    }
                }
            }
            m = m + 1;
        }
        assert(ids@.subrange(0, ids@.len() as int) =~= ids@);
        r
    }
}

fn contains_id(ids: &Vec<RoomId>, id: RoomId) -> (r: bool)
    ensures
        r == ids@.contains(id),
{
    crate::room::contains_room_id(ids.as_slice(), id)
}

/// Appends the ids separated by `, `.
fn push_id_list(s: &mut String, ids: &Vec<RoomId>) {
    let mut m: usize = 0;
    while m < ids.len()
        invariant
            m <= ids@.len(),
        decreases ids.len() - m,
    {
        if m > 0 {
            s.append(", ");
        }
        push_int(s, ids[m].0 as i64);
        m = m + 1;
    }
}

/// The laws every well-formed board keeps: symmetric matrices when the board
/// is sound, zero distance from a room to itself, and the triangle inequality
/// through any room other than room 0.
pub proof fn lemma_board_metric(b: &Board)
    requires
        b.wf(),
    ensures
        b.spec_is_valid() ==> forall|r1: int, r2: int| 0 <= r1 < b.dim() && 0 <= r2 < b.dim() ==>
            cell(b.adjacency@, r1, r2) == cell(b.adjacency@, r2, r1) && cell(b.sight@, r1, r2) == cell(b.sight@, r2, r1),
        forall|r: int| 0 <= r < b.dim() ==> cell(b.distance@, r, r) == 0,
        forall|s: int, t: int, i: int| 1 <= s < b.dim() && 1 <= t < b.dim() && 1 <= i < b.dim() ==>
            cell(b.distance@, s, t) <= cell(b.distance@, s, i) + cell(b.distance@, i, t),
{
    assert forall|r: int| 0 <= r < b.dim() implies cell(b.distance@, r, r) == 0 by {
        assert(crate::distance::supported_at(b.adjacency@, b.distance@, b.dim(), r, r));
    }
}

/// Cyclic stepping is a bijection: `k` rooms forward, then `k` rooms back,
/// returns to the start, for every room and every whole `k`.
pub proof fn lemma_next_room_id_round_trip(ids: Seq<RoomId>, r: RoomId, k: int)
    requires
        ascending(ids),
        ids.contains(r),
    ensures
        ring(ids, index_of(ids, ring(ids, index_of(ids, r), k)), -k) == r,
{
    let n = ids.len() as int;
    let i = index_of(ids, r);
    assert(0 <= i < n && ids[i] == r);
    let j = (i + k) % n;
    vstd::arithmetic::div_mod::lemma_mod_bound(i + k, n);
    lemma_ascending_index(ids, j);
    vstd::arithmetic::div_mod::lemma_add_mod_noop_right(-k, i + k, n);
    vstd::arithmetic::div_mod::lemma_small_mod(i as nat, n as nat);
    assert(-k + (i + k) == i);
}

/// Lower-case form of a text, as `str::to_lowercase` gives it.
pub uninterp spec fn lower_of(s: Seq<char>) -> Seq<char>;

/// Relies on `str::to_lowercase`: the result depends on the characters alone.
#[verifier::external_body]
fn lowercase(s: &str) -> (r: String)
    ensures
        r@ == lower_of(s@),
{
    s.to_lowercase()
}

/// Why a board description cannot be played.
#[derive(Clone, Debug, PartialEq, Eq)]
pub enum BoardLoadError {
    /// No candidate start room of the role is open.
    MissingStartRoom { role: String },
    /// Room ids out of range or repeated, or a listed room beyond the largest id.
    UnusableRooms,
}

/// Whether `name` is one of `names`.
pub fn contains_name(names: &Vec<String>, name: &String) -> (r: bool)
    ensures
        r == exists|k: int| 0 <= k < names@.len() && names@[k]@ == name@,
{
    let mut k: usize = 0;
    while k < names.len()
        invariant
            k <= names@.len(),
            forall|j: int| 0 <= j < k ==> names@[j]@ != name@,
        decreases names.len() - k,
    {
        if names[k] == *name {
            return true;
        }
        k = k + 1;
    }
    false
}

/// Whether room `id` belongs to a closed wing: one whose lower-case name is
/// among `closed_lower`.
pub open spec fn in_closed_wing(wings: Seq<Wing>, closed_lower: Seq<String>, id: RoomId) -> bool {
    exists|w: int, k: int| 0 <= w < wings.len() && 0 <= k < closed_lower.len()
        && closed_lower[k]@ == lower_of(wings[w].name@) && wings[w].room_ids@.contains(id)
}

/// Ids of the rooms in wings whose lower-case names are among `closed_lower`.
fn closed_room_ids(wings: &Vec<Wing>, closed_lower: &Vec<String>) -> (r: Vec<RoomId>)
    ensures
        forall|id: RoomId| r@.contains(id) <==> in_closed_wing(wings@, closed_lower@, id),
{
    let mut r: Vec<RoomId> = Vec::new();
    let mut w: usize = 0;
    while w < wings.len()
        invariant
            w <= wings@.len(),
            forall|id: RoomId| r@.contains(id) <==> in_closed_wing(wings@.subrange(0, w as int), closed_lower@, id),
        decreases wings.len() - w,
    {
        let wing = &wings[w];
        let lower = lowercase(wing.name.as_str());
        let closed = contains_name(closed_lower, &lower);
        let ghost before = r@;
        if closed {
            let mut m: usize = 0;
            while m < wing.room_ids.len()
                invariant
                    m <= wing.room_ids@.len(),
                    r@ == before + wing.room_ids@.subrange(0, m as int),
                decreases wing.room_ids.len() - m,
            {
                r.push(wing.room_ids[m]);
                assert(r@ =~= before + wing.room_ids@.subrange(0, m as int + 1));
                m = m + 1;
            }
            assert(wing.room_ids@.subrange(0, wing.room_ids@.len() as int) =~= wing.room_ids@);
        }
        proof {
            let ws = wings@.subrange(0, w as int + 1);
            let wp = wings@.subrange(0, w as int);
            if closed {
                assert(wings@[w as int].room_ids@.subrange(0, wings@[w as int].room_ids@.len() as int) =~= wings@[w as int].room_ids@);
                assert(r@ =~= before + wings@[w as int].room_ids@);
            } else {
                assert(r@ == before);
            }
            assert forall|id: RoomId| r@.contains(id) <==> (before.contains(id) || (closed && wings@[w as int].room_ids@.contains(id))) by {
                let extra = wings@[w as int].room_ids@;
                if closed {
                    if r@.contains(id) {
                        let j = choose|j: int| 0 <= j < r@.len() && r@[j] == id;
                        if j < before.len() {
                            assert(before[j] == id);
                        } else {
                            assert(extra[j - before.len()] == id);
                        }
                    }
                    if before.contains(id) {
                        let j = choose|j: int| 0 <= j < before.len() && before[j] == id;
                        assert(r@[j] == id);
                    }
                    if extra.contains(id) {
                        let j = choose|j: int| 0 <= j < extra.len() && extra[j] == id;
                        assert(r@[before.len() + j] == id);
                    }
                }
            }
            assert(closed == exists|k: int| 0 <= k < closed_lower@.len() && closed_lower@[k]@ == lower_of(wings@[w as int].name@));
            assert forall|id: RoomId| r@.contains(id) <==> in_closed_wing(ws, closed_lower@, id) by {
                assert(before.contains(id) <==> in_closed_wing(wp, closed_lower@, id));
                if in_closed_wing(ws, closed_lower@, id) {
                    let (x, k) = choose|x: int, k: int| 0 <= x < ws.len() && 0 <= k < closed_lower@.len()
                        && closed_lower@[k]@ == lower_of(ws[x].name@) && ws[x].room_ids@.contains(id);
                    if x < w {
                        assert(wp[x] == ws[x]);
                        assert(in_closed_wing(wp, closed_lower@, id));
                    } else {
                        assert(ws[x] == wings@[w as int]);
                        assert(closed);
                    }
                }
                if in_closed_wing(wp, closed_lower@, id) {
                    let (x, k) = choose|x: int, k: int| 0 <= x < wp.len() && 0 <= k < closed_lower@.len()
                        && closed_lower@[k]@ == lower_of(wp[x].name@) && wp[x].room_ids@.contains(id);
                    assert(ws[x] == wp[x]);
                }
                if closed && wings@[w as int].room_ids@.contains(id) {
                    let k = choose|k: int| 0 <= k < closed_lower@.len() && closed_lower@[k]@ == lower_of(wings@[w as int].name@);
                    assert(ws[w as int] == wings@[w as int]);
                    assert(in_closed_wing(ws, closed_lower@, id));
                }
            }
        }
        w = w + 1;
    }
    assert(wings@.subrange(0, wings@.len() as int) =~= wings@);
    r
}

/// The first of `desired` that is one of `open`.
fn choose_first_open(desired: &Vec<RoomId>, open: &Vec<RoomId>) -> (r: Option<RoomId>)
    ensures
        r matches Some(id) ==> open@.contains(id) && desired@.contains(id)
            && exists|k: int| 0 <= k < desired@.len() && desired@[k] == id
                && forall|j: int| 0 <= j < k ==> !open@.contains(#[trigger] desired@[j]),
        r is None <==> forall|k: int| 0 <= k < desired@.len() ==> !open@.contains(#[trigger] desired@[k]),
{
    let mut k: usize = 0;
    while k < desired.len()
        invariant
            k <= desired@.len(),
            forall|j: int| 0 <= j < k ==> !open@.contains(#[trigger] desired@[j]),
        decreases desired.len() - k,
    {
        if crate::room::contains_room_id(open.as_slice(), desired[k]) {
            assert(desired@[k as int] == desired@[k as int]);
            return Some(desired[k]);
        }
        k = k + 1;
    }
    None
}

/// Whether `Board::new` accepts the rooms.
fn rooms_are_buildable(rooms: &Vec<Room>) -> (r: bool)
    ensures
        r == rooms_buildable(rooms@),
{
    let mut k: usize = 0;
    while k < rooms.len()
        invariant
            k <= rooms@.len(),
            forall|j: int| 0 <= j < k ==> 0 <= #[trigger] rooms@[j].id.0 <= MAX_ROOM_ID,
        decreases rooms.len() - k,
    {
        if rooms[k].id.0 < 0 || rooms[k].id.0 > MAX_ROOM_ID {
            return false;
        }
        k = k + 1;
    }
    let mut a: usize = 0;
    while a < rooms.len()
        invariant
            a <= rooms@.len(),
            forall|x: int, y: int| 0 <= x < y < rooms@.len() && x < a ==> rooms@[x].id != rooms@[y].id,
        decreases rooms.len() - a,
    {
        let mut b: usize = a + 1;
        while b < rooms.len()
            invariant
                a < rooms@.len(),
                a + 1 <= b <= rooms@.len(),
                forall|x: int, y: int| 0 <= x < y < rooms@.len() && x < a ==> rooms@[x].id != rooms@[y].id,
                forall|y: int| a < y < b ==> rooms@[a as int].id != rooms@[y].id,
            decreases rooms.len() - b,
        {
            if rooms[a].id == rooms[b].id {
                return false;
            }
            b = b + 1;
        }
        a = a + 1;
    }
    let dim = compute_dim(rooms);
    let mut k: usize = 0;
    while k < rooms.len()
        invariant
            k <= rooms@.len(),
            dim == spec_dim(rooms@),
            forall|j: int| 0 <= j < k ==> ids_below(#[trigger] rooms@[j].adjacent@, dim as int),
            forall|j: int| 0 <= j < k ==> ids_below(#[trigger] rooms@[j].visible@, dim as int),
        decreases rooms.len() - k,
    {
        if !ids_fit(&rooms[k].adjacent, dim) || !ids_fit(&rooms[k].visible, dim) {
            return false;
        }
        k = k + 1;
    }
    true
}

fn ids_fit(ids: &Vec<RoomId>, dim: usize) -> (r: bool)
    ensures
        r == ids_below(ids@, dim as int),
{
    let mut m: usize = 0;
    while m < ids.len()
        invariant
            m <= ids@.len(),
            forall|j: int| 0 <= j < m ==> 0 <= #[trigger] ids@[j].0 < dim,
        decreases ids.len() - m,
    {
        if ids[m].0 < 0 || ids[m].0 as usize >= dim {
            return false;
        }
        m = m + 1;
    }
    true
}

impl Board {
    /// The board a description gives with the named wings closed: their rooms
    /// and every reference to them are left out, each role starts in its first
    /// open candidate room, and the suffix is added to the name.
    pub fn from_spec(spec: BoardSpecification, closed_wing_names: &Vec<String>, board_name_suffix: &str) -> (r: Result<Board, BoardLoadError>)
        ensures
            exists|closed_lower: Seq<String>| lowered(closed_wing_names@, closed_lower)
                && spec_board_from(spec, closed_lower, board_name_suffix@, r),
    {
        let mut closed_lower: Vec<String> = Vec::new();
        let mut k: usize = 0;
        while k < closed_wing_names.len()
            invariant
                k <= closed_wing_names@.len(),
                closed_lower@.len() == k,
                forall|j: int| 0 <= j < k ==> (#[trigger] closed_lower@[j])@ == lower_of(closed_wing_names@[j]@),
            decreases closed_wing_names.len() - k,
        {
            closed_lower.push(lowercase(closed_wing_names[k].as_str()));
            k = k + 1;
        }
        let r = Self::from_spec_lowered(spec, &closed_lower, board_name_suffix);
        assert(lowered(closed_wing_names@, closed_lower@));
        r
    }
}

/// The rooms of `rooms` outside every closed wing.
pub open spec fn open_rooms(rooms: Seq<Room>, wings: Seq<Wing>, closed_lower: Seq<String>) -> Seq<Room> {
    rooms.filter(|r: Room| !in_closed_wing(wings, closed_lower, r.id))
}

/// The open rooms have ids in range and distinct, and every room they list
/// outside the closed wings lies within the matrices.
pub open spec fn open_rooms_usable(rooms: Seq<Room>, wings: Seq<Wing>, closed_lower: Seq<String>) -> bool {
    open_rooms_usable_seq(open_rooms(rooms, wings, closed_lower), wings, closed_lower)
}

/// `id` is the first candidate of `desired` that is the id of one of `rooms`.
pub open spec fn first_open_candidate(desired: Seq<RoomId>, rooms: Seq<Room>, id: RoomId) -> bool {
    exists|k: int| 0 <= k < desired.len() && desired[k] == id && has_room(rooms, id.0 as int)
        && forall|j: int| 0 <= j < k ==> !has_room(rooms, (#[trigger] desired[j]).0 as int)
}

/// Some candidate of `desired` is the id of one of `rooms`.
pub open spec fn has_open_candidate(desired: Seq<RoomId>, rooms: Seq<Room>) -> bool {
    exists|k: int| 0 <= k < desired.len() && has_room(rooms, desired[k].0 as int)
}

/// What `from_spec_lowered` gives for `spec` with the wings named by
/// `closed_lower` (already in lower case) closed and `suffix` added to the name.
pub open spec fn spec_board_from(spec: BoardSpecification, closed_lower: Seq<String>, board_name_suffix: Seq<char>, r: Result<Board, BoardLoadError>) -> bool {
    let open = open_rooms(spec.rooms@, spec.wings@, closed_lower);
    let starts_open = has_open_candidate(spec.player_start_room_ids@, open)
        && has_open_candidate(spec.doctor_start_room_ids@, open)
        && has_open_candidate(spec.cat_start_room_ids@, open)
        && has_open_candidate(spec.dog_start_room_ids@, open);
    &&& (r matches Err(BoardLoadError::MissingStartRoom { .. }) <==> !starts_open)
    &&& (r matches Err(BoardLoadError::MissingStartRoom { role }) ==> role@ == (
        if !has_open_candidate(spec.player_start_room_ids@, open) { "player"@ }
        else if !has_open_candidate(spec.doctor_start_room_ids@, open) { "doctor"@ }
        else if !has_open_candidate(spec.cat_start_room_ids@, open) { "cat"@ }
        else { "dog"@ }))
    &&& (starts_open && open_rooms_usable(spec.rooms@, spec.wings@, closed_lower) ==> r is Ok)
    &&& (r matches Ok(b) ==> {
        &&& b.wf()
        &&& b.name@ == spec.name@ + board_name_suffix
        &&& b.rooms@.len() == open.len()
        &&& forall|k: int| 0 <= k < open.len() ==> (#[trigger] b.rooms@[k]).id == open[k].id
            && b.rooms@[k].name@ == open[k].name@
        &&& forall|k: int, m: int| 0 <= k < open.len() && 0 <= m < b.rooms@[k].adjacent@.len()
            ==> !in_closed_wing(spec.wings@, closed_lower, #[trigger] b.rooms@[k].adjacent@[m])
        &&& forall|k: int, m: int| 0 <= k < open.len() && 0 <= m < b.rooms@[k].visible@.len()
            ==> !in_closed_wing(spec.wings@, closed_lower, #[trigger] b.rooms@[k].visible@[m])
        &&& forall|i: int| 0 <= i < b.dim() ==> (b.room_ids@.contains(RoomId(i as i32)) <==> has_room(open, i))
        &&& first_open_candidate(spec.player_start_room_ids@, open, b.player_start_room_id)
        &&& first_open_candidate(spec.doctor_start_room_ids@, open, b.doctor_start_room_id)
        &&& first_open_candidate(spec.cat_start_room_ids@, open, b.cat_start_room_id)
        &&& first_open_candidate(spec.dog_start_room_ids@, open, b.dog_start_room_id)
    })
}

/// `closed_lower` holds the lower-case forms of `names`, in order.
pub open spec fn lowered(names: Seq<String>, closed_lower: Seq<String>) -> bool {
    closed_lower.len() == names.len() && forall|j: int| 0 <= j < names.len() ==> (#[trigger] closed_lower[j])@ == lower_of(names[j]@)
}

impl Board {
    /// `from_spec` with the closed wing names already in lower case.
    pub fn from_spec_lowered(spec: BoardSpecification, closed_lower: &Vec<String>, board_name_suffix: &str) -> (r: Result<Board, BoardLoadError>)
        ensures
            spec_board_from(spec, closed_lower@, board_name_suffix@, r),
    {
        let closed = closed_room_ids(&spec.wings, closed_lower);
        let mut open: Vec<Room> = Vec::new();
        let mut open_ids: Vec<RoomId> = Vec::new();
        let mut k: usize = 0;
        while k < spec.rooms.len()
            invariant
                k <= spec.rooms@.len(),
                forall|id: RoomId| closed@.contains(id) <==> in_closed_wing(spec.wings@, closed_lower@, id),
                open@.len() == open_rooms(spec.rooms@.subrange(0, k as int), spec.wings@, closed_lower@).len(),
                open_ids@.len() == open@.len(),
                forall|j: int| 0 <= j < open@.len() ==> {
                    let src = open_rooms(spec.rooms@.subrange(0, k as int), spec.wings@, closed_lower@)[j];
                    &&& (#[trigger] open@[j]).id == src.id
                    &&& open@[j].name@ == src.name@
                    &&& open_ids@[j] == src.id
                    &&& open@[j].adjacent@ == crate::room::ids_without(src.adjacent@, closed@)
                    &&& open@[j].visible@ == crate::room::ids_without(src.visible@, closed@)
                    &&& forall|m: int| 0 <= m < open@[j].adjacent@.len() ==> !in_closed_wing(spec.wings@, closed_lower@, #[trigger] open@[j].adjacent@[m])
                    &&& forall|m: int| 0 <= m < open@[j].visible@.len() ==> !in_closed_wing(spec.wings@, closed_lower@, #[trigger] open@[j].visible@[m])
                },
            decreases spec.rooms.len() - k,
        {
            let room = &spec.rooms[k];
            let is_closed = crate::room::contains_room_id(closed.as_slice(), room.id);
            let ghost before_open = open@;
            let ghost before_ids = open_ids@;
            proof {
                let p = spec.rooms@.subrange(0, k as int);
                let q = spec.rooms@.subrange(0, k as int + 1);
                assert(q.drop_last() =~= p);
                assert(q.last() == spec.rooms@[k as int]);
                reveal(Seq::filter);
            }
            if !is_closed {
                let kept = room.without_closed(closed.as_slice());
                proof {
                    assert forall|m: int| 0 <= m < kept.adjacent@.len() implies !in_closed_wing(spec.wings@, closed_lower@, #[trigger] kept.adjacent@[m]) by {
                        room.adjacent@.lemma_filter_pred(|r: RoomId| !closed@.contains(r), m);
                    }
                    assert forall|m: int| 0 <= m < kept.visible@.len() implies !in_closed_wing(spec.wings@, closed_lower@, #[trigger] kept.visible@[m]) by {
                        room.visible@.lemma_filter_pred(|r: RoomId| !closed@.contains(r), m);
                    }
                }
                open_ids.push(room.id);
                open.push(kept);
            }
            proof {
                let q = spec.rooms@.subrange(0, k as int + 1);
                let oq = open_rooms(q, spec.wings@, closed_lower@);
                let op = open_rooms(spec.rooms@.subrange(0, k as int), spec.wings@, closed_lower@);
                if !is_closed {
                    assert(oq =~= op.push(spec.rooms@[k as int]));
                } else {
                    assert(oq =~= op);
                }
                assert forall|j: int| 0 <= j < open@.len() implies {
                    let src = oq[j];
                    &&& (#[trigger] open@[j]).id == src.id
                    &&& open@[j].name@ == src.name@
                    &&& open_ids@[j] == src.id
                    &&& open@[j].adjacent@ == crate::room::ids_without(src.adjacent@, closed@)
                    &&& open@[j].visible@ == crate::room::ids_without(src.visible@, closed@)
                    &&& forall|m: int| 0 <= m < open@[j].adjacent@.len() ==> !in_closed_wing(spec.wings@, closed_lower@, #[trigger] open@[j].adjacent@[m])
                    &&& forall|m: int| 0 <= m < open@[j].visible@.len() ==> !in_closed_wing(spec.wings@, closed_lower@, #[trigger] open@[j].visible@[m])
                } by {
                    if j < before_open.len() {
                        assert(open@[j] == before_open[j]);
                        assert(oq[j] == op[j]);
                    }
                }
            }
            k = k + 1;
        }
        assert(spec.rooms@.subrange(0, spec.rooms@.len() as int) =~= spec.rooms@);
        let ghost open_spec = open_rooms(spec.rooms@, spec.wings@, closed_lower@);
        proof { lemma_open_ids(open@, open_ids@, open_spec); }
        let player = choose_first_open(&spec.player_start_room_ids, &open_ids);
        let doctor = choose_first_open(&spec.doctor_start_room_ids, &open_ids);
        let cat = choose_first_open(&spec.cat_start_room_ids, &open_ids);
        let dog = choose_first_open(&spec.dog_start_room_ids, &open_ids);
        proof {
            lemma_candidates(spec.player_start_room_ids@, open_ids@, open_spec);
            lemma_candidates(spec.doctor_start_room_ids@, open_ids@, open_spec);
            lemma_candidates(spec.cat_start_room_ids@, open_ids@, open_spec);
            lemma_candidates(spec.dog_start_room_ids@, open_ids@, open_spec);
        }
        let player = match player {
            Some(id) => id,
            None => return Err(BoardLoadError::MissingStartRoom { role: String::from_str("player") }),
        };
        let doctor = match doctor {
            Some(id) => id,
            None => return Err(BoardLoadError::MissingStartRoom { role: String::from_str("doctor") }),
        };
        let cat = match cat {
            Some(id) => id,
            None => return Err(BoardLoadError::MissingStartRoom { role: String::from_str("cat") }),
        };
        let dog = match dog {
            Some(id) => id,
            None => return Err(BoardLoadError::MissingStartRoom { role: String::from_str("dog") }),
        };
        proof {
            if open_rooms_usable(spec.rooms@, spec.wings@, closed_lower@) {
                lemma_open_buildable(open@, open_spec, closed@, spec.wings@, closed_lower@);
            }
        }
        if !rooms_are_buildable(&open) {
            return Err(BoardLoadError::UnusableRooms);
        }
        let mut name = String::from_str(spec.name.as_str());
        name.append(board_name_suffix);
        let ghost open_view = open@;
        let board = Board::new(name.as_str(), open, player, doctor, cat, dog, Some(spec));
        proof {
            lemma_first_candidate(spec.player_start_room_ids@, open_ids@, open_spec, player);
            lemma_first_candidate(spec.doctor_start_room_ids@, open_ids@, open_spec, doctor);
            lemma_first_candidate(spec.cat_start_room_ids@, open_ids@, open_spec, cat);
            lemma_first_candidate(spec.dog_start_room_ids@, open_ids@, open_spec, dog);
            assert forall|i: int| 0 <= i < board.dim() implies (has_room(open_view, i) <==> has_room(open_spec, i)) by {
                if has_room(open_view, i) {
                    let k = choose|k: int| 0 <= k < open_view.len() && open_view[k].id.0 == i;
                    assert(open_view[k].id == open_spec[k].id);
                }
                if has_room(open_spec, i) {
                    let k = choose|k: int| 0 <= k < open_spec.len() && open_spec[k].id.0 == i;
                    assert(open_view[k].id == open_spec[k].id);
                }
            }
        }
        Ok(board)
    }
}

proof fn lemma_open_ids(open: Seq<Room>, open_ids: Seq<RoomId>, open_spec: Seq<Room>)
    requires
        open.len() == open_spec.len(),
        open_ids.len() == open.len(),
        forall|j: int| 0 <= j < open.len() ==> (#[trigger] open[j]).id == open_spec[j].id && open_ids[j] == open_spec[j].id,
    ensures
        forall|id: RoomId| open_ids.contains(id) <==> has_room(open_spec, id.0 as int),
{
    assert forall|id: RoomId| open_ids.contains(id) <==> has_room(open_spec, id.0 as int) by {
        if open_ids.contains(id) {
            let j = choose|j: int| 0 <= j < open_ids.len() && open_ids[j] == id;
            assert(open[j].id == open_spec[j].id);
        }
        if has_room(open_spec, id.0 as int) {
            let j = choose|j: int| 0 <= j < open_spec.len() && open_spec[j].id.0 == id.0 as int;
            assert(open[j].id == open_spec[j].id);
            assert(open_ids[j] == id);
        }
    }
}

proof fn lemma_candidates(desired: Seq<RoomId>, open_ids: Seq<RoomId>, open_spec: Seq<Room>)
    requires
        forall|id: RoomId| open_ids.contains(id) <==> has_room(open_spec, id.0 as int),
    ensures
        has_open_candidate(desired, open_spec) <==> exists|k: int| 0 <= k < desired.len() && open_ids.contains(#[trigger] desired[k]),
{
    if has_open_candidate(desired, open_spec) {
        let k = choose|k: int| 0 <= k < desired.len() && has_room(open_spec, desired[k].0 as int);
        assert(open_ids.contains(desired[k]));
    }
}

proof fn lemma_dim_same_ids(a: Seq<Room>, b: Seq<Room>)
    requires
        a.len() == b.len(),
        forall|k: int| 0 <= k < a.len() ==> (#[trigger] a[k]).id == b[k].id,
    ensures
        spec_dim(a) == spec_dim(b),
    decreases a.len(),
{
    if a.len() > 0 {
        lemma_dim_same_ids(a.drop_last(), b.drop_last());
    }
}

proof fn lemma_open_buildable(open: Seq<Room>, open_spec: Seq<Room>, closed: Seq<RoomId>, wings: Seq<Wing>, closed_lower: Seq<String>)
    requires
        open_rooms_usable_seq(open_spec, wings, closed_lower),
        open.len() == open_spec.len(),
        forall|id: RoomId| closed.contains(id) <==> in_closed_wing(wings, closed_lower, id),
        forall|j: int| 0 <= j < open.len() ==> {
            &&& (#[trigger] open[j]).id == open_spec[j].id
            &&& open[j].adjacent@ == crate::room::ids_without(open_spec[j].adjacent@, closed)
            &&& open[j].visible@ == crate::room::ids_without(open_spec[j].visible@, closed)
        },
    ensures
        rooms_buildable(open),
{
    lemma_dim_same_ids(open, open_spec);
    assert forall|k: int| 0 <= k < open.len() implies ids_below(#[trigger] open[k].adjacent@, spec_dim(open)) by {
        let src = open_spec[k].adjacent@;
        let pred = |r: RoomId| !closed.contains(r);
        assert forall|m: int| 0 <= m < open[k].adjacent@.len() implies 0 <= #[trigger] open[k].adjacent@[m].0 < spec_dim(open) by {
            let x = open[k].adjacent@[m];
            src.lemma_filter_pred(pred, m);
            assert(src.filter(pred).contains(x));
            src.lemma_filter_contains_rev(pred, x);
        }
    }
    assert forall|k: int| 0 <= k < open.len() implies ids_below(#[trigger] open[k].visible@, spec_dim(open)) by {
        let src = open_spec[k].visible@;
        let pred = |r: RoomId| !closed.contains(r);
        assert forall|m: int| 0 <= m < open[k].visible@.len() implies 0 <= #[trigger] open[k].visible@[m].0 < spec_dim(open) by {
            let x = open[k].visible@[m];
            src.lemma_filter_pred(pred, m);
            assert(src.filter(pred).contains(x));
            src.lemma_filter_contains_rev(pred, x);
        }
    }
    assert forall|k: int| 0 <= k < open.len() implies 0 <= #[trigger] open[k].id.0 <= MAX_ROOM_ID by {
        assert(open[k].id == open_spec[k].id);
    }
    assert forall|a: int, b: int| 0 <= a < b < open.len() implies open[a].id != open[b].id by {
        assert(open[a].id == open_spec[a].id && open[b].id == open_spec[b].id);
    }
}

/// `open_rooms_usable` of an already filtered list of rooms.
pub open spec fn open_rooms_usable_seq(open: Seq<Room>, wings: Seq<Wing>, closed_lower: Seq<String>) -> bool {
    &&& forall|k: int| 0 <= k < open.len() ==> 0 <= #[trigger] open[k].id.0 <= MAX_ROOM_ID
    &&& forall|a: int, b: int| 0 <= a < b < open.len() ==> open[a].id != open[b].id
    &&& forall|k: int, x: RoomId| 0 <= k < open.len() && #[trigger] open[k].adjacent@.contains(x) && !in_closed_wing(wings, closed_lower, x)
        ==> 0 <= x.0 < spec_dim(open)
    &&& forall|k: int, x: RoomId| 0 <= k < open.len() && #[trigger] open[k].visible@.contains(x) && !in_closed_wing(wings, closed_lower, x)
        ==> 0 <= x.0 < spec_dim(open)
}

/// `walk` steps from room to room along edges, avoiding room 0.
pub open spec fn is_walk(b: &Board, walk: Seq<int>) -> bool {
    &&& walk.len() >= 1
    &&& forall|k: int| 0 <= k < walk.len() ==> 1 <= #[trigger] walk[k] < b.dim()
    &&& forall|k: int| 0 <= k < walk.len() - 1 ==> walk[k] == walk[k + 1] || cell(b.adjacency@, #[trigger] walk[k], walk[k + 1])
}

/// No walk between two rooms is shorter than the distance recorded for them.
pub proof fn lemma_distance_at_most_walk(b: &Board, walk: Seq<int>)
    requires
        b.wf(),
        is_walk(b, walk),
    ensures
        cell(b.distance@, walk[0], walk.last()) <= walk.len() - 1,
    decreases walk.len(),
{
    let dim = b.dim();
    if walk.len() == 1 {
        assert(crate::distance::supported_at(b.adjacency@, b.distance@, dim, walk[0], walk[0]));
    } else {
        let rest = walk.drop_last();
        assert forall|k: int| 0 <= k < rest.len() - 1 implies rest[k] == rest[k + 1] || cell(b.adjacency@, #[trigger] rest[k], rest[k + 1]) by {
            assert(walk[k] == rest[k] && walk[k + 1] == rest[k + 1]);
        }
        lemma_distance_at_most_walk(b, rest);
        let s = walk[0];
        let i = rest.last();
        let t = walk.last();
        assert(i == walk[walk.len() - 2]);
        assert(crate::distance::supported_at(b.adjacency@, b.distance@, dim, i, t));
        assert(cell(b.distance@, i, t) <= 1);
        assert(cell(b.distance@, s, t) <= cell(b.distance@, s, i) + cell(b.distance@, i, t));
    }
}

proof fn lemma_first_candidate(desired: Seq<RoomId>, open_ids: Seq<RoomId>, open_spec: Seq<Room>, id: RoomId)
    requires
        forall|x: RoomId| open_ids.contains(x) <==> has_room(open_spec, x.0 as int),
        exists|k: int| 0 <= k < desired.len() && desired[k] == id
            && forall|j: int| 0 <= j < k ==> !open_ids.contains(#[trigger] desired[j]),
        open_ids.contains(id),
    ensures
        first_open_candidate(desired, open_spec, id),
{
    let k = choose|k: int| 0 <= k < desired.len() && desired[k] == id
        && forall|j: int| 0 <= j < k ==> !open_ids.contains(#[trigger] desired[j]);
    assert forall|j: int| 0 <= j < k implies !has_room(open_spec, (#[trigger] desired[j]).0 as int) by {
        assert(!open_ids.contains(desired[j]));
    }
}

/// Every distance below the sentinel between rooms other than room 0 is the
/// length of some walk: with `lemma_distance_at_most_walk`, it is the length
/// of a shortest walk.
pub proof fn lemma_distance_has_walk(b: &Board, s: int, t: int)
    requires
        b.wf(),
        1 <= s < b.dim(),
        1 <= t < b.dim(),
        cell(b.distance@, s, t) < crate::distance::UNREACHABLE,
    ensures
        exists|walk: Seq<int>| is_walk(b, walk) && walk[0] == s && walk.last() == t
            && walk.len() - 1 <= cell(b.distance@, s, t),
    decreases cell(b.distance@, s, t),
{
    let dim = b.dim();
    assert(crate::distance::supported_at(b.adjacency@, b.distance@, dim, s, t));
    if s == t {
        let walk = seq![s];
        assert(is_walk(b, walk));
        assert(walk[0] == s && walk.last() == t && walk.len() - 1 <= cell(b.distance@, s, t));
    } else if cell(b.distance@, s, t) == 1 {
        let walk = seq![s, t];
        assert(is_walk(b, walk));
        assert(walk[0] == s && walk.last() == t && walk.len() - 1 <= cell(b.distance@, s, t));
    } else {
        let i = choose|i: int| crate::distance::routed_via(b.distance@, dim, s, t, i);
        assert(crate::distance::supported_at(b.adjacency@, b.distance@, dim, s, i));
        assert(crate::distance::supported_at(b.adjacency@, b.distance@, dim, i, t));
        lemma_distance_has_walk(b, s, i);
        lemma_distance_has_walk(b, i, t);
        let w1 = choose|walk: Seq<int>| is_walk(b, walk) && walk[0] == s && walk.last() == i
            && walk.len() - 1 <= cell(b.distance@, s, i);
        let w2 = choose|walk: Seq<int>| is_walk(b, walk) && walk[0] == i && walk.last() == t
            && walk.len() - 1 <= cell(b.distance@, i, t);
        let tail = w2.subrange(1, w2.len() as int);
        let walk = w1 + tail;
        assert forall|k: int| 0 <= k < walk.len() implies 1 <= #[trigger] walk[k] < b.dim() by {
            if k < w1.len() {
                assert(walk[k] == w1[k]);
            } else {
                assert(walk[k] == w2[k - w1.len() + 1]);
            }
        }
        assert forall|k: int| 0 <= k < walk.len() - 1 implies walk[k] == walk[k + 1] || cell(b.adjacency@, #[trigger] walk[k], walk[k + 1]) by {
            if k < w1.len() - 1 {
                assert(walk[k] == w1[k] && walk[k + 1] == w1[k + 1]);
            } else if k == w1.len() - 1 {
                assert(walk[k] == w1.last());
                assert(walk[k + 1] == w2[1]);
                assert(w2[0] == i);
            } else {
                assert(walk[k] == w2[k - w1.len() + 1] && walk[k + 1] == w2[k - w1.len() + 2]);
            }
        }
        if w2.len() == 1 {
            assert(walk =~= w1);
        } else {
            assert(walk.last() == w2.last());
        }
        assert(is_walk(b, walk));
        assert(walk[0] == w1[0]);
        assert(walk.len() - 1 <= cell(b.distance@, s, i) + cell(b.distance@, i, t));
        assert(walk[0] == s && walk.last() == t && walk.len() - 1 <= cell(b.distance@, s, t));
    }
}

} // verus!
