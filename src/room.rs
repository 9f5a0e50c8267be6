//! Rooms of the board and their ids.

use vstd::prelude::*;
use crate::text::{int_text, push_int};

verus! {

/// Non-negative identifier of a room.
#[derive(Clone, Copy, Debug, PartialEq, Eq, Hash, Structural)]
pub struct RoomId(pub i32);

/// A room with the rooms one step away and the rooms in sight.
#[derive(Clone, Debug)]
pub struct Room {
    pub id: RoomId,
    pub name: String,
    pub adjacent: Vec<RoomId>,
    pub visible: Vec<RoomId>,
}

/// Comma-separated decimal ids.
pub open spec fn ids_text(ids: Seq<RoomId>) -> Seq<char>
    decreases ids.len(),
{
    if ids.len() == 0 {
        Seq::empty()
    } else if ids.len() == 1 {
        int_text(ids[0].0 as int)
    } else {
        ids_text(ids.drop_last()) + seq![','] + int_text(ids.last().0 as int)
    }
}

/// The ids of `ids` that are not in `closed`, in their order.
pub open spec fn ids_without(ids: Seq<RoomId>, closed: Seq<RoomId>) -> Seq<RoomId> {
    ids.filter(|r: RoomId| !closed.contains(r))
}

/// Text of a room: `id;name;A:adjacent ids;V:visible ids`.
pub open spec fn room_text(id: RoomId, name: Seq<char>, adjacent: Seq<RoomId>, visible: Seq<RoomId>) -> Seq<char> {
    int_text(id.0 as int) + seq![';'] + name + seq![';', 'A', ':'] + ids_text(adjacent) + seq![';', 'V', ':'] + ids_text(visible)
}

/// Whether `id` is one of `ids`.
pub fn contains_room_id(ids: &[RoomId], id: RoomId) -> (r: bool)
    ensures
        r == ids@.contains(id),
{
    let mut i: usize = 0;
    while i < ids.len()
        invariant
            i <= ids@.len(),
            forall|j: int| 0 <= j < i ==> ids@[j] != id,
        decreases ids.len() - i,
    {
        if ids[i] == id {
            return true;
        }
        i = i + 1;
    }
    false
}

/// Appends the comma-separated ids.
pub fn push_ids_text(s: &mut String, ids: &Vec<RoomId>)
    ensures
        final(s)@ == old(s)@ + ids_text(ids@),
{
    let mut i: usize = 0;
    while i < ids.len()
        invariant
            i <= ids@.len(),
            s@ == old(s)@ + ids_text(ids@.subrange(0, i as int)),
        decreases ids.len() - i,
    {
        proof { reveal_strlit(","); }
        if i > 0 {
            s.append(",");
        }
        push_int(s, ids[i].0 as i64);
        proof {
            let prefix = ids@.subrange(0, i as int + 1);
            assert(prefix.drop_last() =~= ids@.subrange(0, i as int));
            assert(prefix.last() == ids@[i as int]);
            if i > 0 {
                assert(ids_text(prefix) == ids_text(prefix.drop_last()) + seq![','] + int_text(prefix.last().0 as int));
            }
            assert(s@ =~= old(s)@ + ids_text(prefix));
        }
        i = i + 1;
    }
    assert(ids@.subrange(0, ids@.len() as int) =~= ids@);
}

/// The ids of `ids` that are not in `closed`, in their order.
fn without_ids(ids: &Vec<RoomId>, closed: &[RoomId]) -> (r: Vec<RoomId>)
    ensures
        r@ == ids_without(ids@, closed@),
{
    let mut r: Vec<RoomId> = Vec::new();
    let mut i: usize = 0;
    while i < ids.len()
        invariant
            i <= ids@.len(),
            r@ == ids_without(ids@.subrange(0, i as int), closed@),
        decreases ids.len() - i,
    {
        let keep = !contains_room_id(closed, ids[i]);
        if keep {
            r.push(ids[i]);
        }
        proof {
            let prefix = ids@.subrange(0, i as int + 1);
            assert(prefix.drop_last() =~= ids@.subrange(0, i as int));
            reveal(Seq::filter);
        }
        i = i + 1;
    }
    assert(ids@.subrange(0, ids@.len() as int) =~= ids@);
    r
}

impl Room {
    pub fn new(id: RoomId, name: &str, adjacent: Vec<RoomId>, visible: Vec<RoomId>) -> (r: Room)
        ensures
            r.id == id,
            r.name@ == name@,
            r.adjacent@ == adjacent@,
            r.visible@ == visible@,
    {
        Room { id, name: String::from_str(name), adjacent, visible }
    }

    /// The same room with every reference to a closed room removed.
    pub fn without_closed(&self, closed_room_ids: &[RoomId]) -> (r: Room)
        ensures
            r.id == self.id,
            r.name@ == self.name@,
            r.adjacent@ == ids_without(self.adjacent@, closed_room_ids@),
            r.visible@ == ids_without(self.visible@, closed_room_ids@),
    {
        let adjacent = without_ids(&self.adjacent, closed_room_ids);
        let visible = without_ids(&self.visible, closed_room_ids);
        Room::new(self.id, self.name.as_str(), adjacent, visible)
    }

    /// Text of the room: `id;name;A:adjacent ids;V:visible ids`.
    pub fn to_string(&self) -> (r: String)
        ensures
            r@ == room_text(self.id, self.name@, self.adjacent@, self.visible@),
    {
        let mut s = String::new();
        push_int(&mut s, self.id.0 as i64);
        proof {
            reveal_strlit(";");
            reveal_strlit(";A:");
            reveal_strlit(";V:");
        }
        s.append(";");
        s.append(self.name.as_str());
        s.append(";A:");
        push_ids_text(&mut s, &self.adjacent);
        s.append(";V:");
        push_ids_text(&mut s, &self.visible);
        assert(s@ =~= room_text(self.id, self.name@, self.adjacent@, self.visible@));
        s
    }
}

/// The ids of the rooms, in their order.
pub fn room_ids(rooms: &[Room]) -> (r: Vec<RoomId>)
    ensures
        r@.len() == rooms@.len(),
        forall|i: int| 0 <= i < rooms@.len() ==> r@[i] == rooms@[i].id,
{
    let mut r: Vec<RoomId> = Vec::new();
    let mut i: usize = 0;
    while i < rooms.len()
        invariant
            i <= rooms@.len(),
            r@.len() == i,
            forall|j: int| 0 <= j < i ==> r@[j] == rooms@[j].id,
        decreases rooms.len() - i,
    {
        r.push(rooms[i].id);
        i = i + 1;
    }
    r
}

} // verus!
