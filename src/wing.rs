//! Named groups of rooms that a board can close together.

use vstd::prelude::*;
use crate::room::{RoomId, ids_text, push_ids_text};

verus! {

#[derive(Clone, Debug)]
pub struct Wing {
    pub name: String,
    pub room_ids: Vec<RoomId>,
}

impl Wing {
    pub fn new(name: &str, room_ids: Vec<RoomId>) -> (r: Wing)
        ensures
            r.name@ == name@,
            r.room_ids@ == room_ids@,
    {
        Wing { name: String::from_str(name), room_ids }
    }

    /// Text of the wing: `name;comma-separated room ids`.
    pub fn to_string(&self) -> (r: String)
        ensures
            r@ == self.name@ + seq![';'] + ids_text(self.room_ids@),
    {
        let mut s = String::from_str(self.name.as_str());
        proof { reveal_strlit(";"); }
        s.append(";");
        push_ids_text(&mut s, &self.room_ids);
        s
    }
}

} // verus!
