//! Classrooms and the course entries that name them.

use crate::text::{trim_str, trimmed};
use vstd::prelude::*;

verus! {

/// A classroom with its broadcast device.
#[derive(Clone, Debug)]
pub struct Room {
    pub name: String,
    pub device_code: String,
    pub room_id: i32,
    /// The live broadcast this entry belongs to.
    pub id: i64,
}

impl Room {
    pub fn new(name: String, device_code: String, room_id: i32, id: i64) -> (r: Room)
        ensures
            r.name == name,
            r.device_code == device_code,
            r.room_id == room_id,
            r.id == id,
    {
        Room { name, device_code, room_id, id }
    }

    pub fn name(&self) -> (r: &str)
        ensures
            r@ == self.name@,
    {
        self.name.as_str()
    }

    pub fn device_code(&self) -> (r: &str)
        ensures
            r@ == self.device_code@,
    {
        self.device_code.as_str()
    }

    /// The same room with white space trimmed from both ends of its name.
    pub fn trim(self) -> (r: Room)
        ensures
            r.name@ == trimmed(self.name@),
            trimmed(r.name@) == r.name@,
            r.device_code == self.device_code,
            r.room_id == self.room_id,
            r.id == self.id,
    {
        let name = trim_str(self.name.as_str());
        Room { name, device_code: self.device_code, room_id: self.room_id, id: self.id }
    }

    /// A field-by-field copy.
    pub fn copied(&self) -> (r: Room)
        ensures
            r == *self,
    {
        Room {
            name: self.name.clone(),
            device_code: self.device_code.clone(),
            room_id: self.room_id,
            id: self.id,
        }
    }

    /// The room of live broadcast `live_id` among a course's entries: the
    /// first entry for that broadcast, its name trimmed. `None` when no entry
    /// is for it.
    pub fn pick_room(entries: Vec<Room>, live_id: i64) -> (r: Option<Room>)
        ensures
            r is None <==> forall|k: int| 0 <= k < entries@.len() ==> (#[trigger] entries@[k]).id
                != live_id,
            r matches Some(room) ==> exists|k: int|
                0 <= k < entries@.len() && (#[trigger] entries@[k]).id == live_id && (forall|m: int|
                    0 <= m < k ==> entries@[m].id != live_id) && room.name@ == trimmed(
                    entries@[k].name@,
                ) && trimmed(room.name@) == room.name@ && room.device_code == entries@[k].device_code && room.room_id
                    == entries@[k].room_id && room.id == live_id,
    {
        let mut i: usize = 0;
        while i < entries.len()
            invariant
                i <= entries@.len(),
                forall|m: int| 0 <= m < i ==> (#[trigger] entries@[m]).id != live_id,
            decreases entries@.len() - i,
        {
            if entries[i].id == live_id {
                let room = entries[i].copied();
                return Some(room.trim());
            }
            i = i + 1;
        }
        None
    }
}

} // verus!
