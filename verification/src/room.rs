//! Room identities and the transient shapes they take during pool
//! construction.

use vstd::prelude::*;

verus! {

/// A monitored broadcast room, identified by the pair
/// `(liver_uid, room_id)`. A room is a pure value: its identity never
/// changes, and two rooms are the same exactly when both components match.
#[derive(Debug, PartialEq, Eq, Structural, Hash, Clone, Copy)]
pub struct Room(pub i64, pub i64);

/// A room paired with the priority weight it received during pool
/// construction. Higher weight means higher priority. The weight is kept
/// wide enough that a category weight plus a viewer-count signal, both
/// 64-bit, can never overflow it.
#[derive(Debug, Clone, Copy)]
pub struct WeightedRoom {
    pub weight: i128,
    pub room: Room,
}

/// A dynamically discovered room: its identity, the category it was found
/// under, and a secondary numeric signal (e.g. concurrent viewers) that is
/// added to the category's weight.
#[derive(Debug)]
pub struct RoomState {
    pub uid: i64,
    pub roomid: i64,
    pub parent_name: String,
    pub watched_num: i64,
}

/// Whether `v` holds `room`, by value.
pub fn contains_room(v: &Vec<Room>, room: Room) -> (b: bool)
    ensures
        b == v@.contains(room),
{
    let mut i: usize = 0;
    while i < v.len()
        invariant
            i <= v@.len(),
            forall|j: int| 0 <= j < i ==> v@[j] != room,
        decreases v@.len() - i,
    {
        if v[i] == room {
            return true;
        }
        i = i + 1;
    }
    false
}

} // verus!
