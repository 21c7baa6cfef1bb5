//! Worker agents and the room sets they monitor.

use vstd::prelude::*;

use crate::room::{contains_room, Room};

verus! {

/// The mathematical picture of one worker: its identity and the rooms it
/// holds, in order.
pub ghost struct WorkerView {
    pub id: u128,
    pub rooms: Seq<Room>,
}

/// A worker agent: an identity, the rooms it currently monitors, and the
/// recorded count of those rooms.
#[derive(Debug, Clone)]
pub struct RoomsWorker {
    pub id: u128,
    pub length: i32,
    pub rooms: Vec<Room>,
}

impl View for RoomsWorker {
    type V = WorkerView;

    open spec fn view(&self) -> WorkerView {
        WorkerView { id: self.id, rooms: self.rooms@ }
    }
}

impl RoomsWorker {
    /// Well-formed: the recorded length matches the room list, and no room
    /// is held twice.
    pub open spec fn wf(self) -> bool {
        self.length as int == self.rooms@.len() && self.rooms@.no_duplicates()
    }

    /// Adds `room` at the end, unless it is already held.
    pub fn rooms_append(&mut self, room: Room)
        requires
            old(self).wf(),
            old(self).rooms@.len() < i32::MAX as int,
        ensures
            final(self).wf(),
            final(self).id == old(self).id,
            final(self)@.rooms == if old(self)@.rooms.contains(room) {
                old(self)@.rooms
            } else {
                old(self)@.rooms.push(room)
            },
    {
        if !contains_room(&self.rooms, room) {
            proof {
                let s = self.rooms@;
                let t = s.push(room);
                assert forall|i: int, j: int|
                    0 <= i < t.len() && 0 <= j < t.len() && i != j implies t[i] != t[j] by {
                    if i < s.len() && j < s.len() {
                        assert(t[i] == s[i] && t[j] == s[j]);
                    } else if j == s.len() {
                        assert(t[j] == room && t[i] == s[i]);
                        if s[i] == room {
                            assert(s.contains(room));
                        }
                    } else {
                        assert(t[i] == room && t[j] == s[j]);
                        if s[j] == room {
                            assert(s.contains(room));
                        }
                    }
                }
            }
            self.rooms.push(room);
            self.length = self.length + 1;
        }
    }

    /// Removes `room` if it is held.
    pub fn rooms_remove(&mut self, room: Room)
        requires
            old(self).wf(),
        ensures
            final(self).wf(),
            final(self).id == old(self).id,
            final(self)@.rooms == old(self)@.rooms.remove_value(room),
    {
        let ghost s = old(self).rooms@;
        let mut i: usize = 0;
        while i < self.rooms.len()
            invariant
                i <= s.len(),
                self.id == old(self).id,
                self.rooms@ == s,
                self.length as int == s.len(),
                s == old(self).rooms@,
                s.no_duplicates(),
                forall|j: int| 0 <= j < i ==> s[j] != room,
            decreases s.len() - i,
        {
            if self.rooms[i] == room {
                self.rooms.remove(i);
                self.length = self.length - 1;
                proof {
                    s.index_of_first_ensures(room);
                    assert(s.contains(room));
                    let idx = s.index_of_first(room).unwrap();
                    assert(idx == i as int);
                    s.remove_ensures(i as int);
                    let t = s.remove(i as int);
                    assert forall|a: int, b: int|
                        0 <= a < t.len() && 0 <= b < t.len() && a != b implies t[a] != t[b] by {
                        let a0 = if a < i as int { a } else { a + 1 };
                        let b0 = if b < i as int { b } else { b + 1 };
                        assert(t[a] == s[a0] && t[b] == s[b0]);
                    }
                }
                return;
            }
            i = i + 1;
        }
        proof {
            assert(!s.contains(room)) by {
                if s.contains(room) {
                    let w = choose|w: int| 0 <= w < s.len() && s[w] == room;
                }
            }
            s.index_of_first_ensures(room);
        }
    }
}

/// The views of a worker sequence.
pub open spec fn views(s: Seq<RoomsWorker>) -> Seq<WorkerView> {
    s.map_values(|w: RoomsWorker| w@)
}

} // verus!
