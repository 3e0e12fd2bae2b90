use vstd::prelude::*;

use crate::room::{empty_room_model, ChatRoom, RoomModel};

verus! {

/// The process-wide directory mapping a room id to the room that owns that
/// id's state. A room is created on first reference; all mutation of the
/// directory goes through `get_or_create` and `retire_if_idle`, under one
/// exclusive scope held by the caller, so each call below is one atomic step.
pub struct RoomRegistry {
    pub rooms: Vec<ChatRoom>,
}

/// Well-formedness of a room table: ids are unique — the single-creation
/// guarantee, by construction rather than after-the-fact repair — and every
/// room is well formed.
pub open spec fn rooms_wf(rooms: Seq<ChatRoom>) -> bool {
    &&& forall|i: int, j: int|
        0 <= i < j < rooms.len() ==> (#[trigger] rooms[i]).id != (#[trigger] rooms[j]).id
    &&& forall|i: int| 0 <= i < rooms.len() ==> (#[trigger] rooms[i]).wf()
}

impl RoomRegistry {
    /// The registry's invariant.
    pub open spec fn wf(self) -> bool {
        rooms_wf(self.rooms@)
    }

    /// Some room in the directory owns this id.
    pub open spec fn has_room(self, id: u64) -> bool {
        exists|i: int| 0 <= i < self.rooms@.len() && (#[trigger] self.rooms@[i]).id == id
    }

    /// The index of the room owning `id` (unique under `wf`).
    pub open spec fn room_index(self, id: u64) -> int {
        choose|i: int| 0 <= i < self.rooms@.len() && (#[trigger] self.rooms@[i]).id == id
    }

    /// The model of the room owning `id` (meaningful when `has_room`).
    pub open spec fn room_model(self, id: u64) -> RoomModel {
        self.rooms@[self.room_index(id)]@
    }
}

/// Under the registry invariant, a room found at index `i` is the one
/// `room_index`/`room_model` denote: at most one room owns an id.
pub proof fn lemma_room_index_unique(reg: RoomRegistry, i: int, id: u64)
    requires
        reg.wf(),
        0 <= i < reg.rooms@.len(),
        reg.rooms@[i].id == id,
    ensures
        reg.has_room(id),
        reg.room_index(id) == i,
        reg.room_model(id) == reg.rooms@[i]@,
{
    assert(reg.has_room(id));
    let j = reg.room_index(id);
    assert(0 <= j < reg.rooms@.len() && reg.rooms@[j].id == id);
    if i < j {
        assert(reg.rooms@[i].id != reg.rooms@[j].id);
    } else if j < i {
        assert(reg.rooms@[j].id != reg.rooms@[i].id);
    }
}

/// Single-creation guarantee: a well-formed directory holds at most one room
/// per id — two indices owning the same id coincide. Together with
/// `get_or_create`'s contract (a present id changes nothing, a missing id
/// appends exactly one room), first-references serialized on the registry's
/// scope can never yield two rooms for one id.
pub proof fn lemma_single_room_per_id(reg: RoomRegistry, id: u64, i: int, j: int)
    requires
        reg.wf(),
        0 <= i < reg.rooms@.len(),
        0 <= j < reg.rooms@.len(),
        reg.rooms@[i].id == id,
        reg.rooms@[j].id == id,
    ensures
        i == j,
{
    if i < j {
        assert(reg.rooms@[i].id != reg.rooms@[j].id);
    } else if j < i {
        assert(reg.rooms@[j].id != reg.rooms@[i].id);
    }
}

/// Replacing one room by a well-formed room under the same id preserves the
/// registry invariant: the contract callers of `room_at_mut` re-establish by
/// using only the room's own operations.
pub proof fn lemma_rooms_update_wf(a: Seq<ChatRoom>, b: Seq<ChatRoom>, idx: int)
    requires
        rooms_wf(a),
        0 <= idx < a.len(),
        b == a.update(idx, b[idx]),
        b[idx].wf(),
        b[idx].id == a[idx].id,
    ensures
        rooms_wf(b),
{
    assert forall|i: int, j: int| 0 <= i < j < b.len() implies (#[trigger] b[i]).id != (
    #[trigger] b[j]).id by {
        assert(a[i].id != a[j].id);
    };
    assert forall|i: int| 0 <= i < b.len() implies (#[trigger] b[i]).wf() by {
        if i != idx {
            assert(b[i] == a[i]);
        }
    };
}

fn find_room(rooms: &Vec<ChatRoom>, id: u64) -> (r: Option<usize>)
    ensures
        match r {
            Some(i) => i < rooms@.len() && rooms@[i as int].id == id,
            None => forall|k: int| 0 <= k < rooms@.len() ==> (#[trigger] rooms@[k]).id != id,
        },
{
    let mut i: usize = 0;
    while i < rooms.len()
        invariant
            i <= rooms@.len(),
            forall|k: int| 0 <= k < i ==> (#[trigger] rooms@[k]).id != id,
        decreases rooms@.len() - i,
    {
        if rooms[i].id == id {
            return Some(i);
        }
        i += 1;
    }
    None
}

impl RoomRegistry {
    /// An empty directory.
    pub fn new() -> (r: RoomRegistry)
        ensures
            r.wf(),
            r.rooms@.len() == 0,
    {
        RoomRegistry { rooms: Vec::new() }
    }

    /// Returns the index of the room owning `room_id`, creating it first if
    /// no room owns that id yet. Exactly one room per id ever exists: a
    /// lookup of a present id changes nothing — so repeating the call, as
    /// racing first-accessors serialized on the registry's scope do, creates
    /// nothing further — and a miss appends one fresh room (empty rosters,
    /// membership load pending).
    pub fn get_or_create(&mut self, room_id: u64) -> (idx: usize)
        requires
            old(self).wf(),
        ensures
            final(self).wf(),
            idx < final(self).rooms@.len(),
            final(self).rooms@[idx as int].id == room_id,
            final(self).has_room(room_id),
            final(self).room_index(room_id) == idx as int,
            old(self).has_room(room_id) ==> final(self).rooms@ == old(self).rooms@ && idx as int
                == old(self).room_index(room_id),
            !old(self).has_room(room_id) ==> {
                &&& final(self).rooms@.len() == old(self).rooms@.len() + 1
                &&& idx as int == old(self).rooms@.len()
                &&& final(self).rooms@.subrange(0, old(self).rooms@.len() as int) == old(
                    self,
                ).rooms@
                &&& final(self).rooms@[idx as int]@ == empty_room_model(room_id)
            },
    {
        let found = find_room(&self.rooms, room_id);
        match found {
            Some(i) => {
                proof {
                    lemma_room_index_unique(*self, i as int, room_id);
                }
                i
            },
            None => {
                let idx = self.rooms.len();
                let room = ChatRoom::new(room_id);
                self.rooms.push(room);
                proof {
                    assert(self.rooms@.subrange(0, old(self).rooms@.len() as int) =~= old(
                        self,
                    ).rooms@);
                    assert forall|i: int, j: int| 0 <= i < j < self.rooms@.len() implies (
                    #[trigger] self.rooms@[i]).id != (#[trigger] self.rooms@[j]).id by {
                        if j < self.rooms@.len() - 1 {
                            assert(old(self).rooms@[i].id != old(self).rooms@[j].id);
                        } else {
                            assert(old(self).rooms@[i].id != room_id);
                        }
                    };
                    assert forall|i: int| 0 <= i < self.rooms@.len() implies (
                    #[trigger] self.rooms@[i]).wf() by {
                        if i < self.rooms@.len() - 1 {
                            assert(old(self).rooms@[i].wf());
                        }
                    };
                    lemma_room_index_unique(*self, idx as int, room_id);
                }
                idx
            },
        }
    }

    /// Retires the room owning `room_id` when it is idle: no member is
    /// active. The policy is immediate eligibility — a room is removable as
    /// soon as its presence set empties; callers defer or batch the calls as
    /// they see fit, and a new `get_or_create` simply recreates the room.
    /// Retiring a missing or non-idle room is a no-op, never an error.
    pub fn retire_if_idle(&mut self, room_id: u64)
        requires
            old(self).wf(),
        ensures
            final(self).wf(),
            !old(self).has_room(room_id) ==> final(self).rooms@ == old(self).rooms@,
            old(self).has_room(room_id) && old(self).room_model(room_id).active != Set::<
                u64,
            >::empty() ==> final(self).rooms@ == old(self).rooms@,
            old(self).has_room(room_id) && old(self).room_model(room_id).active == Set::<
                u64,
            >::empty() ==> final(self).rooms@ == old(self).rooms@.remove(
                old(self).room_index(room_id),
            ),
    {
        let found = find_room(&self.rooms, room_id);
        let idx = match found {
            None => {
                return ;
            },
            Some(i) => i,
        };
        proof {
            lemma_room_index_unique(*self, idx as int, room_id);
        }
        if self.rooms[idx].active_count() == 0 {
            proof {
                assert(old(self).room_model(room_id).active.len() == 0);
                assert(old(self).room_model(room_id).active =~= Set::<u64>::empty());
            }
            let _ = self.rooms.remove(idx);
            proof {
                assert forall|i: int, j: int| 0 <= i < j < self.rooms@.len() implies (
                #[trigger] self.rooms@[i]).id != (#[trigger] self.rooms@[j]).id by {
                    let a = old(self).rooms@;
                    let bi: int = if i < idx as int {
                        i
                    } else {
                        i + 1
                    };
                    let bj: int = if j < idx as int {
                        j
                    } else {
                        j + 1
                    };
                    assert(self.rooms@[i] == a[bi]);
                    assert(self.rooms@[j] == a[bj]);
                    assert(a[bi].id != a[bj].id);
                };
                assert forall|i: int| 0 <= i < self.rooms@.len() implies (
                #[trigger] self.rooms@[i]).wf() by {
                    let a = old(self).rooms@;
                    let bi: int = if i < idx as int {
                        i
                    } else {
                        i + 1
                    };
                    assert(self.rooms@[i] == a[bi]);
                    assert(a[bi].wf());
                };
            }
        } else {
            proof {
                let s = old(self).room_model(room_id).active;
                assert(s.len() != 0);
                if s == Set::<u64>::empty() {
                    assert(s.len() == 0);
                }
            }
        }
    }

    /// How many rooms the directory currently holds.
    pub fn room_count(&self) -> (n: usize)
        ensures
            n == self.rooms@.len(),
    {
        self.rooms.len()
    }

    /// Read access to the room at `idx`.
    pub fn room_at(&self, idx: usize) -> (room: &ChatRoom)
        requires
            idx < self.rooms@.len(),
        ensures
            *room == self.rooms@[idx as int],
    {
        &self.rooms[idx]
    }

    /// Exclusive access to the room at `idx`: the per-room serialization
    /// point. The caller mutates the room only through its own operations,
    /// which keep its id and well-formedness, and `lemma_rooms_update_wf`
    /// then restores the registry invariant.
    pub fn room_at_mut(&mut self, idx: usize) -> (room: &mut ChatRoom)
        requires
            idx < old(self).rooms@.len(),
        ensures
            *room == old(self).rooms@[idx as int],
            final(self).rooms@ == old(self).rooms@.update(idx as int, *final(room)),
    {
        &mut self.rooms[idx]
    }
}

} // verus!
