//! Room session registry: tracks which rooms currently have an active or
//! in-progress playback, enforcing at most one concurrent stream per room.
//!
//! Reservation is check-and-set in a single call, so two playback attempts
//! for the same room can never both acquire the room. Release is idempotent:
//! the two asynchronous termination paths (track finished, transport
//! dropped) may both release the same room, in any order.

use vstd::prelude::*;

verus! {

/// Outcome of reserving `room` in the abstract reservation set `s`:
/// the new set, and whether the reservation was acquired.
pub open spec fn spec_try_reserve(s: Set<u64>, room: u64) -> (Set<u64>, bool) {
    if s.contains(room) {
        (s, false)
    } else {
        (s.insert(room), true)
    }
}

/// Outcome of releasing `room` in the abstract reservation set `s`.
pub open spec fn spec_release(s: Set<u64>, room: u64) -> Set<u64> {
    s.remove(room)
}

/// The set of rooms that are currently busy (joined and streaming, or in the
/// process of joining). Viewed as a set of room identifiers.
pub struct RoomRegistry {
    rooms: Vec<u64>,
}

impl View for RoomRegistry {
    type V = Set<u64>;

    closed spec fn view(&self) -> Set<u64> {
        self.rooms@.to_set()
    }
}

impl RoomRegistry {
    /// Each reserved room is held exactly once.
    pub closed spec fn wf(self) -> bool {
        self.rooms@.no_duplicates()
    }

    pub fn new() -> (r: RoomRegistry)
        ensures
            r.wf(),
            r@ == Set::<u64>::empty(),
    {
        let r = RoomRegistry { rooms: Vec::new() };
        proof {
            assert(r.rooms@.to_set() =~= Set::<u64>::empty());
        }
        r
    }

    /// Index of `room` in the backing vector, if reserved.
    fn find(&self, room: u64) -> (r: Option<usize>)
        ensures
            match r {
                Some(i) => i < self.rooms@.len() && self.rooms@[i as int] == room,
                None => !self@.contains(room),
            },
    {
        let mut i: usize = 0;
        while i < self.rooms.len()
            invariant
                i <= self.rooms@.len(),
                forall|k: int| 0 <= k < i ==> self.rooms@[k] != room,
            decreases self.rooms@.len() - i,
        {
            if self.rooms[i] == room {
                return Some(i);
            }
            i = i + 1;
        }
        proof {
            assert(!self.rooms@.contains(room));
        }
        None
    }

    /// Atomically check whether `room` is busy and reserve it if not.
    /// Returns true exactly when the reservation was acquired; on failure
    /// the registry is unchanged.
    pub fn try_reserve(&mut self, room: u64) -> (acquired: bool)
        requires
            old(self).wf(),
        ensures
            final(self).wf(),
            acquired == !old(self)@.contains(room),
            final(self)@ == spec_try_reserve(old(self)@, room).0,
            acquired == spec_try_reserve(old(self)@, room).1,
    {
        proof {
            assert(old(self)@.contains(room) == old(self).rooms@.contains(room));
        }
        match self.find(room) {
            Some(_) => false,
            None => {
                let ghost before = self.rooms@;
                self.rooms.push(room);
                proof {
                    assert forall|k: int, l: int|
                        0 <= k < self.rooms@.len() && 0 <= l < self.rooms@.len() && k != l
                        implies self.rooms@[k] != self.rooms@[l] by {
                        if k < before.len() && l < before.len() {
                            assert(before.no_duplicates());
                        } else if k == before.len() as int {
                            assert(self.rooms@[k] == room);
                            assert(!before.contains(room));
                        } else {
                            assert(self.rooms@[l] == room);
                            assert(!before.contains(room));
                        }
                    }
                    assert(self.rooms@.no_duplicates());
                    assert(self.rooms@.to_set() =~= before.to_set().insert(room)) by {
                        assert forall|y: u64| self.rooms@.contains(y)
                            implies before.to_set().insert(room).contains(y) by {
                            let j = choose|j: int|
                                0 <= j < self.rooms@.len() && self.rooms@[j] == y;
                            if j < before.len() {
                                assert(before[j] == y);
                            }
                        }
                        assert forall|y: u64| before.to_set().insert(room).contains(y)
                            implies self.rooms@.contains(y) by {
                            if before.contains(y) {
                                let j = choose|j: int|
                                    0 <= j < before.len() && before[j] == y;
                                assert(self.rooms@[j] == y);
                            } else {
                                assert(self.rooms@[before.len() as int] == room);
                            }
                        }
                    }
                }
                true
            }
        }
    }

    /// Release `room`. A no-op when the room is not reserved, so the two
    /// termination paths may race each other and a later attempt freely.
    pub fn release(&mut self, room: u64)
        requires
            old(self).wf(),
        ensures
            final(self).wf(),
            final(self)@ == spec_release(old(self)@, room),
            !final(self)@.contains(room),
    {
        match self.find(room) {
            Some(i) => {
                let ghost before = self.rooms@;
                self.rooms.remove(i);
                proof {
                    assert(self.rooms@ == before.remove(i as int));
                    before.remove_ensures(i as int);
                    assert(self.rooms@.no_duplicates());
                    assert(self.rooms@.to_set() =~= before.to_set().remove(room)) by {
                        assert forall|y: u64| self.rooms@.contains(y)
                            implies before.to_set().remove(room).contains(y) by {
                            let j = choose|j: int|
                                0 <= j < self.rooms@.len() && self.rooms@[j] == y;
                            if j < i {
                                assert(before[j] == y);
                                assert(before.no_duplicates());
                                assert(before[i as int] == room);
                            } else {
                                assert(before[j + 1] == y);
                                assert(before.no_duplicates());
                                assert(before[i as int] == room);
                            }
                        }
                        assert forall|y: u64| before.to_set().remove(room).contains(y)
                            implies self.rooms@.contains(y) by {
                            let j = choose|j: int| 0 <= j < before.len() && before[j] == y;
                            if j < i {
                                assert(self.rooms@[j] == y);
                            } else {
                                assert(j != i);
                                assert(self.rooms@[j - 1] == y);
                            }
                        }
                    }
                    assert(!before.to_set().remove(room).contains(room));
                }
            }
            None => {
                proof {
                    assert(self.rooms@.to_set() =~= self.rooms@.to_set().remove(room));
                }
            }
        }
    }
}

/// Law: reserving a room that is already reserved fails and changes nothing.
pub proof fn lemma_reserve_while_reserved(s: Set<u64>, room: u64)
    requires
        s.contains(room),
    ensures
        spec_try_reserve(s, room).1 == false,
        spec_try_reserve(s, room).0 == s,
{
}

/// Law: mutual exclusion per room. After a successful reservation of a room,
/// a second reservation of the same room fails until the room is released.
pub proof fn lemma_reserve_mutual_exclusion(s: Set<u64>, room: u64)
    requires
        spec_try_reserve(s, room).1,
    ensures
        spec_try_reserve(spec_try_reserve(s, room).0, room).1 == false,
{
}

/// Law: reserving or releasing one room never disturbs another room's
/// reservation, so the exclusion window of a room closes only at its own
/// release.
pub proof fn lemma_reservation_preserved(s: Set<u64>, room: u64, other: u64)
    requires
        s.contains(room),
        other != room,
    ensures
        spec_try_reserve(s, other).0.contains(room),
        spec_release(s, other).contains(room),
{
}

/// Law: release is idempotent. Releasing a room leaves it unreserved, and
/// releasing it again (or releasing a room that was never reserved) leaves
/// the set exactly as one release does.
pub proof fn lemma_release_idempotent(s: Set<u64>, room: u64)
    ensures
        !spec_release(s, room).contains(room),
        spec_release(spec_release(s, room), room) == spec_release(s, room),
{
    assert(spec_release(spec_release(s, room), room) =~= spec_release(s, room));
}

} // verus!
