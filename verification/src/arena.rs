//! Rows behind handles that go stale when a row leaves.

use vstd::prelude::*;

use crate::ordered::{OrderedMap, Ranked};

verus! {

/// Handles made of a slot and a generation of that slot.
pub trait Handle: Ranked {
    /// The slot.
    spec fn slot(self) -> u32;

    /// The generation of the slot.
    spec fn age(self) -> u32;

    /// Slots come first in the order of handles, then generations.
    proof fn rank_is_slot_then_age(self)
        ensures
            self.rank() == self.slot() * 0x1_0000_0000 + self.age(),
    ;

    /// The slot.
    fn slot_of(self) -> (slot: u32)
        ensures
            slot == self.slot(),
    ;

    /// The handle of a slot's generation.
    fn mint(slot: u32, age: u32) -> (handle: Self)
        ensures
            handle.slot() == slot,
            handle.age() == age,
    ;
}

/// Rows by handle. A slot whose row left is used again, the last one to leave
/// first, under a later generation.
#[derive(Debug)]
pub struct Arena<K: Handle, V> {
    /// Live rows.
    pub rows: OrderedMap<K, V>,
    /// The generation that each slot is in.
    pub ages: Vec<u32>,
    /// Slots without a row, the next to be used last.
    pub vacant: Vec<u32>,
}

impl<K: Handle, V> Arena<K, V> {
    /// Live handles carry their slot's generation, and vacant slots carry no row.
    pub open spec fn wf(&self) -> bool {
        &&& self.rows.wf()
        &&& forall|key: K|
            #![trigger self.rows.keys@.contains(key)]
            self.rows.keys@.contains(key) ==> key.slot() < self.ages@.len() && key.age()
                == self.ages@[key.slot() as int] && !self.vacant@.contains(key.slot())
        &&& forall|i: int|
            #![trigger self.vacant@[i]]
            0 <= i < self.vacant@.len() ==> self.vacant@[i] < self.ages@.len()
        &&& forall|i: int, j: int|
            #![trigger self.vacant@[i], self.vacant@[j]]
            0 <= i < j < self.vacant@.len() ==> self.vacant@[i] != self.vacant@[j]
        &&& self.ages@.len() <= u32::MAX
    }

    /// The handle that the next row gets.
    pub open spec fn next_slot(&self) -> int {
        if self.vacant@.len() > 0 {
            self.vacant@.last() as int
        } else {
            self.ages@.len() as int
        }
    }

    /// Whether rows stand in the order in which they came and none has left.
    pub open spec fn gapless(&self) -> bool {
        &&& self.vacant@.len() == 0
        &&& self.ages@.len() == self.rows.keys@.len()
        &&& forall|i: int|
            #![trigger self.rows.keys@[i]]
            0 <= i < self.rows.keys@.len() ==> self.rows.keys@[i].slot() == i
                && self.rows.keys@[i].age() == 0
    }

    /// Adds a row behind all others.
    pub(crate) fn append(&mut self, row: V) -> (key: K)
        requires
            old(self).wf(),
            old(self).gapless(),
            old(self).rows.keys@.len() < u32::MAX,
        ensures
            final(self).wf(),
            final(self).gapless(),
            final(self).rows.keys@ == old(self).rows.keys@.push(key),
            final(self).rows.values@ == old(self).rows.values@.push(row),
            key.slot() == old(self).rows.keys@.len(),
            key.age() == 0,
            final(self).rows@ == old(self).rows@.insert(key, row),
    {
        self.insert(row)
    }

    /// An arena without rows.
    pub fn new() -> (arena: Self)
        ensures
            arena.wf(),
            arena.rows.keys@ == Seq::<K>::empty(),
            arena.rows.values@ == Seq::<V>::empty(),
            arena.ages@ == Seq::<u32>::empty(),
            arena.vacant@ == Seq::<u32>::empty(),
    {
        Arena { rows: OrderedMap::new(), ages: Vec::new(), vacant: Vec::new() }
    }

    /// Number of live rows.
    pub fn len(&self) -> (count: usize)
        ensures
            count == self.rows.keys@.len(),
    {
        self.rows.len()
    }

    /// The live row behind `key`.
    pub fn get(&self, key: K) -> (row: Option<&V>)
        requires
            self.wf(),
        ensures
            row is Some <==> self.rows@.dom().contains(key),
            row is Some ==> *row->0 == self.rows@[key],
    {
        self.rows.get(key)
    }

    /// Adds a row; its handle has never been live before it.
    pub fn insert(&mut self, row: V) -> (key: K)
        requires
            old(self).wf(),
            old(self).vacant@.len() > 0 || old(self).ages@.len() < u32::MAX,
        ensures
            final(self).wf(),
            !old(self).rows@.dom().contains(key),
            final(self).rows@ == old(self).rows@.insert(key, row),
            key.slot() == old(self).next_slot(),
            key.age() == (if old(self).vacant@.len() > 0 {
                old(self).ages@[old(self).next_slot()]
            } else {
                0
            }),
            final(self).vacant@ == (if old(self).vacant@.len() > 0 {
                old(self).vacant@.drop_last()
            } else {
                old(self).vacant@
            }),
            final(self).ages@ == (if old(self).vacant@.len() > 0 {
                old(self).ages@
            } else {
                old(self).ages@.push(0)
            }),
            old(self).vacant@.len() == 0 ==> final(self).rows.keys@ == old(self).rows.keys@.push(
                key,
            ) && final(self).rows.values@ == old(self).rows.values@.push(row),
    {
        let ghost before = *self;
        let slot: u32;
        let age: u32;
        match self.vacant.pop() {
            Some(free) => {
                slot = free;
                age = self.ages[free as usize];
                proof {
                    assert(before.vacant@[before.vacant@.len() - 1] == free);
                    assert(before.vacant@.contains(free));
                }
            },
            None => {
                slot = self.ages.len() as u32;
                age = 0;
                self.ages.push(0);
            },
        }
        let key = K::mint(slot, age);
        proof {
            if before.rows.keys@.contains(key) {
                assert(key.slot() < before.ages@.len());
                assert(!before.vacant@.contains(key.slot()));
            }
            if before.vacant@.len() == 0 && before.rows.keys@.len() > 0 {
                let last = before.rows.keys@.last();
                assert(before.rows.keys@[before.rows.keys@.len() - 1] == last);
                assert(before.rows.keys@.contains(last));
                last.rank_is_slot_then_age();
                key.rank_is_slot_then_age();
            }
        }
        self.rows.insert(key, row);
        proof {
            if before.vacant@.len() == 0 && before.rows.keys@.len() == 0 {
                assert(self.rows.keys@ =~= before.rows.keys@.push(key));
                assert(self.rows.values@ =~= before.rows.values@.push(row));
            }
            assert forall|other: K| #![trigger self.rows.keys@.contains(other)]
                self.rows.keys@.contains(other) implies other.slot() < self.ages@.len()
                && other.age() == self.ages@[other.slot() as int] && !self.vacant@.contains(
                other.slot(),
            ) by {
                if before.rows.keys@.contains(other) {
                    if self.vacant@.contains(other.slot()) {
                        let i = self.vacant@.index_of(other.slot());
                        assert(before.vacant@[i] == other.slot());
                    }
                } else {
                    assert(other == key);
                    if self.vacant@.contains(slot) {
                        let i = self.vacant@.index_of(slot);
                        if before.vacant@.len() > 0 {
                            assert(before.vacant@[i] == before.vacant@[before.vacant@.len() - 1]);
                        } else {
                            assert(before.vacant@[i] == slot);
                        }
                    }
                }
            }
        }
        key
    }

    /// Takes a row out; says whether it was live. Its slot moves to the next generation.
    pub fn remove(&mut self, key: K) -> (held: bool)
        requires
            old(self).wf(),
        ensures
            final(self).wf(),
            held == old(self).rows@.dom().contains(key),
            final(self).rows@ == old(self).rows@.remove(key),
            !held ==> final(self).ages@ == old(self).ages@ && final(self).vacant@
                == old(self).vacant@,
            held && key.age() < u32::MAX ==> final(self).vacant@ == old(self).vacant@.push(
                key.slot(),
            ) && final(self).ages@ == old(self).ages@.update(
                key.slot() as int,
                (key.age() + 1) as u32,
            ),
            held && key.age() == u32::MAX ==> final(self).vacant@ == old(self).vacant@ && final(
                self).ages@ == old(self).ages@,
    {
        let ghost before = *self;
        let held: bool = self.rows.remove(key);
        if held {
            let slot: u32 = key.slot_of();
            proof {
                assert(before.rows.keys@.contains(key));
            }
            let age: u32 = self.ages[slot as usize];
            if age < u32::MAX {
                self.ages.set(slot as usize, age + 1);
                self.vacant.push(slot);
                proof {
                    assert forall|other: K| #![trigger self.rows.keys@.contains(other)]
                        self.rows.keys@.contains(other) implies other.slot() < self.ages@.len()
                        && other.age() == self.ages@[other.slot() as int] && !self.vacant@.contains(
                        other.slot(),
                    ) by {
                        assert(before.rows.keys@.contains(other));
                        if other.slot() == slot {
                            other.rank_is_slot_then_age();
                            key.rank_is_slot_then_age();
                            K::rank_identifies(other, key);
                        }
                        if self.vacant@.contains(other.slot()) {
                            let i = self.vacant@.index_of(other.slot());
                            assert(before.vacant@[i] == other.slot());
                        }
                    }
                    assert forall|i: int, j: int| #![trigger self.vacant@[i], self.vacant@[j]]
                        0 <= i < j < self.vacant@.len() implies self.vacant@[i] != self.vacant@[j] by {
                        if j == before.vacant@.len() {
                            assert(before.vacant@[i] == self.vacant@[i]);
                            if self.vacant@[i] == slot {
                                assert(before.vacant@.contains(slot));
                            }
                        } else {
                            assert(before.vacant@[i] != before.vacant@[j]);
                        }
                    }
                }
            }
        }
        held
    }
}

/// The slot that left last is used first, and a new one only where none is
/// vacant.
pub proof fn vacant_slots_are_used_first<K: Handle, V>(arena: &Arena<K, V>)
    requires
        arena.wf(),
    ensures
        arena.vacant@.len() == 0 ==> arena.next_slot() == arena.ages@.len(),
        arena.vacant@.len() > 0 ==> arena.next_slot() < arena.ages@.len() && arena.vacant@.len() - 1
            == arena.vacant@.index_of(arena.next_slot() as u32),
{
    if arena.vacant@.len() > 0 {
        let last = arena.vacant@.len() - 1;
        let slot = arena.vacant@[last];
        assert(arena.vacant@.contains(slot));
        let at = arena.vacant@.index_of(slot);
        assert(arena.vacant@[at] == slot);
    }
}

} // verus!
