//! The state of a slot map as a mathematical value, and what each operation makes of it.
#[allow(unused_imports)]
use crate::chunks::{capacity_of, max_len, prefix_closed, slots_needed};
#[allow(unused_imports)]
use crate::head::{head_index, head_tag, lemma_packed_head, next_tag, packed_head, SENTINEL};
#[allow(unused_imports)]
use crate::location::{chunk_of, CHUNKS};
#[allow(unused_imports)]
use crate::slot::{next_version, occupied, zeroed_slot, Slot, MAX_REFCOUNT};
#[allow(unused_imports)]
use crate::util::{odd_version_of, KeyView};
#[allow(unused_imports)]
use vstd::prelude::*;

verus! {

broadcast use lemma_packed_head;

/// Everything a slot map holds.
#[verifier::ext_equal]
pub struct State<V> {
    /// The slots made so far.
    pub slots: Seq<Slot<V>>,
    /// Which chunks of slots are allocated.
    pub present: Seq<bool>,
    /// The packed head of the free list.
    pub free_head: u64,
    /// The counter of elements.
    pub num_elems: u32,
    /// The indices in the free list, the head first.
    pub free: Seq<u32>,
}

/// The index that follows place `i` of a free list, or that heads it for `i == 0`.
pub open spec fn link(free: Seq<u32>, i: int) -> u32 {
    if 0 <= i < free.len() {
        free[i]
    } else {
        SENTINEL
    }
}

/// How many of the slots are occupied.
pub open spec fn occupied_count<V>(slots: Seq<Slot<V>>) -> nat
    decreases slots.len(),
{
    if slots.len() == 0 {
        0
    } else {
        occupied_count(slots.drop_last()) + (if occupied(slots.last().version) {
            1nat
        } else {
            0nat
        })
    }
}

/// How many of the slots hold a value: those that somebody refers to.
pub open spec fn stored_count<V>(slots: Seq<Slot<V>>) -> nat
    decreases slots.len(),
{
    if slots.len() == 0 {
        0
    } else {
        stored_count(slots.drop_last()) + (if slots.last().ref_count > 0 {
            1nat
        } else {
            0nat
        })
    }
}

/// The version of the key under which the value in a slot was stored: that of the slot,
/// or the one before it once the key was removed.
pub open spec fn stored_version(version: u32) -> u32 {
    if occupied(version) {
        version
    } else {
        ((version + 0xffff_ffff) % 0x1_0000_0000) as u32
    }
}

impl<V> State<V> {
    /// A map that was just made.
    pub open spec fn empty(present: Seq<bool>) -> Self {
        State {
            slots: Seq::empty(),
            present,
            free_head: packed_head(0, SENTINEL),
            num_elems: 0,
            free: Seq::empty(),
        }
    }

    /// The free list is a chain through `next_free` from the head to the sentinel, and
    /// meets no slot twice.
    pub open spec fn free_ok(self) -> bool {
        &&& head_index(self.free_head) == link(self.free, 0)
        &&& self.free.no_duplicates()
        &&& forall|i: int|
            0 <= i < self.free.len() ==> (#[trigger] self.free[i]) < self.slots.len()
                && self.slots[self.free[i] as int].next_free == link(self.free, i + 1)
        &&& self.slots.len() <= max_len()
        &&& self.present.len() == CHUNKS
    }

    /// A slot is either in the free list, unreferenced, unoccupied and without a value, or
    /// it is referenced and has one. The map itself refers to every occupied slot.
    pub open spec fn slot_ok(self, i: int) -> bool {
        if self.free.contains(i as u32) {
            self.slots[i].exclusively_owned() && self.slots[i].data is None
        } else {
            self.slots[i].ref_count > 0 && self.slots[i].data is Some
        }
    }

    /// The state between two operations.
    pub open spec fn settled(self) -> bool {
        &&& self.free_ok()
        &&& forall|i: int| 0 <= i < self.slots.len() ==> #[trigger] self.slot_ok(i)
        &&& forall|i: int|
            0 <= i < self.slots.len() ==> self.present[#[trigger] chunk_of(i) as int]
        &&& prefix_closed(self.present)
        &&& self.num_elems == occupied_count(self.slots)
    }

    /// The keys that are in the map, with their values.
    pub open spec fn live(self) -> Map<KeyView, V> {
        Map::new(|key: KeyView| self.contains(key), |key: KeyView| self.value_at(key))
    }

    /// Whether a key is in the map.
    pub open spec fn contains(self, key: KeyView) -> bool {
        key.idx < self.slots.len() && occupied(key.version) && self.slots[key.idx as int].version
            == key.version
    }

    /// The value in the slot of a key.
    pub open spec fn value_at(self, key: KeyView) -> V {
        self.slots[key.idx as int].data->0
    }

    /// The values that were not dropped yet, each with the key it was stored under: those
    /// of the keys in the map, and those that guards still hold.
    pub open spec fn stored(self) -> Map<KeyView, V> {
        Map::new(|key: KeyView| self.stores(key), |key: KeyView| self.value_at(key))
    }

    /// Whether the value that was stored under a key was not dropped yet.
    pub open spec fn stores(self, key: KeyView) -> bool {
        key.idx < self.slots.len() && self.slots[key.idx as int].ref_count > 0 && key.version
            == stored_version(self.slots[key.idx as int].version)
    }

    /// How many guards hold the value that was stored under a key.
    pub open spec fn guards(self, key: KeyView) -> nat {
        if self.stores(key) {
            (self.slots[key.idx as int].ref_count - (if occupied(
                self.slots[key.idx as int].version,
            ) {
                1int
            } else {
                0int
            })) as nat
        } else {
            0
        }
    }

    /// Whether no further slot can be had.
    pub open spec fn full(self) -> bool {
        self.free.len() == 0 && self.slots.len() >= max_len()
    }

    /// The slot that the next insertion takes.
    pub open spec fn next_idx(self) -> u32 {
        if self.free.len() > 0 {
            self.free[0]
        } else {
            self.slots.len() as u32
        }
    }

    /// The key that the next insertion gives.
    pub open spec fn next_key(self) -> KeyView {
        KeyView {
            idx: self.next_idx(),
            version: if self.free.len() > 0 {
                odd_version_of(self.slots[self.free[0] as int].version)
            } else {
                1
            },
        }
    }

    /// How many slots the allocated chunks hold.
    pub open spec fn capacity(self) -> nat {
        capacity_of(self.present)
    }

    /// The number of slots for which there has to be room so that `additional` more elements
    /// fit beside the values that were not dropped yet.
    pub open spec fn target_len(self, additional: nat) -> nat {
        slots_needed(self.slots.len(), self.stored().dom().len(), additional)
    }

    /// Takes the head off the free list.
    pub open spec fn popped(self) -> Self {
        State {
            free_head: packed_head(
                next_tag(head_tag(self.free_head)),
                self.slots[self.free[0] as int].next_free,
            ),
            free: self.free.subrange(1, self.free.len() as int),
            ..self
        }
    }

    /// Puts a slot in front of the free list.
    pub open spec fn pushed(self, idx: u32) -> Self {
        State {
            slots: self.slots.update(
                idx as int,
                Slot { next_free: head_index(self.free_head), ..self.slots[idx as int] },
            ),
            free_head: packed_head(next_tag(head_tag(self.free_head)), idx),
            free: seq![idx] + self.free,
            ..self
        }
    }

    /// Makes one more slot.
    pub open spec fn grown(self) -> Self {
        State {
            slots: self.slots.push(zeroed_slot()),
            present: self.present.update(chunk_of(self.slots.len() as int) as int, true),
            ..self
        }
    }

    /// Takes a slot for an insertion: a free one if there is one, or else a fresh one.
    pub open spec fn claimed(self) -> Self {
        if self.free.len() > 0 {
            self.popped()
        } else {
            self.grown()
        }
    }

    /// Writes a value into a slot that was taken, and lets the map hold it.
    pub open spec fn published(self, idx: u32, value: V) -> Self {
        State {
            slots: self.slots.update(
                idx as int,
                Slot {
                    data: Some(value),
                    ref_count: 1,
                    version: odd_version_of(self.slots[idx as int].version),
                    ..self.slots[idx as int]
                },
            ),
            num_elems: ((self.num_elems + 1) % 0x1_0000_0000) as u32,
            ..self
        }
    }

    /// The state after an insertion.
    pub open spec fn inserted(self, value: V) -> Self {
        self.claimed().published(self.next_idx(), value)
    }

    /// The state after an insertion whose value was refused: the slot that was taken is
    /// free again.
    pub open spec fn refused(self) -> Self {
        self.claimed().pushed(self.next_idx())
    }

    /// The state with another slot at an index.
    pub open spec fn with_slot(self, idx: u32, slot: Slot<V>) -> Self {
        State { slots: self.slots.update(idx as int, slot), ..self }
    }

    /// The state after one more reference to a slot was taken.
    pub open spec fn referenced(self, idx: u32) -> Self {
        self.with_slot(
            idx,
            Slot {
                ref_count: (self.slots[idx as int].ref_count + 1) as u32,
                ..self.slots[idx as int]
            },
        )
    }

    /// The state after a reference to a slot was given back. With the last one the value is
    /// dropped and the slot is free.
    pub open spec fn dereferenced(self, idx: u32) -> Self {
        if self.slots[idx as int].ref_count == 1 {
            self.with_slot(
                idx,
                Slot { data: None, ref_count: 0, ..self.slots[idx as int] },
            ).pushed(idx)
        } else {
            self.with_slot(
                idx,
                Slot {
                    ref_count: (self.slots[idx as int].ref_count - 1) as u32,
                    ..self.slots[idx as int]
                },
            )
        }
    }

    /// The state after a lookup that gives a guard where the key is in the map.
    pub open spec fn acquired(self, key: KeyView) -> Self {
        if self.contains(key) {
            self.referenced(key.idx)
        } else {
            self
        }
    }

    /// Whether the slot of a key can take one more reference.
    pub open spec fn may_acquire(self, key: KeyView) -> bool {
        key.idx < self.slots.len() ==> self.slots[key.idx as int].ref_count <= MAX_REFCOUNT
    }

    /// Compared with `before`, a key has one more guard, and nothing else changed for any key.
    pub open spec fn reference(self, before: Self, key: KeyView) -> bool {
        &&& self.live() == before.live()
        &&& self.stored() == before.stored()
        &&& forall|k: KeyView| #[trigger]
            self.guards(k) == before.guards(k) + (if k == key {
                1nat
            } else {
                0nat
            })
    }

    /// Compared with `before`, a key has one more guard if it was in the map, and nothing else
    /// changed for any key.
    pub open spec fn acquisition(self, before: Self, key: KeyView) -> bool {
        if before.contains(key) {
            self.reference(before, key)
        } else {
            self == before
        }
    }

    /// Compared with `before`, a key has one guard fewer. Its value was dropped if the key was not
    /// in the map and that was its last guard.
    pub open spec fn release(self, before: Self, key: KeyView) -> bool {
        &&& self.live() == before.live()
        &&& self.stored() == (if before.contains(key) || before.guards(key) > 1 {
            before.stored()
        } else {
            before.stored().remove(key)
        })
        &&& forall|k: KeyView| #[trigger]
            self.guards(k) == (if k == key {
                (before.guards(k) - 1) as nat
            } else {
                before.guards(k)
            })
    }

    /// The state after a removal.
    pub open spec fn removed(self, key: KeyView) -> Self {
        if self.contains(key) {
            State {
                num_elems: ((self.num_elems + 0xffff_ffff) % 0x1_0000_0000) as u32,
                ..self.with_slot(
                    key.idx,
                    Slot {
                        version: next_version(self.slots[key.idx as int].version),
                        ..self.slots[key.idx as int]
                    },
                ).dereferenced(key.idx)
            }
        } else {
            self
        }
    }
}

/// Replacing a slot changes the number of occupied ones by what the two slots count.
pub proof fn lemma_occupied_update<V>(slots: Seq<Slot<V>>, i: int, slot: Slot<V>)
    requires
        0 <= i < slots.len(),
    ensures
        occupied_count(slots.update(i, slot)) == occupied_count(slots) - (if occupied(
            slots[i].version,
        ) {
            1int
        } else {
            0int
        }) + (if occupied(slot.version) {
            1int
        } else {
            0int
        }),
    decreases slots.len(),
{
    let changed = slots.update(i, slot);
    if i == slots.len() - 1 {
        assert(changed.drop_last() =~= slots.drop_last());
    } else {
        lemma_occupied_update(slots.drop_last(), i, slot);
        assert(changed.drop_last() =~= slots.drop_last().update(i, slot));
    }
}

/// A further slot counts if it is occupied.
pub proof fn lemma_occupied_push<V>(slots: Seq<Slot<V>>, slot: Slot<V>)
    ensures
        occupied_count(slots.push(slot)) == occupied_count(slots) + (if occupied(slot.version) {
            1nat
        } else {
            0nat
        }),
{
    assert(slots.push(slot).drop_last() =~= slots);
}

/// No more slots are occupied than there are, and fewer where one is not.
pub proof fn lemma_occupied_bound<V>(slots: Seq<Slot<V>>)
    ensures
        occupied_count(slots) <= slots.len(),
        forall|i: int|
            0 <= i < slots.len() && !occupied(#[trigger] slots[i].version) ==> occupied_count(slots)
                < slots.len(),
        forall|i: int|
            0 <= i < slots.len() && occupied(#[trigger] slots[i].version) ==> occupied_count(slots)
                > 0,
    decreases slots.len(),
{
    if slots.len() > 0 {
        let rest = slots.drop_last();
        lemma_occupied_bound(rest);
        assert forall|i: int|
            0 <= i < slots.len() && !occupied(#[trigger] slots[i].version) implies occupied_count(
            slots,
        ) < slots.len() by {
            if i < rest.len() {
                assert(!occupied(rest[i].version));
            }
        }
        assert forall|i: int|
            0 <= i < slots.len() && occupied(#[trigger] slots[i].version) implies occupied_count(
            slots,
        ) > 0 by {
            if i < rest.len() {
                assert(occupied(rest[i].version));
            }
        }
    }
}

/// A further slot counts if it holds a value.
pub proof fn lemma_stored_push<V>(slots: Seq<Slot<V>>, slot: Slot<V>)
    ensures
        stored_count(slots.push(slot)) == stored_count(slots) + (if slot.ref_count > 0 {
            1nat
        } else {
            0nat
        }),
{
    assert(slots.push(slot).drop_last() =~= slots);
}

/// No more slots hold a value than there are, and all do where each is referred to.
pub proof fn lemma_stored_bound<V>(slots: Seq<Slot<V>>)
    ensures
        stored_count(slots) <= slots.len(),
        (forall|i: int| 0 <= i < slots.len() ==> (#[trigger] slots[i]).ref_count > 0)
            ==> stored_count(slots) == slots.len(),
    decreases slots.len(),
{
    if slots.len() > 0 {
        lemma_stored_bound(slots.drop_last());
        if forall|i: int| 0 <= i < slots.len() ==> (#[trigger] slots[i]).ref_count > 0 {
            assert(forall|i: int|
                0 <= i < slots.drop_last().len() ==> (#[trigger] slots.drop_last()[i])
                    == slots[i]);
        }
    }
}

} // verus!
