//! The slot map.
use crate::guard::SlotGuard;
use crate::drops::{Dropped, Freed};
#[allow(unused_imports)]
use crate::drops::{held, lists};
#[allow(unused_imports)]
use crate::chunks::{lemma_max_len, max_capacity, prefix_closed, reservable, reserved};
use crate::chunks::reservation_target;
#[allow(unused_imports)]
use crate::head::{lemma_next_tag, lemma_packed_head, pack_free_head, unpack_free_head, SENTINEL};
use crate::iter::LossyIter;
#[allow(unused_imports)]
use crate::iter::{lemma_live_values, owned_from};
#[allow(unused_imports)]
use crate::location::{chunk_of, lemma_chunk_of, CHUNKS};
use crate::owning_guard::OwningSlotGuard;
use crate::protocol::{Action, Event};
#[allow(unused_imports)]
use crate::settled::{
    lemma_inserted, lemma_live_len, lemma_live_within_stored, lemma_popped, lemma_referenced,
    lemma_refused, lemma_removed, lemma_reserved, lemma_same_slots, lemma_stored_len,
};
use crate::slot::Slot;
#[allow(unused_imports)]
use crate::slot::{occupied, MAX_REFCOUNT};
#[allow(unused_imports)]
use crate::state::{lemma_stored_push, stored_count, State};
#[allow(unused_imports)]
use crate::util::{odd_version_of, DefaultKey, Key, KeyData, KeyDataRead, KeyView};
use crate::vec::AtomicVec;
#[allow(unused_imports)]
use crate::vec::chunk_sizes;
use std::marker::PhantomData;
#[allow(unused_imports)]
use vstd::prelude::*;

verus! {

broadcast use {lemma_packed_head, lemma_next_tag};

/// Slot map, storage with stable unique keys.
///
/// Values are reached through guards. A removed value stays until its last guard is given back.
pub struct AtomicSlotMap<K: Key, V> {
    slots: AtomicVec<Slot<V>>,
    /// Packed with [`pack_free_head`]: a tag that every change of the free list increments,
    /// and the index of the first free slot.
    free_head: u64,
    num_elems: u32,
    free: Ghost<Seq<u32>>,
    /// The values that the map has dropped.
    dropped: Dropped<V>,
    /// The chunks that the map has given back.
    freed: Freed,
    _k: PhantomData<K>,
}

impl<K: Key, V> View for AtomicSlotMap<K, V> {
    type V = State<V>;

    closed spec fn view(&self) -> State<V> {
        State {
            slots: self.slots@,
            present: self.slots.present(),
            free_head: self.free_head,
            num_elems: self.num_elems,
            free: self.free@,
        }
    }
}

/// No chunks at all.
pub open spec fn no_chunks() -> Seq<bool> {
    Seq::new(CHUNKS as nat, |k: int| false)
}

/// Counts the slots that somebody refers to.
fn count_referenced<V>(slots: &AtomicVec<Slot<V>>) -> (count: u32)
    requires
        slots.wf(),
        forall|i: int| 0 <= i < slots@.len() ==> slots.present()[#[trigger] chunk_of(i) as int],
    ensures
        count == stored_count(slots@),
{
    let mut count: u32 = 0;
    let mut next: u32 = 0;
    while next < slots.len()
        invariant
            slots.wf(),
            forall|i: int| 0 <= i < slots@.len() ==> slots.present()[#[trigger] chunk_of(i) as int],
            count <= next <= slots@.len(),
            count == stored_count(slots@.subrange(0, next as int)),
        decreases slots@.len() - next,
    {
        proof {
            lemma_stored_push(slots@.subrange(0, next as int), slots@[next as int]);
            assert(slots@.subrange(0, next + 1) =~= slots@.subrange(0, next as int).push(
                slots@[next as int],
            ));
        }
        if slots.get_unchecked(next).ref_count > 0 {
            count = count + 1;
        }
        next = next + 1;
    }
    assert(slots@.subrange(0, next as int) =~= slots@);
    count
}

impl<V> AtomicSlotMap<DefaultKey, V> {
    /// Constructs a new, empty [`AtomicSlotMap`].
    pub fn new() -> (map: Self)
        ensures
            map.wf(),
            map.ledger() == (Seq::<V>::empty(), Seq::<nat>::empty()),
            map@ == State::<V>::empty(no_chunks()),
            map@.live() == Map::<KeyView, V>::empty(),
    {
        Self::with_key()
    }

    /// Creates an empty [`AtomicSlotMap`] with the given capacity.
    pub fn with_capacity(capacity: usize) -> (map: Self)
        requires
            reservable(0, capacity as nat),
        ensures
            map.wf(),
            map.ledger() == (Seq::<V>::empty(), Seq::<nat>::empty()),
            map@ == State::<V>::empty(reserved(no_chunks(), 0, capacity as nat)),
            map@.live() == Map::<KeyView, V>::empty(),
            map@.capacity() >= capacity,
    {
        Self::with_capacity_and_key(capacity)
    }
}

impl<K: Key, V> AtomicSlotMap<K, V> {
    /// The parts of the map fit together.
    pub closed spec fn parts_ok(&self) -> bool {
        self.slots.wf()
    }

    /// The values whose destructors the map has run, in this order.
    pub closed spec fn dropped(&self) -> Seq<V> {
        self.dropped@
    }

    /// The sizes of the chunks that the map has given back, in this order.
    pub closed spec fn freed(&self) -> Seq<nat> {
        self.freed@
    }

    /// What the map has dropped and given back.
    pub open spec fn ledger(&self) -> (Seq<V>, Seq<nat>) {
        (self.dropped(), self.freed())
    }

    /// The map is in a state between two operations.
    pub open spec fn wf(&self) -> bool {
        self.parts_ok() && self@.settled()
    }

    /// Constructs a new, empty [`AtomicSlotMap`] with a custom key type.
    pub fn with_key() -> (map: Self)
        ensures
            map.wf(),
            map.ledger() == (Seq::<V>::empty(), Seq::<nat>::empty()),
            map@ == State::<V>::empty(no_chunks()),
            map@.live() == Map::<KeyView, V>::empty(),
    {
        proof {
            reveal(prefix_closed);
        }
        AtomicSlotMap {
            slots: AtomicVec::new(),
            free_head: pack_free_head(0, SENTINEL),
            num_elems: 0,
            free: Ghost(Seq::empty()),
            dropped: Dropped::none(),
            freed: Freed::none(),
            _k: PhantomData,
        }
    }

    /// Creates an empty [`AtomicSlotMap`] with the given capacity and a custom key type.
    pub fn with_capacity_and_key(capacity: usize) -> (map: Self)
        requires
            reservable(0, capacity as nat),
        ensures
            map.wf(),
            map.ledger() == (Seq::<V>::empty(), Seq::<nat>::empty()),
            map@ == State::<V>::empty(reserved(no_chunks(), 0, capacity as nat)),
            map@.live() == Map::<KeyView, V>::empty(),
            map@.capacity() >= capacity,
    {
        proof {
            reveal(prefix_closed);
            assert(State::<V>::empty(no_chunks()).settled());
            lemma_reserved(State::<V>::empty(no_chunks()), capacity as nat);
        }
        AtomicSlotMap {
            slots: AtomicVec::with_capacity(capacity),
            free_head: pack_free_head(0, SENTINEL),
            num_elems: 0,
            free: Ghost(Seq::empty()),
            dropped: Dropped::none(),
            freed: Freed::none(),
            _k: PhantomData,
        }
    }

    /// Returns `true` if the slot map contains `key`.
    pub fn contains_key(&self, key: K) -> (contained: bool)
        requires
            self.wf(),
        ensures
            contained == self@.live().contains_key(key.parts()),
            contained == self@.contains(key.parts()),
    {
        let kd = key.data();
        match self.slots.get(kd.idx()) {
            Some(slot) => slot.version == kd.version(),
            None => false,
        }
    }

    /// Pops an index from the free slot linked list. The returned index is that of an
    /// unoccupied slot.
    #[verifier::rlimit(50)]
    pub(crate) fn pop_free_index(&mut self) -> (popped: Option<u32>)
        requires
            old(self).parts_ok(),
            old(self)@.free_ok(),
            forall|i: int|
                0 <= i < old(self)@.slots.len() ==> old(self)@.present[#[trigger] chunk_of(
                    i,
                ) as int],
            old(self)@.free.len() > 0 ==> old(self)@.slots[old(self)@.free[0] as int]
                .exclusively_owned(),
        ensures
            final(self).ledger() == old(self).ledger(),
            final(self).parts_ok(),
            popped == (if old(self)@.free.len() > 0 {
                Some(old(self)@.free[0])
            } else {
                None
            }),
            final(self)@ == (if old(self)@.free.len() > 0 {
                old(self)@.popped()
            } else {
                old(self)@
            }),
    {
        let (tag, idx) = unpack_free_head(self.free_head);
        proof {
            if self@.free.len() > 0 {
                lemma_popped(self@);
            }
        }
        if idx == SENTINEL {
            return None;
        }
        let slot = self.slots.get_unchecked(idx);
        let next_free: u32 = slot.next_free;
        let owned: bool = slot.debug_assert_exclusively_owned();
        assert(owned);
        self.free_head = pack_free_head(tag.wrapping_add(1), next_free);
        proof {
            self.free@ = self.free@.subrange(1, self.free@.len() as int);
        }
        Some(idx)
    }

    /// Pushes an index onto the free stack.
    ///
    /// The provided index will mark the slot as reusable for future insertions.
    pub(crate) fn push_free_index(&mut self, idx: u32)
        requires
            old(self).parts_ok(),
            idx < old(self)@.slots.len(),
            old(self)@.present[chunk_of(idx as int) as int],
            old(self)@.slots[idx as int].exclusively_owned(),
        ensures
            final(self).ledger() == old(self).ledger(),
            final(self).parts_ok(),
            final(self)@ == old(self)@.pushed(idx),
    {
        let (tag, old_next_free) = unpack_free_head(self.free_head);
        let slot = self.slots.get_unchecked_ptr(idx);
        let owned: bool = slot.debug_assert_exclusively_owned();
        assert(owned);
        slot.next_free = old_next_free;
        self.free_head = pack_free_head(tag.wrapping_add(1), idx);
        proof {
            self.free@ = seq![idx] + self.free@;
        }
    }

    /// Takes a slot for an insertion, and gives its index and version.
    fn claim(&mut self) -> (claim: (u32, u32))
        requires
            old(self).wf(),
            !old(self)@.full(),
        ensures
            final(self).ledger() == old(self).ledger(),
            final(self).parts_ok(),
            final(self)@ == old(self)@.claimed(),
            claim.0 == old(self)@.next_idx(),
            claim.0 < final(self)@.slots.len(),
            claim.1 == final(self)@.slots[claim.0 as int].version,
            !occupied(claim.1),
            final(self)@.slots[claim.0 as int].exclusively_owned(),
            final(self)@.slots[claim.0 as int].data is None,
            odd_version_of(claim.1) == old(self)@.next_key().version,
            final(self)@.present[chunk_of(claim.0 as int) as int],
    {
        proof {
            if self@.free.len() > 0 {
                assert(self@.free.contains(self@.free[0]));
                assert(self@.slot_ok(self@.free[0] as int));
            }
        }
        match self.pop_free_index() {
            Some(slot_idx) => {
                proof {
                    lemma_popped(old(self)@);
                    assert(old(self)@.free.contains(old(self)@.free[0]));
                    assert(old(self)@.slot_ok(slot_idx as int));
                }
                let version: u32 = self.slots.get_unchecked(slot_idx).version;
                (slot_idx, version)
            },
            None => {
                let pushed_index: u32 = self.slots.push_zeroed();
                proof {
                    lemma_chunk_of(pushed_index as int);
                }
                (pushed_index, 0)
            },
        }
    }

    /// Writes a value into a slot that was taken, and lets the map hold it.
    fn publish(&mut self, slot_idx: u32, occupied_version: u32, value: V)
        requires
            old(self).parts_ok(),
            slot_idx < old(self)@.slots.len(),
            old(self)@.present[chunk_of(slot_idx as int) as int],
            occupied_version == odd_version_of(old(self)@.slots[slot_idx as int].version),
            old(self)@.slots[slot_idx as int].exclusively_owned(),
        ensures
            final(self).parts_ok(),
            final(self)@ == old(self)@.published(slot_idx, value),
            final(self).dropped() == old(self).dropped() + held(
                old(self)@.slots[slot_idx as int].data,
            ),
            final(self).freed() == old(self).freed(),
    {
        let slot = self.slots.get_unchecked_ptr(slot_idx);
        let owned: bool = slot.debug_assert_exclusively_owned();
        assert(owned);
        let receipt = slot.drop_inner_value();
        slot.data = Some(value);
        slot.ref_count = 1;
        slot.version = occupied_version;
        self.dropped.join(receipt);
        self.num_elems = self.num_elems.wrapping_add(1);
    }

    /// Inserts a value into the slot map. Returns a unique key that can be used to access this
    /// value.
    pub fn insert(&mut self, value: V) -> (key: K)
        requires
            old(self).wf(),
            !old(self)@.full(),
        ensures
            final(self).ledger() == old(self).ledger(),
            final(self).wf(),
            key.parts() == old(self)@.next_key(),
            !old(self)@.live().contains_key(key.parts()),
            final(self)@.live() == old(self)@.live().insert(key.parts(), value),
            final(self)@.stored() == old(self)@.stored().insert(key.parts(), value),
            forall|k: KeyView| #[trigger] final(self)@.guards(k) == old(self)@.guards(k),
            final(self)@ == old(self)@.inserted(value),
    {
        let (slot_idx, cur_version) = self.claim();
        let kd = KeyData::new(slot_idx, cur_version);
        self.publish(slot_idx, kd.version(), value);
        proof {
            lemma_inserted(old(self)@, value);
        }
        K::from_data(kd)
    }

    /// Inserts a value given by `f` into the slot map. The key where the value will be stored is
    /// passed into `f`.
    pub fn insert_with_key<F: FnOnce(K) -> V>(&mut self, f: F) -> (key: K)
        requires
            old(self).wf(),
            !old(self)@.full(),
            forall|k: K| k.parts() == old(self)@.next_key() ==> #[trigger] call_requires(f, (k,)),
        ensures
            final(self).ledger() == old(self).ledger(),
            final(self).wf(),
            key.parts() == old(self)@.next_key(),
            !old(self)@.live().contains_key(key.parts()),
            exists|value: V|
                #![trigger old(self)@.inserted(value)]
                call_ensures(f, (key,), value) && final(self)@ == old(self)@.inserted(value)
                    && final(self)@.live() == old(self)@.live().insert(key.parts(), value)
                    && final(self)@.stored() == old(self)@.stored().insert(key.parts(), value),
            forall|k: KeyView| #[trigger] final(self)@.guards(k) == old(self)@.guards(k),
    {
        let (slot_idx, cur_version) = self.claim();
        let kd = KeyData::new(slot_idx, cur_version);
        let key = K::from_data(kd);
        let value = f(key);
        let ghost given = value;
        self.publish(slot_idx, kd.version(), value);
        proof {
            lemma_inserted(old(self)@, given);
            assert(self@ == old(self)@.inserted(given));
        }
        key
    }

    /// Inserts a value given by `f` into the slot map. The key where the value will be stored is
    /// passed into `f`.
    ///
    /// If `f` returns `Err`, no element is inserted.
    pub fn try_insert_with_key<F: FnOnce(K) -> Result<V, E>, E>(&mut self, f: F) -> (key: Result<
        K,
        E,
    >)
        requires
            old(self).wf(),
            !old(self)@.full(),
            forall|k: K| k.parts() == old(self)@.next_key() ==> #[trigger] call_requires(f, (k,)),
        ensures
            final(self).ledger() == old(self).ledger(),
            final(self).wf(),
            key matches Ok(k) ==> k.parts() == old(self)@.next_key()
                && !old(self)@.live().contains_key(k.parts()) && exists|value: V|
                #![trigger old(self)@.inserted(value)]
                call_ensures(f, (k,), Ok(value)) && final(self)@ == old(self)@.inserted(value)
                    && final(self)@.live() == old(self)@.live().insert(k.parts(), value)
                    && final(self)@.stored() == old(self)@.stored().insert(k.parts(), value),
            key is Err ==> final(self)@ == old(self)@.refused(),
            key is Err ==> final(self)@.live() == old(self)@.live(),
            key is Err ==> final(self)@.stored() == old(self)@.stored(),
            key matches Err(err) ==> exists|k: K|
                #[trigger] k.parts() == old(self)@.next_key() && call_ensures(f, (k,), Err(err)),
            forall|k: KeyView| #[trigger] final(self)@.guards(k) == old(self)@.guards(k),
    {
        let (slot_idx, cur_version) = self.claim();
        let kd = KeyData::new(slot_idx, cur_version);
        let key = K::from_data(kd);
        match f(key) {
            Ok(value) => {
                let ghost given = value;
                self.publish(slot_idx, kd.version(), value);
                proof {
                    lemma_inserted(old(self)@, given);
                    assert(self@ == old(self)@.inserted(given));
                }
                Ok(key)
            },
            Err(err) => {
                self.push_free_index(slot_idx);
                proof {
                    lemma_refused(old(self)@);
                    assert(self@ == old(self)@.refused());
                    assert(call_ensures(f, (key,), Err(err)));
                }
                Err(err)
            },
        }
    }

    /// Gives a reference back. With the last one the value is dropped and the slot freed.
    pub(crate) fn drop_reference(&mut self, idx: u32)
        requires
            old(self).parts_ok(),
            idx < old(self)@.slots.len(),
            old(self)@.present[chunk_of(idx as int) as int],
            old(self)@.slots[idx as int].ref_count > 0,
            old(self)@.slots[idx as int].ref_count == 1 ==> !occupied(
                old(self)@.slots[idx as int].version,
            ),
        ensures
            final(self).parts_ok(),
            final(self)@ == old(self)@.dereferenced(idx),
            final(self).dropped() == (if old(self)@.slots[idx as int].ref_count == 1 {
                old(self).dropped() + held(old(self)@.slots[idx as int].data)
            } else {
                old(self).dropped()
            }),
            final(self).freed() == old(self).freed(),
    {
        let slot = self.slots.get_unchecked_ptr(idx);
        let needs_drop = slot.dec_ref_count();
        if needs_drop {
            let receipt = slot.drop_inner_value();
            self.dropped.join(receipt);
            self.push_free_index(idx);
        }
    }

    /// Removes a key from the slot map, returning whether the key was previously contained within
    /// the slotmap.
    ///
    /// The key will no longer be retrievable. Guards into the value stay valid, and giving back the
    /// last of them drops the value. If no guards are active, the value is dropped here.
    pub fn remove(&mut self, key: K) -> (contained: bool)
        requires
            old(self).wf(),
        ensures
            final(self).wf(),
            contained == old(self)@.live().contains_key(key.parts()),
            final(self)@.live() == old(self)@.live().remove(key.parts()),
            final(self)@.stored() == (if contained && old(self)@.guards(key.parts()) == 0 {
                old(self)@.stored().remove(key.parts())
            } else {
                old(self)@.stored()
            }),
            // A value that nobody holds is dropped here, and no other value is.
            final(self).dropped() == (if contained && old(self)@.guards(key.parts()) == 0 {
                old(self).dropped().push(old(self)@.live()[key.parts()])
            } else {
                old(self).dropped()
            }),
            final(self).freed() == old(self).freed(),
            forall|k: KeyView| #[trigger] final(self)@.guards(k) == old(self)@.guards(k),
            final(self)@ == old(self)@.removed(key.parts()),
    {
        proof {
            lemma_removed(self@, key.parts());
        }
        let kd = key.data();
        let idx: u32 = kd.idx();
        let current_version: u32 = match self.slots.get(idx) {
            Some(slot) => slot.version,
            None => {
                return false;
            },
        };
        if current_version != kd.version() {
            return false;
        }
        assert(self@.slot_ok(idx as int));
        assert(self@.stores(key.parts()));
        let slot = self.slots.get_unchecked_ptr(idx);
        slot.version = current_version.wrapping_add(1);
        self.drop_reference(idx);
        self.num_elems = self.num_elems.wrapping_sub(1);
        true
    }

    /// Takes a reference to the slot of a key that is in the map. Returns whether it did.
    pub(crate) fn acquire_slot(&mut self, kd: KeyData) -> (acquired: bool)
        requires
            old(self).wf(),
            old(self)@.may_acquire(kd@),
        ensures
            final(self).ledger() == old(self).ledger(),
            final(self).wf(),
            acquired == old(self)@.contains(kd@),
            final(self)@ == old(self)@.acquired(kd@),
            final(self)@.acquisition(old(self)@, kd@),
    {
        let idx: u32 = kd.idx();
        let version: u32 = kd.version();
        if idx >= self.slots.len() {
            return false;
        }
        assert(self@.slot_ok(idx as int));
        proof {
            if self@.contains(kd@) {
                lemma_referenced(self@, kd@);
            }
        }
        let slot = self.slots.get_unchecked_ptr(idx);
        match slot.acquire_guard(version) {
            Ok(_) => true,
            Err(_) => {
                assert(self@ == old(self)@);
                false
            },
        }
    }

    /// Takes one more reference to a slot that has one already.
    pub(crate) fn clone_reference(&mut self, idx: u32)
        requires
            old(self).parts_ok(),
            idx < old(self)@.slots.len(),
            old(self)@.present[chunk_of(idx as int) as int],
            old(self)@.slots[idx as int].ref_count <= MAX_REFCOUNT,
        ensures
            final(self).ledger() == old(self).ledger(),
            final(self).parts_ok(),
            final(self)@ == old(self)@.referenced(idx),
    {
        let slot = self.slots.get_unchecked_ptr(idx);
        slot.inc_ref_count_for_clone();
    }

    /// The value that was stored under a key.
    pub(crate) fn stored_value(&self, kd: KeyData) -> (value: &V)
        requires
            self.wf(),
            self@.stores(kd@),
        ensures
            self@.stored().contains_key(kd@),
            *value == self@.stored()[kd@],
    {
        let idx: u32 = kd.idx();
        assert(self@.slot_ok(idx as int));
        self.slots.get_unchecked(idx).data_ptr().unwrap()
    }

    /// Returns a guard into the value corresponding to the key.
    ///
    /// Multiple guards can coexist at once, and [`AtomicSlotMap::remove`] does not invalidate them.
    pub fn get(&mut self, key: K) -> (guard: Option<SlotGuard<K>>)
        requires
            old(self).wf(),
            old(self)@.may_acquire(key.parts()),
        ensures
            final(self).ledger() == old(self).ledger(),
            final(self).wf(),
            guard is Some == old(self)@.live().contains_key(key.parts()),
            guard matches Some(g) ==> g.parts() == key.parts(),
            final(self)@ == old(self)@.acquired(key.parts()),
            final(self)@.acquisition(old(self)@, key.parts()),
    {
        // An even version names an unoccupied slot.
        if key.data().version() % 2 == 0 {
            return None;
        }
        SlotGuard::new(key, self)
    }

    /// Returns a guard into the value corresponding to the key that can be cloned.
    pub fn get_owning(&mut self, key: K) -> (guard: Option<OwningSlotGuard<K>>)
        requires
            old(self).wf(),
            old(self)@.may_acquire(key.parts()),
        ensures
            final(self).ledger() == old(self).ledger(),
            final(self).wf(),
            guard is Some == old(self)@.live().contains_key(key.parts()),
            guard matches Some(g) ==> g.parts() == key.parts(),
            final(self)@ == old(self)@.acquired(key.parts()),
            final(self)@.acquisition(old(self)@, key.parts()),
    {
        // An even version names an unoccupied slot.
        if key.data().version() % 2 == 0 {
            return None;
        }
        OwningSlotGuard::new(key, self)
    }

    /// The version of a slot.
    pub(crate) fn slot_version(&self, idx: u32) -> (version: Option<u32>)
        requires
            self.wf(),
        ensures
            version == (if idx < self@.slots.len() {
                Some(self@.slots[idx as int].version)
            } else {
                None
            }),
    {
        match self.slots.get(idx) {
            Some(slot) => Some(slot.version),
            None => None,
        }
    }

    /// Counts the values that were not dropped yet: those of the keys in the map, and those that
    /// guards still hold.
    pub(crate) fn stored_len(&self) -> (len: usize)
        requires
            self.wf(),
        ensures
            self@.stored().dom().finite(),
            len == self@.stored().dom().len(),
    {
        proof {
            lemma_stored_len(self@);
        }
        count_referenced(&self.slots) as usize
    }

    /// Reserves capacity for at least `additional` more elements to be inserted in the
    /// [`AtomicSlotMap`]. A slot that only guards hold is no room for them.
    #[verifier::rlimit(50)]
    pub fn reserve(&mut self, additional: usize)
        requires
            old(self).wf(),
            old(self)@.stored().dom().len() + additional <= max_capacity(),
        ensures
            final(self).ledger() == old(self).ledger(),
            final(self).wf(),
            final(self)@ == (State {
                present: reserved(
                    old(self)@.present,
                    0,
                    old(self)@.target_len(additional as nat),
                ),
                ..old(self)@
            }),
            final(self)@.capacity() >= old(self)@.stored().dom().len() + additional,
            final(self)@.capacity() >= old(self)@.num_elems + additional,
            final(self)@.live() == old(self)@.live(),
            final(self)@.stored() == old(self)@.stored(),
            forall|k: KeyView| #[trigger] final(self)@.guards(k) == old(self)@.guards(k),
    {
        let len: u32 = self.slots.len();
        proof {
            lemma_stored_len(self@);
            lemma_live_within_stored(self@);
            lemma_max_len();
        }
        if let Some(target) = reservation_target(len, self.stored_len(), additional) {
            self.slots.reserve((target - len as u64) as usize);
        }
        proof {
            lemma_reserved(old(self)@, old(self)@.target_len(additional as nat));
            lemma_same_slots(old(self)@, self@);
        }
    }

    /// Returns the number of elements in the slot map.
    pub fn lossy_len(&self) -> (len: usize)
        requires
            self.wf(),
        ensures
            len == self@.num_elems,
            self@.live().dom().finite(),
            len == self@.live().dom().len(),
    {
        proof {
            lemma_live_len(self@);
        }
        self.num_elems as usize
    }

    /// Returns if the slot map is empty.
    pub fn lossy_is_empty(&self) -> (empty: bool)
        requires
            self.wf(),
        ensures
            empty == (self@.live() == Map::<KeyView, V>::empty()),
            empty == (self@.num_elems == 0),
    {
        let len: usize = self.lossy_len();
        proof {
            if len == 0 {
                assert(self@.live() =~= Map::<KeyView, V>::empty());
            } else {
                assert(self@.live() != Map::<KeyView, V>::empty());
            }
        }
        len == 0
    }

    /// Returns the number of elements the [`AtomicSlotMap`] can hold without reallocating.
    pub fn capacity(&self) -> (capacity: usize)
        requires
            self.wf(),
        ensures
            capacity == self@.capacity(),
    {
        self.slots.capacity()
    }

    /// Returns an iterator over the currently occupied slots.
    pub fn lossy_iter(&self) -> (iter: LossyIter)
        ensures
            iter.position() == 0,
    {
        LossyIter::new()
    }

    /// Drops the values of all keys in the map, then frees all slots.
    pub fn drop(&mut self)
        requires
            old(self).wf(),
        ensures
            final(self).wf(),
            final(self)@ == State::<V>::empty(no_chunks()),
            // Each value in the map is dropped once, and each chunk is given back once.
            exists|gone: Seq<V>|
                final(self).dropped() == #[trigger] (old(self).dropped() + gone) && lists(
                    gone,
                    old(self)@.live(),
                ),
            final(self).freed() == old(self).freed() + chunk_sizes(old(self)@.present),
    {
        let ghost gone = self.slots.owned_by_each().flatten();
        proof {
            assert(self.slots.owned_by_each() =~= owned_from(self@.slots, 0));
            lemma_live_values(self@);
        }
        let (dropped, freed) = self.slots.drop();
        self.dropped.join(dropped);
        self.freed.join(freed);
        assert(self.dropped() == old(self).dropped() + gone);
        self.free_head = pack_free_head(0, SENTINEL);
        self.num_elems = 0;
        proof {
            self.free@ = Seq::empty();
            reveal(prefix_closed);
        }
    }
}

impl<K: Key, V> AtomicSlotMap<K, V> {
    /// Performs one atomic action. An exchange that may fail for no reason does so where `weak`
    /// says so. The value to be written is taken out of `payload`.
    #[verifier::rlimit(50)]
    pub fn perform(&mut self, action: Action, weak: bool, payload: &mut Option<V>) -> (event: Event)
        requires
            old(self).parts_ok(),
            old(self)@.allows(action),
        ensures
            final(self).parts_ok(),
            event == old(self)@.event(action, weak, *old(payload)),
            final(self)@ == old(self)@.performed(action, weak, *old(payload)),
            *final(payload) == (if action is WriteData {
                None
            } else {
                *old(payload)
            }),
            final(self).dropped() == (match action {
                Action::DropData { idx } => old(self).dropped() + held(
                    old(self)@.slots[idx as int].data,
                ),
                // Whoever writes a value lets the one before it go.
                Action::WriteData { idx } => old(self).dropped() + held(
                    old(self)@.slots[idx as int].data,
                ),
                _ => old(self).dropped(),
            }),
            final(self).freed() == old(self).freed(),
    {
        match action {
            Action::LoadHead => Event::Head { head: self.free_head },
            Action::LoadNext { idx } => Event::Word {
                word: self.slots.get_unchecked(idx).next_free,
            },
            Action::PopHead { old_head, new_head } => if self.free_head == old_head && !weak {
                self.free_head = new_head;
                proof {
                    self.free@ = self.free@.subrange(1, self.free@.len() as int);
                }
                Event::Swapped
            } else {
                Event::Head { head: self.free_head }
            },
            Action::FetchAddLen => Event::Word { word: self.slots.claim_index() },
            Action::LoadChunk { chunk } => if self.slots.has_chunk(chunk) {
                Event::Present
            } else {
                Event::Absent
            },
            Action::InstallChunk { chunk } => if self.slots.ensure_chunk_exists(chunk) {
                Event::Swapped
            } else {
                Event::Present
            },
            Action::LoadVersion { idx } => Event::Word {
                word: self.slots.get_unchecked(idx).version,
            },
            Action::AskValue => if payload.is_some() {
                Event::Value
            } else {
                Event::Refusal
            },
            Action::WriteData { idx } => {
                let slot = self.slots.get_unchecked_ptr(idx);
                let receipt = slot.drop_inner_value();
                slot.data = payload.take();
                self.dropped.join(receipt);
                Event::Done
            },
            Action::StoreRef { idx } => {
                let slot = self.slots.get_unchecked_ptr(idx);
                slot.ref_count = 1;
                Event::Done
            },
            Action::StoreVersion { idx, version } => {
                let slot = self.slots.get_unchecked_ptr(idx);
                slot.version = version;
                Event::Done
            },
            Action::AddNum => {
                self.num_elems = self.num_elems.wrapping_add(1);
                Event::Done
            },
            Action::StoreNext { idx, next } => {
                let slot = self.slots.get_unchecked_ptr(idx);
                slot.next_free = next;
                Event::Done
            },
            Action::PushHead { old_head, new_head, idx } => if self.free_head == old_head
                && !weak {
                self.free_head = new_head;
                proof {
                    self.free@ = seq![idx] + self.free@;
                }
                Event::Swapped
            } else {
                Event::Head { head: self.free_head }
            },
            Action::LoadLen => Event::Word { word: self.slots.len() },
            Action::CasVersion { idx, old_version, new_version } => {
                let current: u32 = self.slots.get_unchecked(idx).version;
                if current == old_version {
                    let slot = self.slots.get_unchecked_ptr(idx);
                    slot.version = new_version;
                    Event::Swapped
                } else {
                    Event::Word { word: current }
                }
            },
            Action::LoadRef { idx } => Event::Word {
                word: self.slots.get_unchecked(idx).ref_count,
            },
            Action::CasRef { idx, old_count, new_count } => {
                let current: u32 = self.slots.get_unchecked(idx).ref_count;
                if current == old_count && !weak {
                    let slot = self.slots.get_unchecked_ptr(idx);
                    slot.ref_count = new_count;
                    Event::Swapped
                } else {
                    Event::Word { word: current }
                }
            },
            Action::FetchAddRef { idx } => {
                let slot = self.slots.get_unchecked_ptr(idx);
                let current: u32 = slot.ref_count;
                slot.ref_count = current.wrapping_add(1);
                Event::Word { word: current }
            },
            Action::FetchSubRef { idx } => {
                let slot = self.slots.get_unchecked_ptr(idx);
                let current: u32 = slot.ref_count;
                slot.ref_count = current.wrapping_sub(1);
                Event::Word { word: current }
            },
            Action::DropData { idx } => {
                let slot = self.slots.get_unchecked_ptr(idx);
                let receipt = slot.drop_inner_value();
                self.dropped.join(receipt);
                Event::Done
            },
            Action::SubNum => {
                self.num_elems = self.num_elems.wrapping_sub(1);
                Event::Done
            },
            Action::Stop => Event::Done,
        }
    }
}

impl<K: Key, V> AtomicSlotMap<K, V> {
    /// The value in a slot, as whoever holds a reference to the slot reads it.
    pub fn data_at(&self, idx: u32) -> (data: Option<&V>)
        requires
            self.parts_ok(),
            self@.reachable(idx),
        ensures
            data == (match self@.slots[idx as int].data {
                Some(value) => Some(&value),
                None => None,
            }),
    {
        self.slots.get_unchecked(idx).data_ptr()
    }
}

impl<K: Key, V> Default for AtomicSlotMap<K, V> {
    fn default() -> (map: Self)
        ensures
            map.wf(),
            map.ledger() == (Seq::<V>::empty(), Seq::<nat>::empty()),
            map@ == State::<V>::empty(no_chunks()),
            map@.live() == Map::<KeyView, V>::empty(),
    {
        Self::with_key()
    }
}

} // verus!
