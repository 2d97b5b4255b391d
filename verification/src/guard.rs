//! Guards that are given back to the map they came from.
use crate::map::AtomicSlotMap;
#[allow(unused_imports)]
use crate::settled::lemma_released;
#[allow(unused_imports)]
use crate::util::{Key, KeyDataRead, KeyView};
#[allow(unused_imports)]
use vstd::prelude::*;

verus! {

/// A guard into a slot of an [`AtomicSlotMap`].
///
/// It counts as a reference to the value from [`AtomicSlotMap::get`] until [`SlotGuard::drop`].
pub struct SlotGuard<K: Key> {
    key: K,
}

impl<K: Key> SlotGuard<K> {
    /// The key that was looked up.
    pub closed spec fn parts(&self) -> KeyView {
        self.key.parts()
    }

    /// Constructs a new guard, where the key is in the map.
    pub(crate) fn new<V>(key: K, map: &mut AtomicSlotMap<K, V>) -> (guard: Option<Self>)
        requires
            old(map).wf(),
            old(map)@.may_acquire(key.parts()),
        ensures
            final(map).ledger() == old(map).ledger(),
            final(map).wf(),
            guard is Some == old(map)@.contains(key.parts()),
            guard matches Some(g) ==> g.parts() == key.parts(),
            final(map)@ == old(map)@.acquired(key.parts()),
            final(map)@.acquisition(old(map)@, key.parts()),
    {
        let kd = key.data();
        if map.acquire_slot(kd) {
            Some(SlotGuard { key })
        } else {
            None
        }
    }

    /// Returns the key of the value that this slot guard guards.
    pub fn key(&self) -> (key: K)
        ensures
            key.parts() == self.parts(),
    {
        self.key
    }

    /// Returns the value that this slot guard guards.
    fn value<'a, V>(&self, map: &'a AtomicSlotMap<K, V>) -> (value: &'a V)
        requires
            map.wf(),
            map@.guards(self.parts()) > 0,
        ensures
            map@.stored().contains_key(self.parts()),
            *value == map@.stored()[self.parts()],
    {
        map.stored_value(self.key.data())
    }

    /// The guarded value.
    pub fn deref<'a, V>(&self, map: &'a AtomicSlotMap<K, V>) -> (value: &'a V)
        requires
            map.wf(),
            map@.guards(self.parts()) > 0,
        ensures
            map@.stored().contains_key(self.parts()),
            *value == map@.stored()[self.parts()],
    {
        self.value(map)
    }

    /// The guarded value.
    pub fn as_ref<'a, V>(&self, map: &'a AtomicSlotMap<K, V>) -> (value: &'a V)
        requires
            map.wf(),
            map@.guards(self.parts()) > 0,
        ensures
            map@.stored().contains_key(self.parts()),
            *value == map@.stored()[self.parts()],
    {
        self.value(map)
    }

    /// Gives the guard back. The last guard of a removed key drops the value and frees its slot.
    pub fn drop<V>(self, map: &mut AtomicSlotMap<K, V>)
        requires
            old(map).wf(),
            old(map)@.guards(self.parts()) > 0,
        ensures
            final(map).wf(),
            final(map)@ == old(map)@.dereferenced(self.parts().idx),
            // The last guard of a removed key drops the value, and no other value is dropped.
            final(map).dropped() == (if old(map)@.guards(self.parts()) == 1
                && !old(map)@.live().contains_key(self.parts()) {
                old(map).dropped().push(old(map)@.stored()[self.parts()])
            } else {
                old(map).dropped()
            }),
            final(map).freed() == old(map).freed(),
            final(map)@.release(old(map)@, self.parts()),
    {
        proof {
            lemma_released(map@, self.parts());
            assert(map@.slot_ok(self.parts().idx as int));
            assert(map@.stores(self.parts()));
        }
        let kd = self.key.data();
        map.drop_reference(kd.idx());
    }
}

} // verus!
