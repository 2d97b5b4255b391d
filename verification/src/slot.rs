//! A single slot: a value, its reference count and its version.
#[allow(unused_imports)]
use crate::drops::{held, Dropped};
use crate::vec::{DefaultIfLoom, DropInPlace};
#[allow(unused_imports)]
use vstd::prelude::*;

verus! {

/// The reference count has a cap, so that leaked references cannot overflow it.
pub const MAX_REFCOUNT: u32 = 0xFF_FF_FF_00;

/// A single slot in the slot map.
///
/// The reference count of the slot strictly determines the ownership. If the slot has
/// no references, it may be written by whoever took it off the free list.
pub struct Slot<T> {
    /// The value, from the moment it is written until it is dropped.
    pub data: Option<T>,
    /// The index of the next free slot in the linked list of free slots. It means
    /// nothing while the slot is not in that list.
    pub next_free: u32,
    /// The number of references, the one held by the map itself included.
    pub ref_count: u32,
    /// If even, the slot is unoccupied.
    pub version: u32,
}

/// Whether a version marks an occupied slot.
pub open spec fn occupied(version: u32) -> bool {
    version % 2 == 1
}

/// The version after `version`: the counter wraps.
pub open spec fn next_version(version: u32) -> u32 {
    ((version + 1) % 0x1_0000_0000) as u32
}

/// A slot that was never written.
pub open spec fn zeroed_slot<T>() -> Slot<T> {
    Slot { data: None, next_free: 0, ref_count: 0, version: 0 }
}

/// Advances of a version by two numbers make one by their sum.
pub proof fn lemma_sum_of_advances(a: u32, x: int, b: u32, y: int, c: u32)
    requires
        b == (a + x) % 0x1_0000_0000,
        c == (b + y) % 0x1_0000_0000,
    ensures
        c == (a + (x + y)) % 0x1_0000_0000,
{
}

impl<T> Slot<T> {
    /// Whether nobody refers to the slot and it holds no key: it may then be written.
    pub open spec fn exclusively_owned(&self) -> bool {
        self.ref_count == 0 && !occupied(self.version)
    }

    /// The value contained within the slot, if there is one.
    pub fn data_ptr(&self) -> (data: Option<&T>)
        ensures
            data == (match self.data {
                Some(value) => Some(&value),
                None => None,
            }),
    {
        match &self.data {
            Some(value) => Some(value),
            None => None,
        }
    }

    /// Tries to acquire a reference to this slot, expecting it to have the version
    /// `expected_version`.
    ///
    /// Returns an error if the slot has no references or another version. `Err(true)`
    /// says that the reference given back was the last one: the caller has to drop the
    /// value and free the slot.
    pub fn acquire_guard(&mut self, expected_version: u32) -> (acquired: Result<(), bool>)
        requires
            old(self).ref_count <= MAX_REFCOUNT,
        ensures
            acquired == (if old(self).ref_count > 0 && old(self).version == expected_version {
                Ok::<(), bool>(())
            } else {
                Err(false)
            }),
            *final(self) == (Slot {
                ref_count: if acquired is Ok {
                    (old(self).ref_count + 1) as u32
                } else {
                    old(self).ref_count
                },
                ..*old(self)
            }),
    {
        if self.ref_count == 0 {
            return Err(false);
        }
        self.ref_count = self.ref_count + 1;
        if self.version == expected_version {
            return Ok(());
        }
        let needs_drop = self.dec_ref_count();
        Err(needs_drop)
    }

    /// Increments the reference count for a clone operation, on a slot that already has
    /// at least one referent.
    pub fn inc_ref_count_for_clone(&mut self)
        requires
            old(self).ref_count <= MAX_REFCOUNT,
        ensures
            *final(self) == (Slot {
                ref_count: (old(self).ref_count + 1) as u32,
                ..*old(self)
            }),
    {
        self.ref_count = self.ref_count + 1;
    }

    /// Decrements the reference count for dropping a reference to the slot.
    ///
    /// Returns whether that was the last reference: the value should then be dropped,
    /// and the slot may be marked as free.
    pub fn dec_ref_count(&mut self) -> (last: bool)
        requires
            old(self).ref_count > 0,
        ensures
            last == (old(self).ref_count == 1),
            *final(self) == (Slot {
                ref_count: (old(self).ref_count - 1) as u32,
                ..*old(self)
            }),
    {
        let old_count: u32 = self.ref_count;
        self.ref_count = old_count - 1;
        old_count == 1
    }

    /// Drops the inner value contained within the slot.
    pub fn drop_inner_value(&mut self) -> (receipt: Dropped<T>)
        ensures
            *final(self) == (Slot { data: None, ..*old(self) }),
            receipt@ == held(old(self).data),
    {
        Dropped::out_of(&mut self.data)
    }

    /// Whether the slot is exclusively owned.
    pub fn debug_assert_exclusively_owned(&self) -> (owned: bool)
        ensures
            owned == self.exclusively_owned(),
    {
        self.ref_count == 0 && self.version % 2 == 0
    }

    /// Drops the value of an occupied slot, as happens when the map itself goes away.
    pub fn drop(&mut self) -> (receipt: Dropped<T>)
        ensures
            *final(self) == (Slot {
                data: if occupied(old(self).version) {
                    None
                } else {
                    old(self).data
                },
                ..*old(self)
            }),
            receipt@ == (if occupied(old(self).version) {
                held(old(self).data)
            } else {
                Seq::empty()
            }),
    {
        if self.version % 2 == 1 {
            self.drop_inner_value()
        } else {
            Dropped::none()
        }
    }
}

impl<T> DropInPlace for Slot<T> {
    type Value = T;

    open spec fn owned(self) -> Seq<T> {
        if occupied(self.version) {
            held(self.data)
        } else {
            Seq::empty()
        }
    }

    open spec fn dropped(self) -> Self {
        Slot {
            data: if occupied(self.version) {
                None
            } else {
                self.data
            },
            ..self
        }
    }

    fn drop_in_place(&mut self) -> (receipt: Dropped<T>) {
        self.drop()
    }
}

impl<T> DefaultIfLoom for Slot<T> {
    open spec fn zero() -> Self {
        zeroed_slot()
    }

    fn zeroed() -> (value: Self) {
        Slot { data: None, next_free: 0, ref_count: 0, version: 0 }
    }
}

} // verus!
