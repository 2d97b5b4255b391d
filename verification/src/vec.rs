//! A vector that grows by whole chunks and never moves its elements.
#[allow(unused_imports)]
use crate::chunks::{
    capacity_of, in_order, least_capacity, lemma_capacity_covers, lemma_chunk_addressable,
    lemma_leading, lemma_pushed_capacity, lemma_reserved_capacity, max_len, prefix_closed,
    reservable, reserved, with_chunks,
};
#[allow(unused_imports)]
use crate::drops::{Dropped, Freed};
use crate::location::{chunk_capacity, get_location, last_chunk, CHUNKS};
#[allow(unused_imports)]
use crate::location::{
    chunk_of, chunk_size, chunk_start, lemma_chunk_of, lemma_chunk_start_monotone,
    lemma_location_injective, offset_of,
};
#[allow(unused_imports)]
use vstd::prelude::*;

verus! {

/// A type with a zero value, which fresh elements of an [`AtomicVec`] have.
pub trait DefaultIfLoom: Sized {
    /// The zero value.
    spec fn zero() -> Self;

    /// Makes a zero value.
    fn zeroed() -> (value: Self)
        ensures
            value == Self::zero(),
    ;
}

/// A type whose values can be dropped where they are.
pub trait DropInPlace: Sized {
    /// What is inside and has a destructor.
    type Value;

    /// What is dropped with the value.
    spec fn owned(self) -> Seq<Self::Value>;

    /// What is left of the value.
    spec fn dropped(self) -> Self;

    /// Drops the value. What is left has nothing to drop any more.
    fn drop_in_place(&mut self) -> (receipt: Dropped<Self::Value>)
        ensures
            receipt@ == old(self).owned(),
            *final(self) == old(self).dropped(),
            final(self).dropped() == *final(self),
    ;
}

/// A vector of up to 2^32 elements in chunks that are allocated one by one.
///
/// Only the zero value can be pushed, elements are never removed, and a chunk, once
/// allocated, stays where it is.
pub struct AtomicVec<T: DefaultIfLoom> {
    chunks: [Option<Vec<T>>; 15],
    len: u32,
}

impl<T: DefaultIfLoom> View for AtomicVec<T> {
    type V = Seq<T>;

    /// The elements. One whose chunk is not there yet has the zero value.
    closed spec fn view(&self) -> Seq<T> {
        Seq::new(
            self.len as nat,
            |i: int|
                match self.chunks@[chunk_of(i) as int] {
                    Some(chunk) => chunk@[offset_of(i)],
                    None => T::zero(),
                },
        )
    }
}

impl<T: DefaultIfLoom> AtomicVec<T> {
    /// Which chunks are there.
    pub closed spec fn present(&self) -> Seq<bool> {
        Seq::new(CHUNKS as nat, |k: int| self.chunks@[k] is Some)
    }

    /// The chunks have their sizes, and what lies behind the length is zero.
    pub closed spec fn wf(&self) -> bool {
        &&& forall|k: int|
            0 <= k < CHUNKS && (#[trigger] self.chunks@[k]) is Some
                ==> self.chunks@[k]->0@.len() == chunk_size(k as nat) && chunk_start(
                (k + 1) as nat,
            ) <= usize::MAX
        &&& forall|k: int, j: int|
            0 <= k < CHUNKS && self.chunks@[k] is Some && 0 <= j < chunk_size(k as nat)
                && chunk_start(k as nat) + j >= self.len
                ==> #[trigger] self.chunks@[k]->0@[j] == T::zero()
    }

    /// Whether the chunk of element `i` is there.
    pub open spec fn ready(&self, i: int) -> bool {
        self.present()[chunk_of(i) as int]
    }

    /// The chunks of all elements are there, and no chunk before one that is there is missing. That
    /// is so unless an index was taken whose chunk is yet to be made.
    pub open spec fn ordered(&self) -> bool {
        in_order(self.present(), self@.len())
    }

    /// How many elements the chunks before the first missing one hold.
    pub open spec fn room(&self) -> nat {
        capacity_of(self.present())
    }

    /// Creates a new vector that is able to store zero elements.
    pub fn new() -> (vec: Self)
        ensures
            vec.wf(),
            vec.ordered(),
            vec.room() == 0,
            vec@ == Seq::<T>::empty(),
            vec.present() == Seq::new(CHUNKS as nat, |k: int| false),
    {
        let chunks: [Option<Vec<T>>; 15] = [
            None,
            None,
            None,
            None,
            None,
            None,
            None,
            None,
            None,
            None,
            None,
            None,
            None,
            None,
            None,
        ];
        proof {
            reveal(prefix_closed);
        }
        AtomicVec { chunks, len: 0 }
    }

    /// Returns the length of the vector.
    pub fn len(&self) -> (len: u32)
        ensures
            len == self@.len(),
    {
        self.len
    }

    /// A chunk of zero values.
    fn zeroed_chunk(cap: usize) -> (chunk: Vec<T>)
        ensures
            chunk@.len() == cap,
            forall|j: int| 0 <= j < cap ==> #[trigger] chunk@[j] == T::zero(),
    {
        let mut chunk: Vec<T> = Vec::new();
        let mut filled: usize = 0;
        while filled < cap
            invariant
                filled <= cap,
                chunk@.len() == filled,
                forall|j: int| 0 <= j < filled ==> #[trigger] chunk@[j] == T::zero(),
            decreases cap - filled,
        {
            chunk.push(T::zeroed());
            filled = filled + 1;
        }
        chunk
    }

    /// Ensures that the chunk with the provided index exists. Returns whether it had to
    /// be made.
    pub fn ensure_chunk_exists(&mut self, chunk_idx: usize) -> (made: bool)
        requires
            old(self).wf(),
            chunk_idx < CHUNKS,
            chunk_start((chunk_idx + 1) as nat) <= usize::MAX,
        ensures
            final(self).wf(),
            final(self)@ == old(self)@,
            final(self).present() == old(self).present().update(chunk_idx as int, true),
            made == !old(self).present()[chunk_idx as int],
    {
        if self.chunks[chunk_idx].is_some() {
            assert(self.present() =~= old(self).present().update(chunk_idx as int, true));
            return false;
        }
        let cap: usize = chunk_capacity(chunk_idx);
        let chunk = Self::zeroed_chunk(cap);
        self.chunks[chunk_idx] = Some(chunk);
        assert(self.present() =~= old(self).present().update(chunk_idx as int, true));
        proof {
            assert forall|i: int| 0 <= i < self.len implies self@[i] == old(self)@[i] by {
                lemma_chunk_of(i);
            }
            assert(self@ =~= old(self)@);
        }
        true
    }

    /// Whether the chunk with the provided index exists.
    pub fn has_chunk(&self, chunk_idx: usize) -> (present: bool)
        requires
            chunk_idx < CHUNKS,
        ensures
            present == self.present()[chunk_idx as int],
    {
        self.chunks[chunk_idx].is_some()
    }

    /// Creates a new vector that is able to store `cap` elements without further
    /// allocations.
    pub fn with_capacity(cap: usize) -> (vec: Self)
        requires
            reservable(0, cap as nat),
        ensures
            vec.wf(),
            vec@ == Seq::<T>::empty(),
            vec.present() == reserved(Seq::new(CHUNKS as nat, |k: int| false), 0, cap as nat),
            vec.ordered(),
            vec.room() == least_capacity(cap as nat),
    {
        let mut vec = Self::new();
        vec.reserve(cap);
        vec
    }

    /// Takes the next index, without making its chunk.
    pub fn claim_index(&mut self) -> (idx: u32)
        requires
            old(self).wf(),
            old(self)@.len() < max_len(),
        ensures
            final(self).wf(),
            idx == old(self)@.len(),
            final(self)@ == old(self)@.push(T::zero()),
            final(self).present() == old(self).present(),
    {
        let idx: u32 = self.len;
        self.len = idx + 1;
        proof {
            lemma_chunk_of(idx as int);
            assert(self@ =~= old(self)@.push(T::zero())) by {
                assert forall|i: int| 0 <= i < self.len implies self@[i] == old(self)@.push(
                    T::zero(),
                )[i] by {
                    if i == idx {
                        let k = chunk_of(i) as int;
                        if self.chunks@[k] is Some {
                            assert(old(self).chunks@[k]->0@[offset_of(i)] == T::zero());
                        }
                    }
                }
            }
            assert(self.present() =~= old(self).present());
        }
        idx
    }

    /// Pushes another element to the vector. The element has the zero value.
    pub fn push_zeroed(&mut self) -> (idx: u32)
        requires
            old(self).wf(),
            old(self)@.len() < max_len(),
        ensures
            final(self).wf(),
            idx == old(self)@.len(),
            final(self)@ == old(self)@.push(T::zero()),
            final(self).present() == old(self).present().update(
                chunk_of(idx as int) as int,
                true,
            ),
            final(self).ready(idx as int),
            forall|i: int|
                0 <= i < old(self)@.len() && old(self).ready(i) ==> #[trigger] final(self).ready(i),
            old(self).ordered() ==> final(self).ordered(),
            old(self).ordered() ==> final(self).room() >= final(self)@.len(),
            old(self).ordered() && final(self).room() != old(self).room() ==> old(self)@.len()
                == old(self).room(),
    {
        let idx: u32 = self.claim_index();
        let (chunk_idx, _) = get_location(idx);
        proof {
            lemma_chunk_addressable(idx as int);
            if old(self).ordered() {
                lemma_pushed_capacity(old(self).present(), old(self)@.len());
            }
        }
        self.ensure_chunk_exists(chunk_idx);
        proof {
            assert forall|i: int| 0 <= i < old(self)@.len() && old(self).ready(i) implies
                #[trigger] self.ready(i) by {
                lemma_chunk_of(i);
            }
        }
        idx
    }

    /// The chunk with the provided index, which is there.
    fn wait_for_chunk(&self, chunk_idx: usize) -> (chunk: &Vec<T>)
        requires
            self.wf(),
            chunk_idx < CHUNKS,
            self.present()[chunk_idx as int],
        ensures
            chunk@ == self.chunks@[chunk_idx as int]->0@,
            chunk@.len() == chunk_size(chunk_idx as nat),
    {
        self.chunks[chunk_idx].as_ref().unwrap()
    }

    /// Retrieves the element at `idx`.
    pub fn get(&self, idx: u32) -> (element: Option<&T>)
        requires
            self.wf(),
            idx < self@.len() ==> self.ready(idx as int),
        ensures
            element == (if idx < self@.len() {
                Some(&self@[idx as int])
            } else {
                None
            }),
    {
        if idx >= self.len {
            return None;
        }
        Some(self.get_unchecked(idx))
    }

    /// Retrieves the element at `idx`, which is contained within the vector.
    pub fn get_unchecked(&self, idx: u32) -> (element: &T)
        requires
            self.wf(),
            idx < self@.len(),
            self.ready(idx as int),
        ensures
            *element == self@[idx as int],
    {
        let (chunk_idx, offset) = get_location(idx);
        let chunk = self.wait_for_chunk(chunk_idx);
        &chunk[offset]
    }

    /// Retrieves the element at `idx`, which is contained within the vector, for writing.
    pub fn get_unchecked_ptr(&mut self, idx: u32) -> (element: &mut T)
        requires
            old(self).wf(),
            idx < old(self)@.len(),
            old(self).ready(idx as int),
        ensures
            *element == old(self)@[idx as int],
            final(self).wf(),
            final(self)@ == old(self)@.update(idx as int, *final(element)),
            final(self).present() == old(self).present(),
            forall|i: int| #[trigger] final(self).ready(i) == old(self).ready(i),
    {
        let (chunk_idx, offset) = get_location(idx);
        proof {
            assert forall|i: int| 0 <= i < self.len && i != idx implies (#[trigger] chunk_of(i)
                != chunk_idx || offset_of(i) != offset) && 0 <= chunk_of(i) < CHUNKS && 0
                <= offset_of(i) < chunk_size(chunk_of(i)) by {
                lemma_chunk_of(i);
                if chunk_of(i) == chunk_idx && offset_of(i) == offset {
                    lemma_location_injective(i, idx as int);
                }
            }
        }
        match &mut self.chunks[chunk_idx] {
            Some(chunk) => &mut chunk[offset],
            None => unreached(),
        }
    }

    /// Reserves the space for `additional` additional elements in the vector.
    pub fn reserve(&mut self, additional: usize)
        requires
            old(self).wf(),
            reservable(old(self)@.len(), additional as nat),
        ensures
            final(self).wf(),
            final(self)@ == old(self)@,
            final(self).present() == reserved(
                old(self).present(),
                old(self)@.len(),
                additional as nat,
            ),
            forall|i: int|
                0 <= i < old(self)@.len() && old(self).ready(i) ==> #[trigger] final(self).ready(i),
            old(self).ordered() ==> final(self).ordered(),
            old(self).ordered() ==> final(self).room() == ({
                let least = least_capacity(old(self)@.len() + additional as nat);
                if old(self).room() >= least {
                    old(self).room()
                } else {
                    least
                }
            }),
    {
        proof {
            if self.ordered() {
                lemma_reserved_capacity(self.present(), self@.len(), additional as nat);
            }
        }
        let target_cap: u64 = self.len as u64 + additional as u64;
        if target_cap == 0 {
            return ;
        }
        let max_chunk: usize = last_chunk(target_cap);
        proof {
            lemma_chunk_addressable(target_cap - 1);
        }
        let mut next: usize = 0;
        while next <= max_chunk
            invariant
                self.wf(),
                self@ == old(self)@,
                next <= max_chunk + 1,
                max_chunk < CHUNKS,
                chunk_start((max_chunk + 1) as nat) <= usize::MAX,
                self.present().len() == CHUNKS,
                old(self).present().len() == CHUNKS,
                forall|k: int|
                    0 <= k < CHUNKS ==> #[trigger] self.present()[k] == (old(self).present()[k] || k
                        < next),
            decreases max_chunk + 1 - next,
        {
            proof {
                lemma_chunk_start_monotone((next + 1) as nat, (max_chunk + 1) as nat);
            }
            self.ensure_chunk_exists(next);
            next = next + 1;
        }
        assert(self.present() =~= with_chunks(old(self).present(), max_chunk as nat));
        proof {
            assert forall|i: int| 0 <= i < old(self)@.len() && old(self).ready(i) implies
                #[trigger] self.ready(i) by {
                lemma_chunk_of(i);
            }
        }
    }

    /// Returns the capacity of the vector: the sizes of the chunks before the first
    /// missing one.
    pub fn capacity(&self) -> (cap: usize)
        requires
            self.wf(),
        ensures
            cap == self.room(),
            self.ordered() ==> cap >= self@.len(),
    {
        let mut total_cap: usize = 0;
        let mut next: usize = 0;
        while next < CHUNKS && self.chunks[next].is_some()
            invariant
                self.wf(),
                next <= CHUNKS,
                total_cap == chunk_start(next as nat),
                forall|k: int| 0 <= k < next ==> #[trigger] self.present()[k],
            decreases CHUNKS - next,
        {
            assert(self.chunks@[next as int] is Some);
            proof {
                lemma_chunk_start_monotone(0, next as nat);
            }
            total_cap = total_cap + chunk_capacity(next);
            next = next + 1;
        }
        proof {
            lemma_leading(self.present(), next as nat);
            if self.ordered() {
                lemma_capacity_covers(self.present(), self@.len());
            }
        }
        total_cap
    }
}

/// The sizes of the chunks that are there, the first one first.
pub open spec fn chunk_sizes(present: Seq<bool>) -> Seq<nat> {
    Seq::new(
        present.len(),
        |k: int|
            if present[k] {
                seq![chunk_size(k as nat)]
            } else {
                Seq::empty()
            },
    ).flatten()
}

impl<T: DefaultIfLoom + DropInPlace> AtomicVec<T> {
    /// What each element has to drop. One whose chunk is not there has nothing.
    pub open spec fn owned_by_each(&self) -> Seq<Seq<T::Value>> {
        Seq::new(
            self@.len(),
            |i: int|
                if self.ready(i) {
                    self@[i].owned()
                } else {
                    Seq::empty()
                },
        )
    }

    /// Drops every element in place, one after the other. One whose chunk is not there is left as it is.
    #[verifier::rlimit(50)]
    pub fn drop_elements(&mut self) -> (receipt: Dropped<T::Value>)
        requires
            old(self).wf(),
        ensures
            receipt@ == old(self).owned_by_each().flatten(),
            final(self).wf(),
            final(self)@ == Seq::new(
                old(self)@.len(),
                |i: int|
                    if old(self).ready(i) {
                        old(self)@[i].dropped()
                    } else {
                        old(self)@[i]
                    },
            ),
            forall|i: int|
                0 <= i < final(self)@.len() && final(self).ready(i) ==> (
                #[trigger] final(self)@[i]).dropped() == final(self)@[i],
            final(self).present() == old(self).present(),
    {
        let mut receipt: Dropped<T::Value> = Dropped::none();
        let ghost each = self.owned_by_each();
        let mut next: u32 = 0;
        proof {
            assert(each.take(0) =~= Seq::empty());
        }
        while next < self.len
            invariant
                self.wf(),
                self@.len() == old(self)@.len(),
                next <= self@.len(),
                self.present() == old(self).present(),
                each == old(self).owned_by_each(),
                receipt@ == each.take(next as int).flatten(),
                forall|i: int|
                    0 <= i < self@.len() ==> #[trigger] self@[i] == (if i < next && old(self).ready(
                        i,
                    ) {
                        old(self)@[i].dropped()
                    } else {
                        old(self)@[i]
                    }),
                forall|i: int|
                    0 <= i < next && old(self).ready(i) ==> (#[trigger] self@[i]).dropped()
                        == self@[i],
            decreases self@.len() - next,
        {
            proof {
                assert(each.take(next + 1) =~= each.take(next as int).push(each[next as int]));
                lemma_flatten_push(each.take(next as int), each[next as int]);
                assert(each.take(next as int).flatten() + Seq::<T::Value>::empty()
                    =~= each.take(next as int).flatten());
            }
            let (chunk_idx, _) = get_location(next);
            if self.has_chunk(chunk_idx) {
                let element = self.get_unchecked_ptr(next);
                let more = element.drop_in_place();
                receipt.join(more);
            }
            next = next + 1;
        }
        assert(each.take(next as int) =~= each);
        receipt
    }

    /// Deallocates all chunks, without another look at the elements: what they have to drop was
    /// dropped before.
    #[verifier::rlimit(50)]
    pub fn dealloc_chunks(&mut self) -> (receipt: Freed)
        requires
            old(self).wf(),
            forall|i: int|
                0 <= i < old(self)@.len() && old(self).ready(i) ==> (
                #[trigger] old(self)@[i]).dropped() == old(self)@[i],
        ensures
            receipt@ == chunk_sizes(old(self).present()),
            final(self).wf(),
            final(self)@ == Seq::<T>::empty(),
            final(self).present() == Seq::new(CHUNKS as nat, |k: int| false),
    {
        let mut receipt = Freed::none();
        let ghost each = Seq::new(
            CHUNKS as nat,
            |k: int|
                if self.present()[k] {
                    seq![chunk_size(k as nat)]
                } else {
                    Seq::empty()
                },
        );
        let mut next: usize = 0;
        proof {
            assert(each.take(0) =~= Seq::empty());
        }
        while next < CHUNKS
            invariant
                next <= CHUNKS,
                each.len() == CHUNKS,
                old(self).wf(),
                forall|k: int|
                    0 <= k < CHUNKS ==> #[trigger] each[k] == (if old(self).present()[k] {
                        seq![chunk_size(k as nat)]
                    } else {
                        Seq::empty()
                    }),
                receipt@ == each.take(next as int).flatten(),
                forall|k: int| 0 <= k < next ==> (#[trigger] self.chunks@[k]) is None,
                forall|k: int|
                    next <= k < CHUNKS ==> #[trigger] self.chunks@[k] == old(self).chunks@[k],
            decreases CHUNKS - next,
        {
            proof {
                assert(each.take(next + 1) =~= each.take(next as int).push(each[next as int]));
                lemma_flatten_push(each.take(next as int), each[next as int]);
                assert(each.take(next as int).flatten() + Seq::<nat>::empty() =~= each.take(
                    next as int,
                ).flatten());
                assert(self.chunks@[next as int] == old(self).chunks@[next as int]);
            }
            if let Some(chunk) = self.chunks[next].take() {
                assert(chunk@.len() == chunk_size(next as nat));
                receipt.give_back(chunk);
                assert(receipt@ =~= each.take(next as int).flatten() + seq![
                    chunk_size(next as nat),
                ]);
            }
            next = next + 1;
        }
        assert(each.take(next as int) =~= each);
        self.len = 0;
        assert(self@ =~= Seq::<T>::empty());
        assert(self.present() =~= Seq::new(CHUNKS as nat, |k: int| false));
        receipt
    }

    /// Drops all elements, then deallocates all chunks.
    pub fn drop(&mut self) -> (receipts: (Dropped<T::Value>, Freed))
        requires
            old(self).wf(),
        ensures
            receipts.0@ == old(self).owned_by_each().flatten(),
            receipts.1@ == chunk_sizes(old(self).present()),
            final(self).wf(),
            final(self)@ == Seq::<T>::empty(),
            final(self).present() == Seq::new(CHUNKS as nat, |k: int| false),
    {
        let dropped = self.drop_elements();
        let freed = self.dealloc_chunks();
        (dropped, freed)
    }
}

/// One sequence more comes behind the others.
pub proof fn lemma_flatten_push<A>(lists: Seq<Seq<A>>, last: Seq<A>)
    ensures
        lists.push(last).flatten() == lists.flatten() + last,
{
    lists.push(last).lemma_flatten_and_flatten_alt_are_equivalent();
    lists.lemma_flatten_and_flatten_alt_are_equivalent();
    assert(lists.push(last).drop_last() =~= lists);
}

} // verus!
