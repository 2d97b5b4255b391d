//! Receipts for values that were dropped and for memory that was given back.
//!
//! A receipt is had only from the functions here that take the value, or the memory, and let it go. Whoever
//! has to hand in a receipt has to give up what it is for.
#[allow(unused_imports)]
use vstd::prelude::*;

verus! {

/// The value in a place, if there is one.
pub open spec fn held<T>(place: Option<T>) -> Seq<T> {
    match place {
        Some(value) => seq![value],
        None => Seq::empty(),
    }
}

/// Whether a sequence lists the values of a map, one for each key.
pub open spec fn lists<K, V>(values: Seq<V>, contents: Map<K, V>) -> bool {
    exists|keys: Seq<K>|
        #![trigger keys.to_set()]
        {
            &&& keys.len() == values.len()
            &&& keys.no_duplicates()
            &&& keys.to_set() == contents.dom()
            &&& forall|i: int|
                0 <= i < keys.len() ==> #[trigger] values[i] == contents[keys[i]]
        }
}

/// There are as many values in a list as keys in the map.
pub proof fn lemma_lists_len<K, V>(values: Seq<V>, contents: Map<K, V>)
    requires
        lists(values, contents),
    ensures
        contents.dom().finite(),
        values.len() == contents.dom().len(),
{
    let keys = choose|keys: Seq<K>|
        #![trigger keys.to_set()]
        {
            &&& keys.len() == values.len()
            &&& keys.no_duplicates()
            &&& keys.to_set() == contents.dom()
            &&& forall|i: int|
                0 <= i < keys.len() ==> #[trigger] values[i] == contents[keys[i]]
        };
    keys.unique_seq_to_set();
    vstd::seq_lib::seq_to_set_is_finite(keys);
}

/// The values whose destructors were run, in this order.
pub struct Dropped<T> {
    values: Ghost<Seq<T>>,
}

impl<T> View for Dropped<T> {
    type V = Seq<T>;

    closed spec fn view(&self) -> Seq<T> {
        self.values@
    }
}

impl<T> Dropped<T> {
    /// Nothing was dropped.
    pub fn none() -> (receipt: Self)
        ensures
            receipt@ == Seq::<T>::empty(),
    {
        Dropped { values: Ghost(Seq::empty()) }
    }

    /// Drops a value: its destructor runs here, at the end of its scope.
    pub fn of(value: T) -> (receipt: Self)
        ensures
            receipt@ == seq![value],
    {
        let ghost values = seq![value];
        Dropped { values: Ghost(values) }
    }

    /// Drops the value in a place, if there is one.
    pub fn out_of(place: &mut Option<T>) -> (receipt: Self)
        ensures
            receipt@ == held(*old(place)),
            *final(place) == None::<T>,
    {
        match place.take() {
            Some(value) => Self::of(value),
            None => Self::none(),
        }
    }

    /// Puts another receipt behind this one.
    pub fn join(&mut self, more: Self)
        ensures
            final(self)@ == old(self)@ + more@,
    {
        proof {
            self.values@ = self.values@ + more.values@;
        }
    }
}

/// The sizes of the blocks of memory that were given back, in this order.
pub struct Freed {
    sizes: Ghost<Seq<nat>>,
}

impl View for Freed {
    type V = Seq<nat>;

    closed spec fn view(&self) -> Seq<nat> {
        self.sizes@
    }
}

impl Freed {
    /// Nothing was given back.
    pub fn none() -> (receipt: Self)
        ensures
            receipt@ == Seq::<nat>::empty(),
    {
        Freed { sizes: Ghost(Seq::empty()) }
    }

    /// Gives the memory of a block back. The destructors of what is left in it are not run: what they have
    /// to drop was dropped before.
    pub fn give_back<T>(&mut self, block: Vec<T>)
        ensures
            final(self)@ == old(self)@.push(block@.len()),
    {
        let ghost size = block@.len();
        let mut block = block;
        while block.len() > 0
            decreases block@.len(),
        {
            let _left = std::mem::ManuallyDrop::new(block.pop());
        }
        proof {
            self.sizes@ = self.sizes@.push(size);
        }
    }

    /// Puts another receipt behind this one.
    pub fn join(&mut self, more: Self)
        ensures
            final(self)@ == old(self)@ + more@,
    {
        proof {
            self.sizes@ = self.sizes@ + more.sizes@;
        }
    }
}

} // verus!
