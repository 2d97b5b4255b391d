//! What holds across the operations of the map.
#[allow(unused_imports)]
use crate::chunks::{
    in_order, lemma_capacity_covers, lemma_max_len, lemma_pushed_capacity, lemma_slots_needed,
    max_capacity, max_len, reservable, reserved,
};
#[allow(unused_imports)]
use crate::head::lemma_packed_head;
#[allow(unused_imports)]
use crate::iter::{
    item_at, items, lemma_items, lemma_items_len, lemma_items_same, lemma_occupied_front,
};
#[allow(unused_imports)]
use crate::settled::{
    lemma_free_or_stored, lemma_inserted, lemma_live_len, lemma_referenced, lemma_refused,
    lemma_released, lemma_removed, lemma_reserved, lemma_same_slots, lemma_stored_len,
};
#[allow(unused_imports)]
use crate::slot::{next_version, MAX_REFCOUNT};
#[allow(unused_imports)]
use crate::state::State;
#[allow(unused_imports)]
use crate::util::KeyView;
#[allow(unused_imports)]
use vstd::prelude::*;

verus! {

broadcast use lemma_packed_head;

/// What was inserted is found under the key that was given, and a guard leads to it.
#[verifier::rlimit(50)]
pub proof fn lemma_insert_then_get<V>(s: State<V>, value: V)
    requires
        s.settled(),
        !s.full(),
    ensures
        ({
            let key = s.next_key();
            let n = s.inserted(value);
            &&& n.live().contains_key(key)
            &&& n.live()[key] == value
            &&& n.may_acquire(key)
            &&& n.acquired(key).guards(key) == 1
            &&& n.acquired(key).stored()[key] == value
        }),
{
    let key = s.next_key();
    let n = s.inserted(value);
    lemma_inserted(s, value);
    assert(n.live().contains_key(key));
    assert(n.stored().contains_key(key));
    assert(n.slots[key.idx as int].ref_count == 1);
    lemma_referenced(n, key);
}

/// A key that was removed is not in the map, and removing it once more changes nothing.
pub proof fn lemma_remove_twice<V>(s: State<V>, key: KeyView)
    requires
        s.settled(),
    ensures
        !s.removed(key).contains(key),
        s.removed(key).removed(key) == s.removed(key),
{
    lemma_removed(s, key);
    assert(!s.removed(key).live().contains_key(key));
}

/// Removal does not touch what guards hold: the value stays, and with it every guard, until the
/// last one is given back.
pub proof fn lemma_guard_survives_removal<V>(s: State<V>, key: KeyView)
    requires
        s.settled(),
        s.contains(key),
        s.guards(key) > 0,
    ensures
        s.removed(key).stored().contains_key(key),
        s.removed(key).stored()[key] == s.live()[key],
        s.removed(key).guards(key) == s.guards(key),
        s.guards(key) == 1 ==> !s.removed(key).dereferenced(key.idx).stored().contains_key(key),
        s.guards(key) > 1 ==> s.removed(key).dereferenced(key.idx).stored().contains_key(key),
{
    lemma_removed(s, key);
    assert(s.stores(key));
    assert(s.stored().contains_key(key));
    assert(!s.removed(key).live().contains_key(key));
    lemma_released(s.removed(key), key);
}

/// A guard that is taken and given back leaves the map as it was.
pub proof fn lemma_get_then_release<V>(s: State<V>, key: KeyView)
    requires
        s.settled(),
        s.stores(key),
        s.slots[key.idx as int].ref_count <= MAX_REFCOUNT,
    ensures
        s.referenced(key.idx).guards(key) > 0,
        s.referenced(key.idx).dereferenced(key.idx) == s,
{
    lemma_referenced(s, key);
    assert(s.referenced(key.idx).dereferenced(key.idx).slots =~= s.slots);
}

/// The keys in the map are stored, with the same values.
pub proof fn lemma_live_is_stored<V>(s: State<V>, key: KeyView)
    requires
        s.settled(),
        s.live().contains_key(key),
    ensures
        s.stored().contains_key(key),
        s.stored()[key] == s.live()[key],
{
    assert(s.slot_ok(key.idx as int));
    assert(s.stores(key));
}

/// The next key leads to no value: neither to one in the map nor to one that a guard holds.
pub proof fn lemma_next_key_unused<V>(s: State<V>)
    requires
        s.settled(),
        !s.full(),
    ensures
        !s.live().contains_key(s.next_key()),
        !s.stored().contains_key(s.next_key()),
{
    lemma_inserted(s, arbitrary());
}

/// An insertion whose value was refused uses up no key and no slot: the next insertion gets both.
pub proof fn lemma_refused_key_is_reused<V>(s: State<V>, value: V)
    requires
        s.settled(),
        !s.full(),
    ensures
        s.refused().next_key() == s.next_key(),
        s.refused().inserted(value).live() == s.inserted(value).live(),
        s.refused().inserted(value).present == s.refused().present,
{
    lemma_refused(s);
    lemma_inserted(s, value);
    lemma_inserted(s.refused(), value);
}

/// The slot of a removed key that nobody holds is the next to be used, under another version.
#[verifier::rlimit(50)]
pub proof fn lemma_removed_slot_is_reused<V>(s: State<V>, key: KeyView, value: V)
    requires
        s.settled(),
        s.contains(key),
        s.guards(key) == 0,
    ensures
        ({
            let n = s.removed(key);
            &&& !n.full()
            &&& n.next_key().idx == key.idx
            &&& n.next_key().version == next_version(next_version(key.version))
            &&& n.inserted(value).present == s.present
        }),
{
    let n = s.removed(key);
    lemma_removed(s, key);
    assert(s.slot_ok(key.idx as int));
    assert(s.stores(key));
    assert(s.slots[key.idx as int].ref_count == 1);
    assert(n.free[0] == key.idx);
}

/// On a map that nobody else uses, iteration meets exactly the keys in the map with their values, each
/// once, in the order of the slots, and as many as the map counts.
#[verifier::rlimit(50)]
pub proof fn lemma_iteration_is_complete<V>(s: State<V>)
    requires
        s.settled(),
    ensures
        forall|key: KeyView| #[trigger]
            s.live().contains_key(key) <==> exists|j: int|
                0 <= j < items(s.slots, 0).len() && (#[trigger] items(s.slots, 0)[j]).0 == key,
        forall|j: int|
            0 <= j < items(s.slots, 0).len() ==> (#[trigger] items(s.slots, 0)[j]).1
                == s.live()[items(s.slots, 0)[j].0],
        forall|j: int, k: int|
            0 <= j < k < items(s.slots, 0).len() ==> (#[trigger] items(s.slots, 0)[j]).0.idx < (
            #[trigger] items(s.slots, 0)[k]).0.idx,
        items(s.slots, 0).len() == s.num_elems,
        s.live().dom().len() == s.num_elems,
{
    let all = items(s.slots, 0);
    lemma_occupied_front(s.slots);
    lemma_items_len(s.slots, 0);
    lemma_live_len(s);
    lemma_items(s.slots, 0);
    assert forall|j: int| 0 <= j < all.len() implies s.live().contains_key((#[trigger] all[j]).0)
        && all[j].1 == s.live()[all[j].0] by {
        assert(s.contains(all[j].0));
    }
    assert forall|key: KeyView| #[trigger] s.live().contains_key(key) implies exists|j: int|
        0 <= j < all.len() && (#[trigger] all[j]).0 == key by {
        let item = item_at(s.slots, key.idx as int);
        assert(all.contains(item));
        let j = choose|j: int| 0 <= j < all.len() && all[j] == item;
        assert(all[j].0 == key);
    }
}

/// Guards that are taken and given back on the way do not change what iteration meets.
pub proof fn lemma_iteration_under_guards<V>(s: State<V>, key: KeyView, from: int)
    requires
        0 <= from,
        s.stores(key),
    ensures
        items(s.referenced(key.idx).slots, from) == items(s.slots, from),
        s.guards(key) > 0 ==> items(s.dereferenced(key.idx).slots, from) == items(s.slots, from),
{
    lemma_items_same(s.slots, s.referenced(key.idx).slots, from);
    if s.guards(key) > 0 {
        lemma_items_same(s.slots, s.dereferenced(key.idx).slots, from);
    }
}

/// There is room for the slots in use.
pub proof fn lemma_slots_within_capacity<V>(s: State<V>)
    requires
        s.settled(),
    ensures
        s.slots.len() <= s.capacity(),
{
    assert(in_order(s.present, s.slots.len()));
    lemma_capacity_covers(s.present, s.slots.len());
}

/// An insertion allocates nothing while there are fewer values than the capacity. The values that
/// only guards hold count too.
#[verifier::rlimit(50)]
pub proof fn lemma_no_allocation<V>(s: State<V>, value: V)
    requires
        s.settled(),
        !s.full(),
        s.stored().dom().len() < s.capacity(),
    ensures
        s.inserted(value).present == s.present,
        s.inserted(value).capacity() == s.capacity(),
        s.inserted(value).stored().dom().len() == s.stored().dom().len() + 1,
{
    lemma_stored_len(s);
    lemma_slots_within_capacity(s);
    if s.free.len() == 0 {
        assert(in_order(s.present, s.slots.len()));
        lemma_pushed_capacity(s.present, s.slots.len());
    }
    lemma_inserted(s, value);
    assert(!s.stored().contains_key(s.next_key()));
}

/// A map is full only where all the slots that there can be store a value.
pub proof fn lemma_full_map_stores_all<V>(s: State<V>)
    requires
        s.settled(),
    ensures
        s.full() == (s.stored().dom().len() >= max_len()),
{
    lemma_stored_len(s);
    lemma_free_or_stored(s);
}

/// A guard cannot be had only where the value has about as many guards as can be counted.
pub proof fn lemma_guards_run_out_late<V>(s: State<V>, key: KeyView)
    requires
        s.settled(),
        s.live().contains_key(key),
        !s.may_acquire(key),
    ensures
        s.guards(key) >= 0xffff_ff00,
{
    assert(s.slot_ok(key.idx as int));
    assert(s.stores(key));
}

/// Room can be made exactly where a vector can have as many slots as there are values that were not dropped yet
/// and elements that are to fit.
pub proof fn lemma_room_that_can_be_made<V>(s: State<V>, additional: nat)
    requires
        s.settled(),
    ensures
        reservable(0, s.target_len(additional)) == (s.stored().dom().len() + additional
            <= max_capacity()),
        s.target_len(additional) >= s.stored().dom().len() + additional,
        s.target_len(additional) >= s.slots.len(),
        s.target_len(additional) == s.slots.len() || s.target_len(additional)
            == s.stored().dom().len() + additional,
{
    lemma_slots_needed(s.slots.len(), s.stored().dom().len(), additional);
    lemma_max_len();
}

/// The state after several insertions.
pub open spec fn inserted_all<V>(s: State<V>, values: Seq<V>) -> State<V>
    decreases values.len(),
{
    if values.len() == 0 {
        s
    } else {
        inserted_all(s, values.drop_last()).inserted(values.last())
    }
}

/// As many insertions as there is room for allocate nothing.
#[verifier::rlimit(50)]
pub proof fn lemma_insertions_within_capacity<V>(s: State<V>, values: Seq<V>)
    requires
        s.settled(),
        s.stored().dom().len() + values.len() <= s.capacity(),
        s.stored().dom().len() + values.len() <= max_len(),
    ensures
        inserted_all(s, values).settled(),
        inserted_all(s, values).present == s.present,
        inserted_all(s, values).capacity() == s.capacity(),
        inserted_all(s, values).stored().dom().len() == s.stored().dom().len() + values.len(),
    decreases values.len(),
{
    if values.len() > 0 {
        let rest = values.drop_last();
        lemma_insertions_within_capacity(s, rest);
        lemma_stored_len(inserted_all(s, rest));
        lemma_no_allocation(inserted_all(s, rest), values.last());
        lemma_inserted(inserted_all(s, rest), values.last());
    }
}

/// After a reservation as many elements as it was for can be inserted without allocation, whatever
/// guards hold.
#[verifier::rlimit(50)]
pub proof fn lemma_reserved_insertions<V>(s: State<V>, additional: nat, values: Seq<V>)
    requires
        s.settled(),
        s.stored().dom().len() + additional <= max_capacity(),
        values.len() <= additional,
        s.stored().dom().len() + values.len() <= max_len(),
    ensures
        ({
            let r = State { present: reserved(s.present, 0, s.target_len(additional)), ..s };
            inserted_all(r, values).present == r.present && inserted_all(r, values).capacity()
                == r.capacity()
        }),
{
    let r = State { present: reserved(s.present, 0, s.target_len(additional)), ..s };
    lemma_room_that_can_be_made(s, additional);
    lemma_reserved(s, s.target_len(additional));
    lemma_same_slots(s, r);
    lemma_insertions_within_capacity(r, values);
}

} // verus!
