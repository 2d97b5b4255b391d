//! Iteration over the occupied slots.
#[allow(unused_imports)]
use crate::drops::lists;
use crate::guard::SlotGuard;
use crate::map::AtomicSlotMap;
#[allow(unused_imports)]
use crate::slot::{occupied, Slot, MAX_REFCOUNT};
#[allow(unused_imports)]
use crate::state::{occupied_count, State};
#[allow(unused_imports)]
use crate::vec::DropInPlace;
#[allow(unused_imports)]
use crate::util::{Key, KeyData, KeyDataRead, KeyView};
#[allow(unused_imports)]
use vstd::prelude::*;

verus! {

/// The first occupied slot from an index on, or the number of slots where there is none.
pub open spec fn next_occupied<V>(slots: Seq<Slot<V>>, from: int) -> int
    decreases slots.len() - from,
{
    if from >= slots.len() {
        from
    } else if occupied(slots[from].version) {
        from
    } else {
        next_occupied(slots, from + 1)
    }
}

/// How many slots from an index on are occupied.
pub open spec fn occupied_from<V>(slots: Seq<Slot<V>>, from: int) -> nat
    decreases slots.len() - from,
{
    if from >= slots.len() {
        0
    } else {
        occupied_from(slots, from + 1) + (if occupied(slots[from].version) {
            1nat
        } else {
            0nat
        })
    }
}

/// What iteration gives from an index on, if nobody else changes the map: the keys of the occupied
/// slots with their values, in the order of the slots.
pub open spec fn items<V>(slots: Seq<Slot<V>>, from: int) -> Seq<(KeyView, V)>
    decreases slots.len() - from,
{
    if from >= slots.len() {
        Seq::empty()
    } else if occupied(slots[from].version) {
        seq![item_at(slots, from)] + items(slots, from + 1)
    } else {
        items(slots, from + 1)
    }
}

/// The key of an occupied slot, with its value.
pub open spec fn item_at<V>(slots: Seq<Slot<V>>, i: int) -> (KeyView, V) {
    (KeyView { idx: i as u32, version: slots[i].version }, slots[i].data->0)
}

/// An iterator over the contents of the slotmap.
///
/// This is just equivalent to generating every valid key for any slot and trying to look it up.
pub struct LossyIter {
    current_idx: u32,
}

impl LossyIter {
    /// The index of the slot that is looked at next.
    pub closed spec fn position(&self) -> u32 {
        self.current_idx
    }

    pub(crate) fn new() -> (iter: LossyIter)
        ensures
            iter.position() == 0,
    {
        LossyIter { current_idx: 0 }
    }

    /// What is left to iterate over in a map that nobody else changes.
    pub open spec fn rest<V>(&self, slots: Seq<Slot<V>>) -> Seq<(KeyView, V)> {
        items(slots, self.position() as int)
    }

    /// Looks up the next occupied slot: its key, and a guard into it.
    pub fn next<K: Key, V>(&mut self, map: &mut AtomicSlotMap<K, V>) -> (item: Option<
        (K, SlotGuard<K>),
    >)
        requires
            old(map).wf(),
            ({
                let i = next_occupied(old(map)@.slots, old(self).position() as int);
                i < old(map)@.slots.len() ==> old(map)@.slots[i].ref_count <= MAX_REFCOUNT
            }),
        ensures
            final(map).ledger() == old(map).ledger(),
            final(map).wf(),
            item is Some == (next_occupied(old(map)@.slots, old(self).position() as int)
                < old(map)@.slots.len()),
            match item {
                Some((key, guard)) => {
                    let i = next_occupied(old(map)@.slots, old(self).position() as int);
                    &&& key.parts() == (KeyView {
                        idx: i as u32,
                        version: old(map)@.slots[i].version,
                    })
                    &&& guard.parts() == key.parts()
                    &&& final(self).position() == i + 1
                    &&& final(map)@ == old(map)@.referenced(key.parts().idx)
                    &&& final(map)@.reference(old(map)@, key.parts())
                },
                None => final(self).position() == next_occupied(
                    old(map)@.slots,
                    old(self).position() as int,
                ) && final(map)@ == old(map)@,
            },
            item is Some == (old(self).rest(old(map)@.slots).len() > 0),
            item matches Some((key, _)) ==> old(self).rest(old(map)@.slots)[0] == (
                key.parts(),
                old(map)@.live()[key.parts()],
            ),
            final(self).rest(final(map)@.slots) == (if item is Some {
                old(self).rest(old(map)@.slots).drop_first()
            } else {
                Seq::empty()
            }),
    {
        loop
            invariant
                map.ledger() == old(map).ledger(),
                map.wf(),
                map@ == old(map)@,
                ({
                    let i = next_occupied(map@.slots, self.current_idx as int);
                    i < map@.slots.len() ==> map@.slots[i].ref_count <= MAX_REFCOUNT
                }),
                next_occupied(map@.slots, self.current_idx as int) == next_occupied(
                    old(map)@.slots,
                    old(self).position() as int,
                ),
            decreases map@.slots.len() - self.current_idx,
        {
            let idx: u32 = self.current_idx;
            let version: u32 = match map.slot_version(idx) {
                Some(version) => version,
                None => {
                    proof {
                        lemma_items_next(map@.slots, old(self).current_idx as int);
                        lemma_items_next(map@.slots, idx as int);
                    }
                    return None;
                },
            };
            self.current_idx = idx + 1;
            if version % 2 != 0 {
                let key = K::from_data(KeyData::new(idx, version));
                assert(map@.contains(key.parts()));
                if let Some(guard) = map.get(key) {
                    proof {
                        lemma_items_next(old(map)@.slots, old(self).current_idx as int);
                        lemma_items_same(old(map)@.slots, map@.slots, self.current_idx as int);
                    }
                    return Some((key, guard));
                }
            }
        }
    }

    /// Takes a guard of every key that is left, in the order of the slots.
    #[verifier::rlimit(50)]
    pub fn collect<K: Key, V>(self, map: &mut AtomicSlotMap<K, V>) -> (all: Vec<(K, SlotGuard<K>)>)
        requires
            old(map).wf(),
            forall|i: int|
                self.position() <= i < old(map)@.slots.len() && occupied(
                    old(map)@.slots[i].version,
                ) ==> (#[trigger] old(map)@.slots[i]).ref_count <= MAX_REFCOUNT,
        ensures
            final(map).ledger() == old(map).ledger(),
            final(map).wf(),
            final(map)@.live() == old(map)@.live(),
            final(map)@.stored() == old(map)@.stored(),
            all@.len() == self.rest(old(map)@.slots).len(),
            forall|j: int|
                0 <= j < all@.len() ==> (#[trigger] all@[j]).0.parts() == self.rest(
                    old(map)@.slots,
                )[j].0 && all@[j].1.parts() == all@[j].0.parts() && old(map)@.live().contains_key(
                    all@[j].0.parts(),
                ) && old(map)@.live()[all@[j].0.parts()] == self.rest(old(map)@.slots)[j].1,
            forall|key: KeyView| #[trigger]
                final(map)@.guards(key) == old(map)@.guards(key) + (if old(map)@.contains(key)
                    && key.idx >= self.position() {
                    1nat
                } else {
                    0nat
                }),
    {
        let mut iter = self;
        let mut all: Vec<(K, SlotGuard<K>)> = Vec::new();
        let ghost rest = self.rest(map@.slots);
        assert(rest.skip(0) =~= rest);
        loop
            invariant
                map.ledger() == old(map).ledger(),
                map.wf(),
                old(map).wf(),
                forall|i: int|
                    self.position() <= i < old(map)@.slots.len() && occupied(
                        old(map)@.slots[i].version,
                    ) ==> (#[trigger] old(map)@.slots[i]).ref_count <= MAX_REFCOUNT,
                rest == self.rest(old(map)@.slots),
                self.current_idx <= iter.current_idx,
                all@.len() <= rest.len(),
                iter.rest(map@.slots) == rest.skip(all@.len() as int),
                map@.live() == old(map)@.live(),
                map@.stored() == old(map)@.stored(),
                map@.slots.len() == old(map)@.slots.len(),
                forall|i: int|
                    iter.current_idx <= i < map@.slots.len() ==> #[trigger] map@.slots[i] == old(
                        map,
                    )@.slots[i],
                forall|j: int|
                    0 <= j < all@.len() ==> (#[trigger] all@[j]).0.parts() == rest[j].0
                        && all@[j].1.parts() == all@[j].0.parts() && old(map)@.live().contains_key(
                        all@[j].0.parts(),
                    ) && old(map)@.live()[all@[j].0.parts()] == rest[j].1,
                forall|key: KeyView| #[trigger]
                    map@.guards(key) == old(map)@.guards(key) + (if old(map)@.contains(key)
                        && self.position() <= key.idx < iter.position() {
                        1nat
                    } else {
                        0nat
                    }),
            decreases map@.slots.len() - iter.current_idx,
        {
            let ghost from = iter.current_idx as int;
            let ghost before = map@;
            proof {
                lemma_next_occupied(map@.slots, from);
            }
            match iter.next(map) {
                Some((key, guard)) => {
                    proof {
                        let i = key.parts().idx as int;
                        assert(before.live().contains_key(key.parts()));
                        assert(old(map)@.live().contains_key(key.parts()));
                        assert forall|k: KeyView| #[trigger] map@.guards(k) == old(map)@.guards(k)
                            + (if old(map)@.contains(k) && self.position() <= k.idx
                            < iter.position() {
                            1nat
                        } else {
                            0nat
                        }) by {
                            assert(map@.guards(k) == before.guards(k) + (if k == key.parts() {
                                1nat
                            } else {
                                0nat
                            }));
                            assert(old(map)@.contains(k) == old(map)@.live().contains_key(k));
                            assert(before.contains(k) == before.live().contains_key(k));
                            if from <= k.idx < i {
                                assert(!occupied(before.slots[k.idx as int].version));
                            }
                        }
                    }
                    all.push((key, guard));
                    assert(rest.skip(all@.len() - 1).drop_first() =~= rest.skip(
                        all@.len() as int,
                    ));
                },
                None => {
                    proof {
                        assert forall|k: KeyView| #[trigger] old(map)@.contains(k) implies k.idx
                            < iter.position() by {
                            assert(old(map)@.live().contains_key(k));
                            assert(map@.live().contains_key(k));
                        }
                    }
                    return all;
                },
            }
        }
    }

    /// Counts the items that are left, giving back each guard.
    pub fn count<K: Key, V>(self, map: &mut AtomicSlotMap<K, V>) -> (count: usize)
        requires
            old(map).wf(),
            forall|i: int|
                self.position() <= i < old(map)@.slots.len() && occupied(
                    old(map)@.slots[i].version,
                ) ==> (#[trigger] old(map)@.slots[i]).ref_count <= MAX_REFCOUNT,
        ensures
            final(map).ledger() == old(map).ledger(),
            final(map).wf(),
            final(map)@ == old(map)@,
            count == occupied_from(old(map)@.slots, self.position() as int),
            count == self.rest(old(map)@.slots).len(),
    {
        let mut iter = self;
        let mut count: usize = 0;
        loop
            invariant
                map.ledger() == old(map).ledger(),
                map.wf(),
                map@ == old(map)@,
                forall|i: int|
                    self.position() <= i < old(map)@.slots.len() && occupied(
                        old(map)@.slots[i].version,
                    ) ==> (#[trigger] old(map)@.slots[i]).ref_count <= MAX_REFCOUNT,
                self.current_idx <= iter.current_idx,
                count + occupied_from(map@.slots, iter.current_idx as int) == occupied_from(
                    map@.slots,
                    self.current_idx as int,
                ),
                count <= iter.current_idx - self.current_idx,
            decreases map@.slots.len() - iter.current_idx,
        {
            let ghost from = iter.current_idx as int;
            proof {
                lemma_next_occupied(map@.slots, from);
            }
            match iter.next(map) {
                Some((_, guard)) => {
                    let ghost idx = guard.parts().idx;
                    assert(old(map)@.slots[idx as int].ref_count <= MAX_REFCOUNT);
                    guard.drop(map);
                    assert(map@ =~= old(map)@) by {
                        assert(map@.slots =~= old(map)@.slots);
                    }
                    count = count + 1;
                },
                None => {
                    proof {
                        lemma_items_len(map@.slots, self.current_idx as int);
                    }
                    return count;
                },
            }
        }
    }
}

/// What lies before the first occupied slot does not count, and the slot itself does.
pub proof fn lemma_next_occupied<V>(slots: Seq<Slot<V>>, from: int)
    requires
        0 <= from,
    ensures
        next_occupied(slots, from) >= from,
        next_occupied(slots, from) < slots.len() ==> occupied(
            slots[next_occupied(slots, from)].version,
        ) && occupied_from(slots, from) == 1 + occupied_from(slots, next_occupied(slots, from) + 1),
        next_occupied(slots, from) >= slots.len() ==> occupied_from(slots, from) == 0,
        forall|i: int|
            from <= i < next_occupied(slots, from) && i < slots.len() ==> !occupied(
                #[trigger] slots[i].version,
            ),
    decreases slots.len() - from,
{
    if from < slots.len() && !occupied(slots[from].version) {
        lemma_next_occupied(slots, from + 1);
    }
}

/// The first item is that of the first occupied slot.
pub proof fn lemma_items_next<V>(slots: Seq<Slot<V>>, from: int)
    requires
        0 <= from,
    ensures
        items(slots, from) == (if next_occupied(slots, from) < slots.len() {
            seq![item_at(slots, next_occupied(slots, from))] + items(
                slots,
                next_occupied(slots, from) + 1,
            )
        } else {
            Seq::empty()
        }),
        next_occupied(slots, from) < slots.len() ==> items(slots, from).drop_first() == items(
            slots,
            next_occupied(slots, from) + 1,
        ),
    decreases slots.len() - from,
{
    if from < slots.len() && !occupied(slots[from].version) {
        lemma_items_next(slots, from + 1);
    } else if from < slots.len() {
        assert(items(slots, from).drop_first() =~= items(slots, from + 1));
    }
}

/// Iteration depends on the versions and the values of the occupied slots alone.
pub proof fn lemma_items_same<V>(a: Seq<Slot<V>>, b: Seq<Slot<V>>, from: int)
    requires
        0 <= from,
        a.len() == b.len(),
        forall|i: int|
            0 <= i < a.len() ==> (#[trigger] b[i]).version == a[i].version && (occupied(
                a[i].version,
            ) ==> b[i].data == a[i].data),
    ensures
        items(a, from) == items(b, from),
    decreases a.len() - from,
{
    if from < a.len() {
        assert(b[from].version == a[from].version);
        lemma_items_same(a, b, from + 1);
    }
}

/// There are as many items as occupied slots.
pub proof fn lemma_items_len<V>(slots: Seq<Slot<V>>, from: int)
    requires
        0 <= from,
    ensures
        items(slots, from).len() == occupied_from(slots, from),
    decreases slots.len() - from,
{
    if from < slots.len() {
        lemma_items_len(slots, from + 1);
    }
}

/// The items are those of the occupied slots, each once, in the order of the slots.
#[verifier::rlimit(50)]
pub proof fn lemma_items<V>(slots: Seq<Slot<V>>, from: int)
    requires
        0 <= from,
        slots.len() <= u32::MAX,
    ensures
        forall|j: int|
            #![trigger items(slots, from)[j]]
            0 <= j < items(slots, from).len() ==> {
                let i = items(slots, from)[j].0.idx as int;
                from <= i < slots.len() && occupied(slots[i].version) && items(slots, from)[j]
                    == item_at(slots, i)
            },
        forall|j: int, k: int|
            0 <= j < k < items(slots, from).len() ==> (#[trigger] items(slots, from)[j]).0.idx < (
            #[trigger] items(slots, from)[k]).0.idx,
        forall|i: int|
            from <= i < slots.len() && occupied(slots[i].version) ==> items(
                slots,
                from,
            ).contains(#[trigger] item_at(slots, i)),
    decreases slots.len() - from,
{
    if from < slots.len() {
        let all = items(slots, from);
        let rest = items(slots, from + 1);
        lemma_items(slots, from + 1);
        if occupied(slots[from].version) {
            assert(all[0] == item_at(slots, from));
            assert forall|j: int| 0 < j < all.len() implies #[trigger] all[j] == rest[j - 1] by {}
            assert forall|i: int| from <= i < slots.len() && occupied(slots[i].version) implies
                all.contains(#[trigger] item_at(slots, i)) by {
                if i > from {
                    let j = choose|j: int| 0 <= j < rest.len() && rest[j] == item_at(slots, i);
                    assert(all[j + 1] == item_at(slots, i));
                }
            }
        }
    }
}

/// What the slots from an index on have to drop.
pub open spec fn owned_from<V>(slots: Seq<Slot<V>>, from: int) -> Seq<Seq<V>> {
    Seq::new((slots.len() - from) as nat, |i: int| slots[from + i].owned())
}

/// What the slots have to drop are the values that iteration meets.
#[verifier::rlimit(50)]
proof fn lemma_owned_items<V>(slots: Seq<Slot<V>>, from: int)
    requires
        0 <= from <= slots.len(),
        forall|i: int|
            0 <= i < slots.len() && occupied((#[trigger] slots[i]).version) ==> slots[i].data is Some,
    ensures
        owned_from(slots, from).flatten() == items(slots, from).map_values(|item: (KeyView, V)| item.1),
    decreases slots.len() - from,
{
    let values = |item: (KeyView, V)| item.1;
    let each = owned_from(slots, from);
    if from < slots.len() {
        lemma_owned_items(slots, from + 1);
        assert(each.drop_first() =~= owned_from(slots, from + 1));
        assert(each.first() == slots[from].owned());
        if occupied(slots[from].version) {
            assert(items(slots, from).map_values(values) =~= seq![slots[from].data->0] + items(
                slots,
                from + 1,
            ).map_values(values));
        } else {
            assert(each.flatten() =~= each.drop_first().flatten());
        }
    } else {
        assert(each =~= Seq::empty());
        assert(items(slots, from).map_values(values) =~= Seq::empty());
    }
}

/// What the slots of a map have to drop are the values in the map, each once.
#[verifier::rlimit(50)]
pub proof fn lemma_live_values<V>(s: State<V>)
    requires
        s.settled(),
    ensures
        lists(owned_from(s.slots, 0).flatten(), s.live()),
{
    let all = items(s.slots, 0);
    let keys = all.map_values(|item: (KeyView, V)| item.0);
    let values = all.map_values(|item: (KeyView, V)| item.1);
    assert forall|i: int| 0 <= i < s.slots.len() && occupied((#[trigger] s.slots[i]).version) implies
        s.slots[i].data is Some by {
        assert(s.slot_ok(i));
    }
    lemma_owned_items(s.slots, 0);
    lemma_items(s.slots, 0);
    assert forall|j: int| 0 <= j < all.len() implies s.live().contains_key(#[trigger] keys[j])
        && values[j] == s.live()[keys[j]] by {
        let i = all[j].0.idx as int;
        assert(all[j] == item_at(s.slots, i));
    }
    assert forall|j: int, k: int| 0 <= j < keys.len() && 0 <= k < keys.len() && j != k implies keys[j]
        != keys[k] by {
        if j < k {
            assert(all[j].0.idx < all[k].0.idx);
        } else {
            assert(all[k].0.idx < all[j].0.idx);
        }
    }
    assert forall|key: KeyView| #[trigger] keys.to_set().contains(key) == s.live().dom().contains(
        key,
    ) by {
        if s.live().contains_key(key) {
            let item = item_at(s.slots, key.idx as int);
            assert(all.contains(item));
            let j = choose|j: int| 0 <= j < all.len() && all[j] == item;
            assert(keys[j] == key);
        }
        if keys.contains(key) {
            let j = choose|j: int| 0 <= j < keys.len() && keys[j] == key;
            assert(s.live().contains_key(keys[j]));
        }
    }
    assert(keys.to_set() =~= s.live().dom());
}

/// Counted from the front, all occupied slots are counted.
pub proof fn lemma_occupied_front<V>(slots: Seq<Slot<V>>)
    ensures
        occupied_from(slots, 0) == occupied_count(slots),
    decreases slots.len(),
{
    if slots.len() > 0 {
        lemma_occupied_front(slots.drop_last());
        lemma_occupied_from_last(slots, 0);
    }
}

/// The last slot counts at the end.
proof fn lemma_occupied_from_last<V>(slots: Seq<Slot<V>>, from: int)
    requires
        0 <= from < slots.len(),
    ensures
        occupied_from(slots, from) == occupied_from(slots.drop_last(), from) + (if occupied(
            slots.last().version,
        ) {
            1nat
        } else {
            0nat
        }),
    decreases slots.len() - from,
{
    if from < slots.len() - 1 {
        lemma_occupied_from_last(slots, from + 1);
    } else {
        assert(occupied_from(slots, from + 1) == 0);
    }
}

} // verus!
