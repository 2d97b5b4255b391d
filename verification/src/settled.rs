//! Every operation leads from a settled state to a settled state, and what it does to the
//! keys in the map, to the stored values and to the guards.
#[allow(unused_imports)]
use crate::chunks::{
    in_order, lemma_covering_update, lemma_least_capacity, lemma_reserved_capacity, max_len,
    prefix_closed, reserved,
};
#[allow(unused_imports)]
use crate::head::{head_index, lemma_packed_head};
#[allow(unused_imports)]
use crate::location::{chunk_of, lemma_chunk_of, CAPACITY, CHUNKS};
#[allow(unused_imports)]
use crate::slot::{next_version, occupied, zeroed_slot, Slot, MAX_REFCOUNT};
#[allow(unused_imports)]
use crate::state::{
    lemma_occupied_bound, lemma_occupied_push, lemma_occupied_update, lemma_stored_bound,
    lemma_stored_push, link, occupied_count, stored_count,
    stored_version, State,
};
#[allow(unused_imports)]
use crate::util::KeyView;
#[allow(unused_imports)]
use vstd::prelude::*;
use vstd::set_lib::lemma_len_subset;

verus! {

broadcast use lemma_packed_head;

/// Taking the head off the free list leaves a free list.
#[verifier::rlimit(50)]
pub proof fn lemma_popped<V>(s: State<V>)
    requires
        s.free_ok(),
        s.free.len() > 0,
    ensures
        s.popped().free_ok(),
        s.popped().slots == s.slots,
        s.free[0] < s.slots.len(),
        head_index(s.free_head) == s.free[0],
        s.slots[s.free[0] as int].next_free == link(s.free, 1),
        forall|i: u32| #[trigger] s.popped().free.contains(i) <==> s.free.contains(i) && i != s.free[0],
{
    let p = s.popped();
    assert(s.free[0] < s.slots.len());
    assert forall|i: int| 0 <= i < p.free.len() implies (#[trigger] p.free[i]) < p.slots.len()
        && p.slots[p.free[i] as int].next_free == link(p.free, i + 1) by {
        assert(p.free[i] == s.free[i + 1]);
        assert(link(p.free, i + 1) == link(s.free, i + 2));
    }
    assert forall|i: u32| #[trigger] p.free.contains(i) <==> s.free.contains(i) && i
        != s.free[0] by {
        if p.free.contains(i) {
            let j = choose|j: int| 0 <= j < p.free.len() && p.free[j] == i;
            assert(s.free[j + 1] == i);
        }
        if s.free.contains(i) && i != s.free[0] {
            let j = choose|j: int| 0 <= j < s.free.len() && s.free[j] == i;
            assert(p.free[j - 1] == i);
        }
    }
}

/// Putting a slot that is not in it in front of the free list leaves a free list.
#[verifier::rlimit(50)]
pub proof fn lemma_pushed<V>(s: State<V>, idx: u32)
    requires
        s.free_ok(),
        idx < s.slots.len(),
        !s.free.contains(idx),
    ensures
        s.pushed(idx).free_ok(),
        forall|i: u32| #[trigger] s.pushed(idx).free.contains(i) <==> s.free.contains(i) || i == idx,
{
    let p = s.pushed(idx);
    assert(p.free[0] == idx);
    assert forall|i: int| 0 <= i < p.free.len() implies (#[trigger] p.free[i]) < p.slots.len()
        && p.slots[p.free[i] as int].next_free == link(p.free, i + 1) by {
        if i > 0 {
            assert(p.free[i] == s.free[i - 1]);
            assert(s.free.contains(s.free[i - 1]));
            assert(link(p.free, i + 1) == link(s.free, i));
        } else {
            assert(link(p.free, 1) == link(s.free, 0));
        }
    }
    assert forall|i: int, j: int| 0 <= i < j < p.free.len() implies p.free[i] != p.free[j] by {
        assert(p.free[j] == s.free[j - 1]);
        assert(s.free.contains(s.free[j - 1]));
        if i > 0 {
            assert(p.free[i] == s.free[i - 1]);
        }
    }
    assert forall|i: u32| #[trigger] p.free.contains(i) <==> s.free.contains(i) || i == idx by {
        if p.free.contains(i) {
            let j = choose|j: int| 0 <= j < p.free.len() && p.free[j] == i;
            if j > 0 {
                assert(s.free[j - 1] == i);
            }
        }
        if s.free.contains(i) {
            let j = choose|j: int| 0 <= j < s.free.len() && s.free[j] == i;
            assert(p.free[j + 1] == i);
        }
    }
}

/// Making a slot leaves the chunks a prefix and covers the new slot.
proof fn lemma_grown_chunks<V>(s: State<V>)
    requires
        s.settled(),
        s.slots.len() < max_len(),
    ensures
        forall|i: int|
            0 <= i < s.grown().slots.len() ==> s.grown().present[#[trigger] chunk_of(i) as int],
        prefix_closed(s.grown().present),
        s.grown().present.len() == CHUNKS,
{
    assert(in_order(s.present, s.slots.len()));
    lemma_covering_update(s.present, s.slots.len() as int);
    assert(in_order(s.grown().present, s.grown().slots.len()));
}

/// Insertion: the next key is new, and is in the map with the value afterwards. All other
/// keys, values and guards are as before.
#[verifier::rlimit(50)]
pub proof fn lemma_inserted<V>(s: State<V>, value: V)
    requires
        s.settled(),
        !s.full(),
    ensures
        s.inserted(value).settled(),
        !s.contains(s.next_key()),
        !s.stores(s.next_key()),
        s.inserted(value).live() == s.live().insert(s.next_key(), value),
        s.inserted(value).stored() == s.stored().insert(s.next_key(), value),
        forall|key: KeyView| #[trigger] s.inserted(value).guards(key) == s.guards(key),
        s.inserted(value).num_elems == s.num_elems + 1,
{
    let idx = s.next_idx();
    let key = s.next_key();
    let c = s.claimed();
    let n = s.inserted(value);
    lemma_occupied_bound(s.slots);
    if s.free.len() > 0 {
        lemma_popped(s);
        assert(s.free.contains(s.free[0]));
        assert(s.slot_ok(idx as int));
        lemma_occupied_update(s.slots, idx as int, n.slots[idx as int]);
        assert(!occupied(s.slots[idx as int].version));
    } else {
        lemma_grown_chunks(s);
        lemma_occupied_push(s.slots, zeroed_slot());
        lemma_occupied_update(c.slots, idx as int, n.slots[idx as int]);
        assert(!s.free.contains(idx)) by {
            if s.free.contains(idx) {
                let j = choose|j: int| 0 <= j < s.free.len() && s.free[j] == idx;
            }
        }
    }
    assert(c.free_ok());
    assert(!c.free.contains(idx));
    assert forall|i: int| 0 <= i < n.free.len() implies (#[trigger] n.free[i]) < n.slots.len()
        && n.slots[n.free[i] as int].next_free == link(n.free, i + 1) by {
        assert(c.free[i] < c.slots.len());
        assert(c.free.contains(c.free[i]));
    }
    assert(n.free_ok());
    assert forall|i: int| 0 <= i < n.slots.len() implies #[trigger] n.slot_ok(i) by {
        if i != idx {
            assert(s.slot_ok(i));
            assert(c.free.contains(i as u32) == s.free.contains(i as u32));
        }
    }
    assert forall|k: KeyView| #[trigger] n.contains(k) == (k == key || s.contains(k)) by {
        if k.idx == idx && n.contains(k) {
            assert(k =~= key);
        }
    }
    assert(n.live() =~= s.live().insert(key, value)) by {
        assert forall|k: KeyView| n.live().contains_key(k) == s.live().insert(
            key,
            value,
        ).contains_key(k) by {
            assert(n.contains(k) == (k == key || s.contains(k)));
        }
    }
    assert forall|k: KeyView| #[trigger] n.stores(k) == (k == key || s.stores(k)) by {
        if k.idx == idx && n.stores(k) {
            assert(k =~= key);
        }
    }
    assert(n.stored() =~= s.stored().insert(key, value)) by {
        assert forall|k: KeyView| n.stored().contains_key(k) == s.stored().insert(
            key,
            value,
        ).contains_key(k) by {
            assert(n.stores(k) == (k == key || s.stores(k)));
        }
    }
    assert forall|k: KeyView| #[trigger] n.guards(k) == s.guards(k) by {
        assert(n.stores(k) == (k == key || s.stores(k)));
    }
}

/// A refused insertion: nothing changes for any key, value or guard, and the slot that was
/// taken is the next to be used, under the same key.
#[verifier::rlimit(50)]
pub proof fn lemma_refused<V>(s: State<V>)
    requires
        s.settled(),
        !s.full(),
    ensures
        s.refused().settled(),
        s.refused().live() == s.live(),
        s.refused().stored() == s.stored(),
        forall|key: KeyView| #[trigger] s.refused().guards(key) == s.guards(key),
        s.refused().num_elems == s.num_elems,
        s.refused().next_key() == s.next_key(),
        !s.refused().full(),
{
    let idx = s.next_idx();
    let c = s.claimed();
    let n = s.refused();
    lemma_occupied_bound(s.slots);
    if s.free.len() > 0 {
        lemma_popped(s);
        assert(s.free.contains(s.free[0]));
        assert(s.slot_ok(idx as int));
    } else {
        lemma_grown_chunks(s);
        lemma_occupied_push(s.slots, zeroed_slot());
        assert(!s.free.contains(idx));
    }
    assert(c.free_ok());
    assert(!c.free.contains(idx));
    lemma_pushed(c, idx);
    lemma_occupied_update(c.slots, idx as int, n.slots[idx as int]);
    assert forall|i: int| 0 <= i < n.slots.len() implies #[trigger] n.slot_ok(i) by {
        if i != idx {
            assert(s.slot_ok(i));
            assert(c.free.contains(i as u32) == s.free.contains(i as u32));
            assert(n.free.contains(i as u32) == c.free.contains(i as u32));
        } else {
            assert(n.free.contains(idx));
        }
    }
    assert forall|k: KeyView| #[trigger] n.contains(k) == s.contains(k) by {}
    assert forall|k: KeyView| #[trigger] n.stores(k) == s.stores(k) by {}
    assert(n.live() =~= s.live()) by {
        assert forall|k: KeyView| n.live().contains_key(k) == s.live().contains_key(k) by {
            assert(n.contains(k) == s.contains(k));
        }
    }
    assert(n.stored() =~= s.stored()) by {
        assert forall|k: KeyView| n.stored().contains_key(k) == s.stored().contains_key(k) by {
            assert(n.stores(k) == s.stores(k));
        }
    }
    assert forall|k: KeyView| #[trigger] n.guards(k) == s.guards(k) by {
        assert(n.stores(k) == s.stores(k));
    }
    assert(n.free[0] == idx);
}

/// One more reference to a stored value: its guards are one more, and nothing else changes.
#[verifier::rlimit(50)]
pub proof fn lemma_referenced<V>(s: State<V>, key: KeyView)
    requires
        s.settled(),
        s.stores(key),
        s.slots[key.idx as int].ref_count <= MAX_REFCOUNT,
    ensures
        s.referenced(key.idx).settled(),
        s.referenced(key.idx).live() == s.live(),
        s.referenced(key.idx).stored() == s.stored(),
        forall|k: KeyView| #[trigger]
            s.referenced(key.idx).guards(k) == s.guards(k) + (if k == key {
                1nat
            } else {
                0nat
            }),
{
    let n = s.referenced(key.idx);
    lemma_occupied_update(s.slots, key.idx as int, n.slots[key.idx as int]);
    lemma_same_free(s, n, key.idx);
    assert forall|i: int| 0 <= i < n.slots.len() implies #[trigger] n.slot_ok(i) by {
        assert(s.slot_ok(i));
    }
    lemma_same_keys(s, n);
    assert forall|k: KeyView| #[trigger] n.guards(k) == s.guards(k) + (if k == key {
        1nat
    } else {
        0nat
    }) by {
        assert(n.stores(k) == s.stores(k));
        if k.idx == key.idx && s.stores(k) {
            assert(k =~= key);
        }
    }
}

/// Changing a slot outside the free list leaves the free list, as long as the slot keeps its
/// link.
#[verifier::rlimit(50)]
proof fn lemma_same_free<V>(s: State<V>, n: State<V>, idx: u32)
    requires
        s.free_ok(),
        idx < s.slots.len(),
        n.slots.len() == s.slots.len(),
        forall|i: int| 0 <= i < s.slots.len() && i != idx ==> #[trigger] n.slots[i] == s.slots[i],
        n.slots[idx as int].next_free == s.slots[idx as int].next_free,
        n.free == s.free,
        n.free_head == s.free_head,
        n.present == s.present,
    ensures
        n.free_ok(),
{
    assert forall|i: int| 0 <= i < n.free.len() implies (#[trigger] n.free[i]) < n.slots.len()
        && n.slots[n.free[i] as int].next_free == link(n.free, i + 1) by {
        assert(s.free[i] < s.slots.len());
        if s.free[i] != idx {
            assert(n.slots[s.free[i] as int] == s.slots[s.free[i] as int]);
        }
    }
}

/// States that agree on versions, values and on which slots are referenced have the same keys
/// and values.
#[verifier::rlimit(50)]
proof fn lemma_same_keys<V>(s: State<V>, n: State<V>)
    requires
        n.slots.len() == s.slots.len(),
        forall|i: int|
            0 <= i < s.slots.len() ==> (#[trigger] n.slots[i]).version == s.slots[i].version
                && n.slots[i].data == s.slots[i].data && (n.slots[i].ref_count > 0)
                == (s.slots[i].ref_count > 0),
    ensures
        n.live() == s.live(),
        n.stored() == s.stored(),
        forall|k: KeyView| #[trigger] n.stores(k) == s.stores(k),
        forall|k: KeyView| #[trigger] n.contains(k) == s.contains(k),
{
    assert forall|k: KeyView| #[trigger] n.contains(k) == s.contains(k) by {
        if k.idx < s.slots.len() {
            assert(n.slots[k.idx as int].version == s.slots[k.idx as int].version);
        }
    }
    assert forall|k: KeyView| #[trigger] n.stores(k) == s.stores(k) by {
        if k.idx < s.slots.len() {
            assert(n.slots[k.idx as int].version == s.slots[k.idx as int].version);
        }
    }
    assert(n.live() =~= s.live()) by {
        assert forall|k: KeyView| n.live().contains_key(k) == s.live().contains_key(k) by {
            assert(n.contains(k) == s.contains(k));
        }
    }
    assert(n.stored() =~= s.stored()) by {
        assert forall|k: KeyView| n.stored().contains_key(k) == s.stored().contains_key(k) by {
            assert(n.stores(k) == s.stores(k));
        }
    }
}

/// What is left when a reference is given back to a slot that is not free.
#[verifier::rlimit(50)]
proof fn lemma_dereferenced_free<V>(s: State<V>, idx: u32)
    requires
        s.settled(),
        idx < s.slots.len(),
        s.slots[idx as int].ref_count > 0,
        occupied(s.slots[idx as int].version) ==> s.slots[idx as int].ref_count > 1,
    ensures
        s.dereferenced(idx).settled(),
{
    let n = s.dereferenced(idx);
    assert(s.slot_ok(idx as int));
    assert(!s.free.contains(idx));
    if s.slots[idx as int].ref_count == 1 {
        let m = s.with_slot(idx, Slot { data: None, ref_count: 0, ..s.slots[idx as int] });
        lemma_same_free(s, m, idx);
        lemma_pushed(m, idx);
        lemma_occupied_update(s.slots, idx as int, m.slots[idx as int]);
        lemma_occupied_update(m.slots, idx as int, n.slots[idx as int]);
        assert forall|i: int| 0 <= i < n.slots.len() implies #[trigger] n.slot_ok(i) by {
            assert(s.slot_ok(i));
            assert(n.free.contains(i as u32) == (m.free.contains(i as u32) || i as u32 == idx));
        }
    } else {
        lemma_same_free(s, n, idx);
        lemma_occupied_update(s.slots, idx as int, n.slots[idx as int]);
        assert forall|i: int| 0 <= i < n.slots.len() implies #[trigger] n.slot_ok(i) by {
            assert(s.slot_ok(i));
        }
    }
}

/// Giving back a guard: the guards of its key are one fewer. The value is dropped, and its slot
/// freed, exactly when that was the last guard of a key that was removed.
#[verifier::rlimit(50)]
pub proof fn lemma_released<V>(s: State<V>, key: KeyView)
    requires
        s.settled(),
        s.guards(key) > 0,
    ensures
        s.dereferenced(key.idx).settled(),
        s.dereferenced(key.idx).live() == s.live(),
        s.dereferenced(key.idx).stored() == (if s.contains(key) || s.guards(key) > 1 {
            s.stored()
        } else {
            s.stored().remove(key)
        }),
        forall|k: KeyView| #[trigger]
            s.dereferenced(key.idx).guards(k) == (if k == key {
                (s.guards(k) - 1) as nat
            } else {
                s.guards(k)
            }),
        s.dereferenced(key.idx).num_elems == s.num_elems,
{
    let n = s.dereferenced(key.idx);
    lemma_dereferenced_free(s, key.idx);
    let idx = key.idx as int;
    assert(forall|i: int| 0 <= i < s.slots.len() && i != idx ==> #[trigger] n.slots[i] == s.slots[i]);
    if s.slots[idx].ref_count == 1 {
        lemma_dropped_keys(s, n, key);
    } else {
        lemma_same_keys(s, n);
    }
    assert forall|k: KeyView| #[trigger] n.guards(k) == (if k == key {
        (s.guards(k) - 1) as nat
    } else {
        s.guards(k)
    }) by {
        if k.idx == key.idx {
            if s.stores(k) {
                assert(k =~= key);
            }
        }
    }
}

/// Dropping the value of an unoccupied slot takes its key out of the stored ones.
#[verifier::rlimit(50)]
proof fn lemma_dropped_keys<V>(s: State<V>, n: State<V>, key: KeyView)
    requires
        s.stores(key),
        n.slots.len() == s.slots.len(),
        forall|i: int|
            0 <= i < s.slots.len() && i != key.idx ==> #[trigger] n.slots[i] == s.slots[i],
        n.slots[key.idx as int].version == s.slots[key.idx as int].version,
        !occupied(s.slots[key.idx as int].version),
        n.slots[key.idx as int].ref_count == 0,
    ensures
        n.live() == s.live(),
        n.stored() == s.stored().remove(key),
{
    assert forall|k: KeyView| #[trigger] n.contains(k) == s.contains(k) by {}
    assert forall|k: KeyView| #[trigger] n.stores(k) == (s.stores(k) && k != key) by {
        if k.idx == key.idx && s.stores(k) {
            assert(k =~= key);
        }
    }
    assert(n.live() =~= s.live()) by {
        assert forall|k: KeyView| n.live().contains_key(k) == s.live().contains_key(k) by {
            assert(n.contains(k) == s.contains(k));
        }
    }
    assert(n.stored() =~= s.stored().remove(key)) by {
        assert forall|k: KeyView| n.stored().contains_key(k) == s.stored().remove(key).contains_key(
            k,
        ) by {
            assert(n.stores(k) == (s.stores(k) && k != key));
        }
    }
}

/// Removal: the key is no longer in the map. Its value is dropped at once if no guard holds it,
/// and stays as long as one does.
#[verifier::rlimit(50)]
pub proof fn lemma_removed<V>(s: State<V>, key: KeyView)
    requires
        s.settled(),
    ensures
        s.removed(key).settled(),
        s.removed(key).live() == s.live().remove(key),
        s.removed(key).stored() == (if s.contains(key) && s.guards(key) == 0 {
            s.stored().remove(key)
        } else {
            s.stored()
        }),
        forall|k: KeyView| #[trigger] s.removed(key).guards(k) == s.guards(k),
        s.removed(key).num_elems == s.num_elems - (if s.contains(key) {
            1int
        } else {
            0int
        }),
{
    if s.contains(key) {
        lemma_removed_live(s, key);
    } else {
        assert(s.live().remove(key) =~= s.live());
    }
}

/// The removal of a key that is in the map.
#[verifier::rlimit(50)]
proof fn lemma_removed_live<V>(s: State<V>, key: KeyView)
    requires
        s.settled(),
        s.contains(key),
    ensures
        s.removed(key).settled(),
        s.removed(key).live() == s.live().remove(key),
        s.removed(key).stored() == (if s.guards(key) == 0 {
            s.stored().remove(key)
        } else {
            s.stored()
        }),
        forall|k: KeyView| #[trigger] s.removed(key).guards(k) == s.guards(k),
        s.removed(key).num_elems == s.num_elems - 1,
{
    let idx = key.idx as int;
    let v = s.with_slot(
        key.idx,
        Slot { version: next_version(s.slots[idx].version), ..s.slots[idx] },
    );
    let d = v.dereferenced(key.idx);
    let n = s.removed(key);
    assert(s.slot_ok(idx));
    lemma_occupied_bound(s.slots);
    lemma_occupied_update(s.slots, idx, v.slots[idx]);
    let w = State { num_elems: (s.num_elems - 1) as u32, ..v };
    lemma_same_free(s, w, key.idx);
    assert(w.settled()) by {
        assert forall|i: int| 0 <= i < w.slots.len() implies #[trigger] w.slot_ok(i) by {
            assert(s.slot_ok(i));
        }
    }
    lemma_dereferenced_free(w, key.idx);
    assert(n =~= w.dereferenced(key.idx));
    assert(s.stores(key));
    assert(stored_version(w.slots[idx].version) == key.version);
    assert(forall|i: int| 0 <= i < s.slots.len() && i != idx ==> #[trigger] n.slots[i] == s.slots[i]);
    assert forall|k: KeyView| #[trigger] n.contains(k) == (s.contains(k) && k != key) by {
        if k.idx == key.idx && s.contains(k) {
            assert(k =~= key);
        }
    }
    assert(n.live() =~= s.live().remove(key)) by {
        assert forall|k: KeyView| n.live().contains_key(k) == s.live().remove(key).contains_key(
            k,
        ) by {
            assert(n.contains(k) == (s.contains(k) && k != key));
        }
    }
    let gone = s.guards(key) == 0;
    assert forall|k: KeyView| #[trigger] n.stores(k) == (s.stores(k) && !(gone && k == key)) by {
        if k.idx == key.idx && s.stores(k) {
            assert(k =~= key);
        }
    }
    assert(n.stored() =~= (if gone {
        s.stored().remove(key)
    } else {
        s.stored()
    })) by {
        assert forall|k: KeyView| n.stored().contains_key(k) == (s.stores(k) && !(gone && k
            == key)) by {
            assert(n.stores(k) == (s.stores(k) && !(gone && k == key)));
        }
    }
    assert forall|k: KeyView| #[trigger] n.guards(k) == s.guards(k) by {
        assert(n.stores(k) == (s.stores(k) && !(gone && k == key)));
        if k.idx == key.idx && s.stores(k) {
            assert(k =~= key);
        }
    }
}

/// States with the same slots have the same keys, values and guards.
pub proof fn lemma_same_slots<V>(s: State<V>, n: State<V>)
    requires
        n.slots == s.slots,
    ensures
        n.live() == s.live(),
        n.stored() == s.stored(),
        forall|k: KeyView| #[trigger] n.guards(k) == s.guards(k),
{
    lemma_same_keys(s, n);
}

/// Reserving leads to a settled state with room for as many slots as were asked for.
#[verifier::rlimit(50)]
pub proof fn lemma_reserved<V>(s: State<V>, target: nat)
    requires
        s.settled(),
        target <= CAPACITY,
    ensures
        (State { present: reserved(s.present, 0, target), ..s }).settled(),
        (State { present: reserved(s.present, 0, target), ..s }).capacity() >= target,
{
    let n = State { present: reserved(s.present, 0, target), ..s };
    if target > 0 {
        lemma_chunk_of(target - 1);
    }
    lemma_reserved_capacity(s.present, 0, target);
    lemma_least_capacity(target);
    assert forall|i: int| 0 <= i < n.slots.len() implies n.present[#[trigger] chunk_of(i) as int] by {
        assert(s.present[chunk_of(i) as int]);
        lemma_chunk_of(i);
    }
    assert forall|i: int| 0 <= i < n.slots.len() implies #[trigger] n.slot_ok(i) by {
        assert(s.slot_ok(i));
    }
    assert(n.free_ok());
}

/// The keys of the occupied slots below `n`.
pub open spec fn keys_below<V>(slots: Seq<Slot<V>>, n: int) -> Set<KeyView> {
    Set::new(
        |key: KeyView|
            key.idx < n && occupied(key.version) && slots[key.idx as int].version == key.version,
    )
}

/// There are as many keys as occupied slots.
#[verifier::rlimit(50)]
proof fn lemma_keys_below<V>(slots: Seq<Slot<V>>, n: int)
    requires
        0 <= n <= slots.len() <= u32::MAX,
    ensures
        keys_below(slots, n).finite(),
        keys_below(slots, n).len() == occupied_count(slots.subrange(0, n)),
    decreases n,
{
    if n == 0 {
        assert(keys_below(slots, 0) =~= Set::<KeyView>::empty());
    } else {
        lemma_keys_below(slots, n - 1);
        let key = KeyView { idx: (n - 1) as u32, version: slots[n - 1].version };
        assert(slots.subrange(0, n) =~= slots.subrange(0, n - 1).push(slots[n - 1]));
        lemma_occupied_push(slots.subrange(0, n - 1), slots[n - 1]);
        if occupied(slots[n - 1].version) {
            assert(keys_below(slots, n) =~= keys_below(slots, n - 1).insert(key));
        } else {
            assert(keys_below(slots, n) =~= keys_below(slots, n - 1));
        }
    }
}

/// The counter of elements is the number of keys in the map.
pub proof fn lemma_live_len<V>(s: State<V>)
    requires
        s.settled(),
    ensures
        s.live().dom().finite(),
        s.live().dom().len() == s.num_elems,
{
    lemma_keys_below(s.slots, s.slots.len() as int);
    assert(s.slots.subrange(0, s.slots.len() as int) =~= s.slots);
    assert(s.live().dom() =~= keys_below(s.slots, s.slots.len() as int));
}

/// The keys of the values in the slots below `n`.
pub open spec fn stored_below<V>(slots: Seq<Slot<V>>, n: int) -> Set<KeyView> {
    Set::new(
        |key: KeyView|
            key.idx < n && slots[key.idx as int].ref_count > 0 && key.version == stored_version(
                slots[key.idx as int].version,
            ),
    )
}

/// There are as many stored values as slots that hold one.
#[verifier::rlimit(50)]
proof fn lemma_stored_below<V>(slots: Seq<Slot<V>>, n: int)
    requires
        0 <= n <= slots.len() <= u32::MAX,
    ensures
        stored_below(slots, n).finite(),
        stored_below(slots, n).len() == stored_count(slots.subrange(0, n)),
    decreases n,
{
    if n == 0 {
        assert(stored_below(slots, 0) =~= Set::<KeyView>::empty());
    } else {
        lemma_stored_below(slots, n - 1);
        let key = KeyView { idx: (n - 1) as u32, version: stored_version(slots[n - 1].version) };
        assert(slots.subrange(0, n) =~= slots.subrange(0, n - 1).push(slots[n - 1]));
        lemma_stored_push(slots.subrange(0, n - 1), slots[n - 1]);
        if slots[n - 1].ref_count > 0 {
            assert(stored_below(slots, n) =~= stored_below(slots, n - 1).insert(key));
        } else {
            assert(stored_below(slots, n) =~= stored_below(slots, n - 1));
        }
    }
}

/// Every slot that somebody refers to stores one value: no more values than slots are stored, and as
/// many if no slot is free.
pub proof fn lemma_stored_len<V>(s: State<V>)
    requires
        s.settled(),
    ensures
        s.stored().dom().finite(),
        s.stored().dom().len() == stored_count(s.slots),
        s.stored().dom().len() <= s.slots.len(),
        s.free.len() == 0 ==> s.stored().dom().len() == s.slots.len(),
{
    lemma_stored_below(s.slots, s.slots.len() as int);
    assert(s.slots.subrange(0, s.slots.len() as int) =~= s.slots);
    assert(s.stored().dom() =~= stored_below(s.slots, s.slots.len() as int));
    lemma_stored_bound(s.slots);
    if s.free.len() == 0 {
        assert forall|i: int| 0 <= i < s.slots.len() implies (
        #[trigger] s.slots[i]).ref_count > 0 by {
            assert(s.slot_ok(i));
        }
    }
}

/// The slots below `n` that nobody refers to.
spec fn unreferenced_below<V>(slots: Seq<Slot<V>>, n: int) -> Set<u32> {
    Set::new(|i: u32| i < n && slots[i as int].ref_count == 0)
}

/// The slots that nobody refers to are those that do not count.
proof fn lemma_unreferenced_below<V>(slots: Seq<Slot<V>>, n: int)
    requires
        0 <= n <= slots.len() <= u32::MAX,
    ensures
        unreferenced_below(slots, n).finite(),
        unreferenced_below(slots, n).len() + stored_count(slots.subrange(0, n)) == n,
    decreases n,
{
    if n == 0 {
        assert(unreferenced_below(slots, 0) =~= Set::<u32>::empty());
    } else {
        lemma_unreferenced_below(slots, n - 1);
        assert(slots.subrange(0, n) =~= slots.subrange(0, n - 1).push(slots[n - 1]));
        lemma_stored_push(slots.subrange(0, n - 1), slots[n - 1]);
        if slots[n - 1].ref_count > 0 {
            assert(unreferenced_below(slots, n) =~= unreferenced_below(slots, n - 1));
        } else {
            assert(unreferenced_below(slots, n) =~= unreferenced_below(slots, n - 1).insert(
                (n - 1) as u32,
            ));
        }
    }
}

/// Every slot is free or stores a value, and none does both.
pub proof fn lemma_free_or_stored<V>(s: State<V>)
    requires
        s.settled(),
    ensures
        s.free.len() + s.stored().dom().len() == s.slots.len(),
{
    let n = s.slots.len() as int;
    lemma_stored_len(s);
    lemma_unreferenced_below(s.slots, n);
    assert(s.slots.subrange(0, n) =~= s.slots);
    assert forall|i: u32| #[trigger] unreferenced_below(s.slots, n).contains(i)
        == s.free.to_set().contains(i) by {
        if i < n {
            assert(s.slot_ok(i as int));
        }
        if s.free.contains(i) {
            let j = choose|j: int| 0 <= j < s.free.len() && s.free[j] == i;
            assert(s.free[j] < s.slots.len());
        }
    }
    assert(unreferenced_below(s.slots, n) =~= s.free.to_set());
    s.free.unique_seq_to_set();
}

/// The keys in the map are among those whose values are stored.
pub proof fn lemma_live_within_stored<V>(s: State<V>)
    requires
        s.settled(),
    ensures
        s.live().dom().subset_of(s.stored().dom()),
        s.num_elems <= s.stored().dom().len(),
{
    assert forall|key: KeyView| #[trigger] s.live().dom().contains(key) implies s.stored()
        .dom().contains(key) by {
        assert(s.slot_ok(key.idx as int));
        assert(s.stores(key));
    }
    lemma_live_len(s);
    lemma_stored_len(s);
    lemma_len_subset(s.live().dom(), s.stored().dom());
}

} // verus!
