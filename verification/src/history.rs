//! Operations one after the other, and what holds from the first to the last of them.
#[allow(unused_imports)]
use crate::chunks::{lemma_pushed_capacity, reservable, reserved};
#[allow(unused_imports)]
use crate::location::lemma_chunk_of;
#[allow(unused_imports)]
use crate::settled::{
    lemma_inserted, lemma_live_len, lemma_referenced, lemma_refused, lemma_released, lemma_removed,
    lemma_reserved, lemma_same_slots, lemma_stored_len,
};
#[allow(unused_imports)]
use crate::slot::lemma_sum_of_advances;
#[allow(unused_imports)]
use crate::state::State;
#[allow(unused_imports)]
use crate::util::KeyView;
#[allow(unused_imports)]
use vstd::prelude::*;

verus! {

/// An operation of a caller with exclusive access.
pub enum Operation<V> {
    /// Inserts a value.
    Insert { value: V },
    /// Begins an insertion, and refuses to give the value.
    Refuse,
    /// Removes a key.
    Remove { key: KeyView },
    /// Looks a key up, and keeps the guard.
    Get { key: KeyView },
    /// Clones a guard of a key.
    Clone { key: KeyView },
    /// Gives back a guard of a key.
    Release { key: KeyView },
    /// Makes room.
    Reserve { additional: nat },
}

impl<V> State<V> {
    /// Whether an operation can be done.
    pub open spec fn permits(self, op: Operation<V>) -> bool {
        match op {
            Operation::Insert { value: _ } => !self.full(),
            Operation::Refuse => !self.full(),
            Operation::Remove { key: _ } => true,
            Operation::Get { key } => self.may_acquire(key),
            Operation::Clone { key } => self.guards(key) > 0 && self.may_acquire(key),
            Operation::Release { key } => self.guards(key) > 0,
            Operation::Reserve { additional } => reservable(0, self.target_len(additional)),
        }
    }

    /// What an operation leaves behind.
    pub open spec fn after(self, op: Operation<V>) -> Self {
        match op {
            Operation::Insert { value } => self.inserted(value),
            Operation::Refuse => self.refused(),
            Operation::Remove { key } => self.removed(key),
            Operation::Get { key } => self.acquired(key),
            Operation::Clone { key } => self.referenced(key.idx),
            Operation::Release { key } => self.dereferenced(key.idx),
            Operation::Reserve { additional } => State {
                present: reserved(self.present, 0, self.target_len(additional)),
                ..self
            },
        }
    }

    /// What a row of operations leaves behind.
    pub open spec fn after_all(self, ops: Seq<Operation<V>>) -> Self
        decreases ops.len(),
    {
        if ops.len() == 0 {
            self
        } else {
            self.after_all(ops.drop_last()).after(ops.last())
        }
    }

    /// Whether a row of operations can be done.
    pub open spec fn permits_all(self, ops: Seq<Operation<V>>) -> bool
        decreases ops.len(),
    {
        ops.len() > 0 ==> self.permits_all(ops.drop_last()) && self.after_all(
            ops.drop_last(),
        ).permits(ops.last())
    }
}

/// Every operation leads from a settled state to a settled state. A key stays in the map, with its
/// value, unless the operation removes it. A value stays stored while it has a guard, and only
/// giving one back takes a guard away.
#[verifier::rlimit(50)]
pub proof fn lemma_after<V>(s: State<V>, op: Operation<V>, key: KeyView)
    requires
        s.settled(),
        s.permits(op),
    ensures
        s.after(op).settled(),
        s.live().contains_key(key) && op != (Operation::<V>::Remove { key }) ==> s.after(
            op,
        ).live().contains_key(key) && s.after(op).live()[key] == s.live()[key],
        s.after(op).guards(key) >= s.guards(key) - (if op == (Operation::<V>::Release { key }) {
            1int
        } else {
            0int
        }),
        s.guards(key) > 0 && s.after(op).guards(key) > 0 ==> s.stored().contains_key(key)
            && s.after(op).stored().contains_key(key) && s.after(op).stored()[key]
            == s.stored()[key],
{
    match op {
        Operation::Insert { value } => lemma_inserted(s, value),
        Operation::Refuse => lemma_refused(s),
        Operation::Remove { key: k } => lemma_removed(s, k),
        Operation::Get { key: k } => {
            if s.contains(k) {
                assert(s.slot_ok(k.idx as int));
                assert(s.stores(k));
                lemma_referenced(s, k);
            }
        },
        Operation::Clone { key: k } => {
            lemma_referenced(s, k);
        },
        Operation::Release { key: k } => {
            lemma_released(s, k);
        },
        Operation::Reserve { additional } => {
            if s.target_len(additional) > 0 {
                lemma_chunk_of(s.target_len(additional) - 1);
            }
            lemma_reserved(s, s.target_len(additional));
            lemma_same_slots(s, s.after(op));
        },
    }
    if s.guards(key) > 0 {
        assert(s.stores(key));
        assert(s.stored().contains_key(key));
    }
}

/// A row of operations leads from a settled state to a settled state.
pub proof fn lemma_after_all<V>(s: State<V>, ops: Seq<Operation<V>>)
    requires
        s.settled(),
        s.permits_all(ops),
    ensures
        s.after_all(ops).settled(),
    decreases ops.len(),
{
    if ops.len() > 0 {
        lemma_after_all(s, ops.drop_last());
        lemma_after(s.after_all(ops.drop_last()), ops.last(), KeyView { idx: 0, version: 1 });
    }
}

/// A value that was inserted is found under its key until the key is removed, whatever else is done.
#[verifier::rlimit(50)]
pub proof fn lemma_value_stays_until_removed<V>(s: State<V>, ops: Seq<Operation<V>>, key: KeyView)
    requires
        s.settled(),
        s.permits_all(ops),
        s.live().contains_key(key),
        !ops.contains(Operation::Remove { key }),
    ensures
        s.after_all(ops).live().contains_key(key),
        s.after_all(ops).live()[key] == s.live()[key],
    decreases ops.len(),
{
    if ops.len() > 0 {
        let rest = ops.drop_last();
        assert(!rest.contains(Operation::Remove { key })) by {
            if rest.contains(Operation::Remove { key }) {
                let i = choose|i: int|
                    0 <= i < rest.len() && rest[i] == (Operation::<V>::Remove { key });
                assert(ops[i] == (Operation::<V>::Remove { key }));
            }
        }
        assert(ops[ops.len() - 1] == ops.last());
        lemma_value_stays_until_removed(s, rest, key);
        lemma_after_all(s, rest);
        lemma_after(s.after_all(rest), ops.last(), key);
    }
}

/// How often a guard of a key is given back.
pub open spec fn releases_of<V>(ops: Seq<Operation<V>>, key: KeyView) -> nat
    decreases ops.len(),
{
    if ops.len() == 0 {
        0
    } else {
        releases_of(ops.drop_last(), key) + (if ops.last() == (Operation::<V>::Release { key }) {
            1nat
        } else {
            0nat
        })
    }
}

/// A value that has a guard stays, whatever else is done, the removal of its key included.
#[verifier::rlimit(50)]
pub proof fn lemma_value_stays_while_guarded<V>(
    s: State<V>,
    ops: Seq<Operation<V>>,
    key: KeyView,
)
    requires
        s.settled(),
        s.permits_all(ops),
        s.guards(key) > releases_of(ops, key),
    ensures
        s.after_all(ops).guards(key) >= s.guards(key) - releases_of(ops, key),
        s.stored().contains_key(key),
        s.after_all(ops).stored().contains_key(key),
        s.after_all(ops).stored()[key] == s.stored()[key],
    decreases ops.len(),
{
    assert(s.stores(key));
    assert(s.stored().contains_key(key));
    if ops.len() > 0 {
        let rest = ops.drop_last();
        lemma_value_stays_while_guarded(s, rest, key);
        lemma_after_all(s, rest);
        lemma_after(s.after_all(rest), ops.last(), key);
    }
}

/// By how much a row of operations advances the version of slot `i`.
pub open spec fn version_advances<V>(s: State<V>, ops: Seq<Operation<V>>, i: int) -> int
    decreases ops.len(),
{
    if ops.len() == 0 {
        0
    } else {
        let before = s.after_all(ops.drop_last());
        version_advances(s, ops.drop_last(), i) + (if before.after(ops.last()).slots[i].version
            != before.slots[i].version {
            1int
        } else {
            0int
        })
    }
}

/// An operation advances a version by one if it changes it, and no slot goes away.
#[verifier::rlimit(50)]
proof fn lemma_version_advance<V>(s: State<V>, op: Operation<V>, i: int)
    requires
        s.settled(),
        s.permits(op),
        0 <= i < s.slots.len(),
    ensures
        i < s.after(op).slots.len(),
        s.after(op).slots[i].version != s.slots[i].version ==> s.after(op).slots[i].version == (
        s.slots[i].version + 1) % 0x1_0000_0000,
{
    match op {
        Operation::Insert { value: _ } => {
            if s.free.len() > 0 {
                assert(s.free.contains(s.free[0]));
                assert(s.slot_ok(s.free[0] as int));
            }
        },
        _ => {},
    }
}

/// A row of operations advances a version by no more than its length.
#[verifier::rlimit(50)]
proof fn lemma_version_advances<V>(s: State<V>, ops: Seq<Operation<V>>, i: int)
    requires
        s.settled(),
        s.permits_all(ops),
        0 <= i < s.slots.len(),
    ensures
        i < s.after_all(ops).slots.len(),
        0 <= version_advances(s, ops, i) <= ops.len(),
        s.after_all(ops).slots[i].version == (s.slots[i].version + version_advances(s, ops, i))
            % 0x1_0000_0000,
    decreases ops.len(),
{
    if ops.len() > 0 {
        let rest = ops.drop_last();
        lemma_version_advances(s, rest, i);
        lemma_after_all(s, rest);
        lemma_version_advance(s.after_all(rest), ops.last(), i);
        lemma_sum_of_advances(
            s.slots[i].version,
            version_advances(s, rest, i),
            s.after_all(rest).slots[i].version,
            version_advances(s, ops, i) - version_advances(s, rest, i),
            s.after_all(ops).slots[i].version,
        );
    }
}

/// A key that was in the map and is not any more does not come back, as long as the version of its slot
/// does not go all the way round: that takes 2^31 removals from this one slot. The number of other
/// operations does not matter.
#[verifier::rlimit(50)]
pub proof fn lemma_removed_key_stays_out<V>(
    s: State<V>,
    first: Seq<Operation<V>>,
    second: Seq<Operation<V>>,
    key: KeyView,
)
    requires
        s.settled(),
        s.permits_all(first),
        s.after_all(first).permits_all(second),
        version_advances(s, first, key.idx as int) + version_advances(
            s.after_all(first),
            second,
            key.idx as int,
        ) < 0x1_0000_0000,
        s.live().contains_key(key),
        !s.after_all(first).live().contains_key(key),
    ensures
        !s.after_all(first).after_all(second).live().contains_key(key),
{
    let i = key.idx as int;
    lemma_after_all(s, first);
    lemma_version_advances(s, first, i);
    lemma_version_advances(s.after_all(first), second, i);
    assert(version_advances(s, first, i) > 0);
    let last = s.after_all(first).after_all(second).slots[i].version;
    lemma_sum_of_advances(
        key.version,
        version_advances(s, first, i),
        s.after_all(first).slots[i].version,
        version_advances(s.after_all(first), second, i),
        last,
    );
    assert(last != key.version);
}

/// Keys are unique: an insertion does not give a key that was in the map before, as long as the version
/// of its slot does not go all the way round.
#[verifier::rlimit(50)]
pub proof fn lemma_inserted_key_is_unique<V>(
    s: State<V>,
    ops: Seq<Operation<V>>,
    key: KeyView,
    value: V,
)
    requires
        s.settled(),
        s.permits_all(ops),
        !s.after_all(ops).full(),
        version_advances(s, ops, key.idx as int) + 1 < 0x1_0000_0000,
        s.live().contains_key(key),
    ensures
        s.after_all(ops).next_key() != key,
{
    let n = s.after_all(ops);
    lemma_after_all(s, ops);
    lemma_inserted(n, value);
    if n.next_key() == key {
        let second = seq![Operation::Insert { value }];
        assert(second.drop_last() =~= Seq::<Operation<V>>::empty());
        reveal_with_fuel(State::after_all, 2);
        reveal_with_fuel(State::permits_all, 2);
        reveal_with_fuel(version_advances, 2);
        assert(n.after_all(second) == n.inserted(value));
        lemma_removed_key_stays_out(s, ops, second, key);
        assert(n.inserted(value).live().contains_key(key));
    }
}

/// What an operation does to the keys in the map and to their number: an insertion adds its key, a removal
/// takes its key out if it is there, and no other operation does anything to either.
#[verifier::rlimit(50)]
proof fn lemma_after_keys<V>(s: State<V>, op: Operation<V>, key: KeyView)
    requires
        s.settled(),
        s.permits(op),
    ensures
        s.after(op).live().contains_key(key) == (op is Insert && s.next_key() == key
            || s.live().contains_key(key) && op != (Operation::<V>::Remove { key })),
        s.after(op).num_elems == s.num_elems + added(op) - taken(s, op),
{
    lemma_after(s, op, key);
    lemma_live_len(s);
    lemma_live_len(s.after(op));
    match op {
        Operation::Insert { value } => {
            lemma_inserted(s, value);
        },
        Operation::Refuse => {
            lemma_refused(s);
        },
        Operation::Remove { key: k } => {
            lemma_removed(s, k);
            if !s.live().contains_key(k) {
                assert(s.after(op).live() =~= s.live());
            }
        },
        Operation::Get { key: k } => {
            if s.contains(k) {
                assert(s.slot_ok(k.idx as int));
                assert(s.stores(k));
                lemma_referenced(s, k);
            }
        },
        Operation::Clone { key: k } => {
            lemma_referenced(s, k);
        },
        Operation::Release { key: k } => {
            lemma_released(s, k);
        },
        Operation::Reserve { additional: _ } => {
            lemma_same_slots(s, s.after(op));
        },
    }
}

/// Whether operation `i` of a row inserts a value under a key.
pub open spec fn inserts_at<V>(s: State<V>, ops: Seq<Operation<V>>, key: KeyView, i: int) -> bool {
    ops[i] is Insert && s.after_all(ops.take(i)).next_key() == key
}

/// Whether no operation of a row from the `i`th on removes a key.
pub open spec fn kept_from<V>(ops: Seq<Operation<V>>, key: KeyView, i: int) -> bool {
    forall|j: int| i <= j < ops.len() ==> #[trigger] ops[j] != (Operation::<V>::Remove { key })
}

/// A key is contained exactly if it was inserted and was not removed since.
#[verifier::rlimit(50)]
pub proof fn lemma_contained_iff_inserted_and_not_removed<V>(
    s: State<V>,
    ops: Seq<Operation<V>>,
    key: KeyView,
)
    requires
        s.settled(),
        s.permits_all(ops),
    ensures
        s.after_all(ops).live().contains_key(key) == (s.live().contains_key(key) && kept_from(
            ops,
            key,
            0,
        ) || exists|i: int|
            0 <= i < ops.len() && #[trigger] inserts_at(s, ops, key, i) && kept_from(
                ops,
                key,
                i + 1,
            )),
    decreases ops.len(),
{
    if ops.len() > 0 {
        let rest = ops.drop_last();
        let last = ops.len() - 1;
        let before = s.after_all(rest);
        lemma_contained_iff_inserted_and_not_removed(s, rest, key);
        lemma_after_all(s, rest);
        lemma_after_keys(before, ops.last(), key);
        assert(ops.take(last) =~= rest);
        assert(inserts_at(s, ops, key, last) == (ops.last() is Insert && before.next_key() == key));
        assert forall|i: int| 0 <= i < last implies #[trigger] inserts_at(s, ops, key, i)
            == inserts_at(s, rest, key, i) by {
            assert(ops.take(i) =~= rest.take(i));
        }
        assert forall|i: int| 0 <= i <= last implies #[trigger] kept_from(ops, key, i) == (kept_from(
            rest,
            key,
            i,
        ) && ops.last() != (Operation::<V>::Remove { key })) by {
            assert(ops[last] == ops.last());
            assert forall|j: int| i <= j < rest.len() implies rest[j] == #[trigger] ops[j] by {}
            if kept_from(ops, key, i) {
                assert forall|j: int| i <= j < rest.len() implies #[trigger] rest[j] != (
                Operation::<V>::Remove { key }) by {
                    assert(ops[j] != (Operation::<V>::Remove { key }));
                }
            }
        }
        if exists|i: int|
            0 <= i < rest.len() && #[trigger] inserts_at(s, rest, key, i) && kept_from(
                rest,
                key,
                i + 1,
            ) {
            let i = choose|i: int|
                0 <= i < rest.len() && #[trigger] inserts_at(s, rest, key, i) && kept_from(
                    rest,
                    key,
                    i + 1,
                );
            assert(inserts_at(s, ops, key, i));
            assert(kept_from(ops, key, i + 1) == (kept_from(rest, key, i + 1) && ops.last() != (
            Operation::<V>::Remove { key })));
        }
        if exists|i: int|
            0 <= i < ops.len() && #[trigger] inserts_at(s, ops, key, i) && kept_from(
                ops,
                key,
                i + 1,
            ) {
            let i = choose|i: int|
                0 <= i < ops.len() && #[trigger] inserts_at(s, ops, key, i) && kept_from(
                    ops,
                    key,
                    i + 1,
                );
            if i < last {
                assert(inserts_at(s, rest, key, i));
                assert(kept_from(ops, key, i + 1) == (kept_from(rest, key, i + 1) && ops.last() != (
                Operation::<V>::Remove { key })));
            }
        }
        if ops.last() is Insert && before.next_key() == key {
            assert(inserts_at(s, ops, key, last) && kept_from(ops, key, last + 1));
        }
    }
}

/// How many elements an operation adds.
pub open spec fn added<V>(op: Operation<V>) -> int {
    if op is Insert {
        1
    } else {
        0
    }
}

/// How many elements an operation takes out: a removal takes one if its key is in the map.
pub open spec fn taken<V>(s: State<V>, op: Operation<V>) -> int {
    match op {
        Operation::Remove { key } => if s.live().contains_key(key) {
            1
        } else {
            0
        },
        _ => 0,
    }
}

/// How many insertions there are in a row of operations.
pub open spec fn insertions_in<V>(ops: Seq<Operation<V>>) -> int
    decreases ops.len(),
{
    if ops.len() == 0 {
        0
    } else {
        insertions_in(ops.drop_last()) + added(ops.last())
    }
}

/// How many removals in a row of operations find their key.
pub open spec fn removals_in<V>(s: State<V>, ops: Seq<Operation<V>>) -> int
    decreases ops.len(),
{
    if ops.len() == 0 {
        0
    } else {
        removals_in(s, ops.drop_last()) + taken(s.after_all(ops.drop_last()), ops.last())
    }
}

/// The number of elements is the number of insertions less the number of removals that found their key.
pub proof fn lemma_len_is_insertions_less_removals<V>(s: State<V>, ops: Seq<Operation<V>>)
    requires
        s.settled(),
        s.permits_all(ops),
    ensures
        s.after_all(ops).num_elems == s.num_elems + insertions_in(ops) - removals_in(s, ops),
        s.after_all(ops).live().dom().len() == s.after_all(ops).num_elems,
    decreases ops.len(),
{
    lemma_after_all(s, ops);
    lemma_live_len(s.after_all(ops));
    if ops.len() > 0 {
        let rest = ops.drop_last();
        lemma_len_is_insertions_less_removals(s, rest);
        lemma_after_all(s, rest);
        lemma_after_keys(s.after_all(rest), ops.last(), KeyView { idx: 0, version: 1 });
    }
}

/// Whether a row of operations asks for no room, and no insertion in it begins with as many values stored
/// as there is room for.
pub open spec fn within<V>(s: State<V>, ops: Seq<Operation<V>>, room: nat) -> bool
    decreases ops.len(),
{
    ops.len() > 0 ==> {
        let stored = s.after_all(ops.drop_last()).stored().dom().len();
        &&& within(s, ops.drop_last(), room)
        &&& !(ops.last() is Reserve)
        &&& ops.last() is Insert || ops.last() is Refuse ==> stored < room
    }
}

/// The capacity stays the same over insertions, removals and lookups, as long as no more values are stored
/// than it is for: the slots of removed values are used again.
#[verifier::rlimit(50)]
pub proof fn lemma_capacity_stays<V>(s: State<V>, ops: Seq<Operation<V>>)
    requires
        s.settled(),
        s.permits_all(ops),
        within(s, ops, s.capacity()),
    ensures
        s.after_all(ops).capacity() == s.capacity(),
    decreases ops.len(),
{
    if ops.len() > 0 {
        let rest = ops.drop_last();
        let before = s.after_all(rest);
        lemma_capacity_stays(s, rest);
        lemma_after_all(s, rest);
        lemma_stored_len(before);
        if before.free.len() == 0 && before.slots.len() < before.capacity() {
            lemma_pushed_capacity(before.present, before.slots.len());
        }
    }
}

} // verus!
