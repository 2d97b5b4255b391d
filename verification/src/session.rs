//! A workload on a map as a mathematical value: what it knows of the map, what each of its
//! operations does, and that everything it checks holds.
#[allow(unused_imports)]
use crate::chunks::{lemma_chunk_addressable, reservable, reserved};
#[allow(unused_imports)]
use crate::fuzz::{lemma_value, Constructor, Index, Op, Value};
#[allow(unused_imports)]
use crate::location::lemma_chunk_of;
#[allow(unused_imports)]
use crate::map::no_chunks;
#[allow(unused_imports)]
use crate::settled::{
    lemma_inserted, lemma_referenced, lemma_released, lemma_removed, lemma_reserved,
    lemma_same_slots, lemma_stored_len,
};
#[allow(unused_imports)]
use crate::state::State;
#[allow(unused_imports)]
use crate::util::{odd_version_of, KeyView};
#[allow(unused_imports)]
use vstd::prelude::*;

verus! {

/// A key and the value that is expected under it.
#[verifier::ext_equal]
pub struct Info {
    pub key: KeyView,
    pub value: u32,
}

/// No more operations than this: a map cannot have a slot with the index of a forged key.
pub const MAX_OPS: u32 = 0x7000_0000;

/// How many of the entries have a key.
pub open spec fn holds(infos: Seq<Info>, key: KeyView) -> nat
    decreases infos.len(),
{
    if infos.len() == 0 {
        0
    } else {
        holds(infos.drop_last(), key) + (if infos.last().key == key {
            1nat
        } else {
            0nat
        })
    }
}

/// The key that a forging operation makes up.
pub open spec fn forged(raw: usize) -> KeyView {
    KeyView {
        idx: (0x7000_0000 + raw % 10000) as u32,
        version: odd_version_of((raw as int % 0x1_0000_0000) as u32),
    }
}

/// What the other workers know and hold.
pub struct Rest {
    /// The keys that only one of them knows.
    pub known: Set<Info>,
    /// The keys of the guards that they hold.
    pub kept: Set<Info>,
    /// How many guards of a key they hold.
    pub held: spec_fn(KeyView) -> nat,
    /// The keys that they removed.
    pub graves: Set<KeyView>,
}

/// A map, and what one worker and all workers together know of it.
#[verifier::ext_equal]
pub struct Session {
    /// The map.
    pub map: State<Value>,
    /// The keys that all workers know.
    pub shared: Seq<Info>,
    /// The keys that only this worker knows.
    pub private: Seq<Info>,
    /// The keys of the guards that this worker holds.
    pub retained: Seq<Info>,
    /// The keys of the clonable guards that this worker holds.
    pub owning: Seq<Info>,
    /// The keys that this worker removed.
    pub graveyard: Seq<Info>,
}

impl Session {
    /// The list that an index means.
    pub open spec fn keys(self, index: Index) -> Seq<Info> {
        match index {
            Index::Shared(_) => self.shared,
            Index::Private(_) => self.private,
        }
    }

    /// The place that an index means, if the list is not empty.
    pub open spec fn place(self, index: Index) -> int {
        let raw = match index {
            Index::Shared(i) => i,
            Index::Private(i) => i,
        };
        raw as int % self.keys(index).len() as int
    }

    /// The entry that an index means, if the list is not empty.
    pub open spec fn chosen(self, index: Index) -> Info {
        self.keys(index)[self.place(index)]
    }

    /// The lists without the entry that an index means.
    pub open spec fn without(self, index: Index) -> Self {
        match index {
            Index::Shared(_) => Session { shared: self.shared.remove(self.place(index)), ..self },
            Index::Private(_) => Session {
                private: self.private.remove(self.place(index)),
                ..self
            },
        }
    }

    /// Whether the map has a key with the expected value.
    pub open spec fn finds(self, info: Info) -> bool {
        self.map.contains(info.key) && self.map.value_at(info.key).number() == info.value
    }

    /// Whether the map stores the expected value under a key, in the map or for a guard.
    pub open spec fn reads(self, info: Info) -> bool {
        self.map.stores(info.key) && self.map.value_at(info.key).number() == info.value
    }

    /// What an operation leaves behind.
    pub open spec fn applied(self, op: Op) -> Self {
        match op {
            Op::Reserve(additional) => Session {
                map: State {
                    present: reserved(
                        self.map.present,
                        0,
                        self.map.target_len(additional as nat),
                    ),
                    ..self.map
                },
                ..self
            },
            Op::Insert(value) => self.inserting(value),
            Op::InsertWithKey(value) => self.inserting(value),
            Op::Publish(i) => if self.private.len() == 0 {
                self
            } else {
                let at = i as int % self.private.len() as int;
                Session {
                    private: self.private.remove(at),
                    shared: self.shared.push(self.private[at]),
                    ..self
                }
            },
            Op::Remove(index) => if self.keys(index).len() == 0 {
                self
            } else {
                Session {
                    map: self.map.removed(self.chosen(index).key),
                    ..self.without(index)
                }
            },
            Op::RemoveToGraveyard(index, _) => if self.keys(index).len() == 0 {
                self
            } else {
                Session {
                    map: self.map.removed(self.chosen(index).key),
                    graveyard: self.graveyard.push(self.chosen(index)),
                    ..self.without(index)
                }
            },
            Op::AddRetained(index) => if self.keys(index).len() == 0 || !self.map.contains(
                self.chosen(index).key,
            ) {
                self
            } else {
                Session {
                    map: self.map.acquired(self.chosen(index).key),
                    retained: self.retained.push(self.chosen(index)),
                    ..self
                }
            },
            Op::RemoveRetained(i) => if self.retained.len() == 0 {
                self
            } else {
                let at = i as int % self.retained.len() as int;
                Session {
                    map: self.map.dereferenced(self.retained[at].key.idx),
                    retained: self.retained.remove(at),
                    ..self
                }
            },
            Op::AddRetainedArc(index) => if self.keys(index).len() == 0 || !self.map.contains(
                self.chosen(index).key,
            ) {
                self
            } else {
                Session {
                    map: self.map.acquired(self.chosen(index).key),
                    owning: self.owning.push(self.chosen(index)),
                    ..self
                }
            },
            Op::RemoveRetainedArc(i) => if self.owning.len() == 0 {
                self
            } else {
                let at = i as int % self.owning.len() as int;
                Session {
                    map: self.map.dereferenced(self.owning[at].key.idx),
                    owning: self.owning.remove(at),
                    ..self
                }
            },
            // The others only look.
            _ => self,
        }
    }

    /// An insertion, whose key the worker keeps.
    pub open spec fn inserting(self, value: u32) -> Self {
        Session {
            map: self.map.inserted(Value::of(value)),
            private: self.private.push(Info { key: self.map.next_key(), value }),
            ..self
        }
    }

    /// Whether everything that an operation checks holds.
    pub open spec fn passes(self, op: Op) -> bool {
        match op {
            Op::Remove(index) => self.keys(index).len() > 0 ==> self.map.contains(
                self.chosen(index).key,
            ),
            Op::RemoveToGraveyard(index, _) => self.keys(index).len() > 0 ==> self.map.contains(
                self.chosen(index).key,
            ),
            Op::Retrieve(index) => self.keys(index).len() > 0 ==> self.finds(self.chosen(index)),
            Op::AddRetained(index) => self.keys(index).len() > 0 ==> self.finds(
                self.chosen(index),
            ),
            Op::ReadRetained(i) => self.retained.len() > 0 ==> self.reads(
                self.retained[i as int % self.retained.len() as int],
            ),
            Op::RemoveRetained(i) => self.retained.len() > 0 ==> self.reads(
                self.retained[i as int % self.retained.len() as int],
            ),
            Op::AddRetainedArc(index) => self.keys(index).len() > 0 ==> self.finds(
                self.chosen(index),
            ),
            Op::ReadRetainedArc(i) => self.owning.len() > 0 ==> self.reads(
                self.owning[i as int % self.owning.len() as int],
            ),
            Op::RemoveRetainedArc(i) => self.owning.len() > 0 ==> self.reads(
                self.owning[i as int % self.owning.len() as int],
            ),
            Op::CheckGraveyard(i) => self.graveyard.len() > 0 ==> !self.map.contains(
                self.graveyard[i as int % self.graveyard.len() as int].key,
            ),
            Op::RetrieveForged(raw) => !self.map.contains(forged(raw)),
            _ => true,
        }
    }

    /// Whether the limits of the machine leave room for an operation.
    pub open spec fn allows(self, op: Op) -> bool {
        match op {
            Op::Reserve(additional) => reservable(0, self.map.target_len(additional as nat)),
            Op::Insert(_) => !self.map.full(),
            Op::InsertWithKey(_) => !self.map.full(),
            Op::Retrieve(index) => self.keys(index).len() > 0 ==> self.map.may_acquire(
                self.chosen(index).key,
            ),
            Op::AddRetained(index) => self.keys(index).len() > 0 ==> self.map.may_acquire(
                self.chosen(index).key,
            ),
            Op::AddRetainedArc(index) => self.keys(index).len() > 0 ==> self.map.may_acquire(
                self.chosen(index).key,
            ),
            Op::CheckGraveyard(i) => self.graveyard.len() > 0 ==> self.map.may_acquire(
                self.graveyard[i as int % self.graveyard.len() as int].key,
            ),
            Op::RetrieveForged(raw) => self.map.may_acquire(forged(raw)),
            _ => true,
        }
    }

    /// The guards that the worker holds are counted in the map.
    pub open spec fn held(self) -> bool {
        forall|key: KeyView| #[trigger]
            self.map.guards(key) >= holds(self.retained, key) + holds(self.owning, key)
    }

    /// A key is in no list of the worker, and not shared.
    pub open spec fn absent(self, key: KeyView) -> bool {
        &&& forall|i: int| 0 <= i < self.private.len() ==> (#[trigger] self.private[i]).key != key
        &&& forall|i: int| 0 <= i < self.shared.len() ==> (#[trigger] self.shared[i]).key != key
    }

    /// What the other workers know holds.
    pub open spec fn rest_ok(self, rest: Rest) -> bool {
        &&& forall|info: Info| #[trigger]
            rest.known.contains(info) ==> self.finds(info) && self.absent(info.key)
        &&& forall|info: Info| #[trigger]
            rest.kept.contains(info) ==> self.reads(info) && (rest.held)(info.key) > 0
        &&& forall|key: KeyView| #[trigger] rest.graves.contains(key) ==> self.buried(key)
    }

    /// What holds after `n` operations: the worker, and the others with it, know what is in the map.
    #[verifier::opaque]
    pub open spec fn ok(self, rest: Rest, n: nat) -> bool {
        &&& self.rest_ok(rest)
        &&& self.map.settled()
        &&& self.map.slots.len() <= n
        &&& forall|i: int|
            0 <= i < self.map.slots.len() ==> (#[trigger] self.map.slots[i]).ref_count <= n + 1
                && self.map.slots[i].version <= 2 * n
        &&& forall|i: int| 0 <= i < self.private.len() ==> self.finds(#[trigger] self.private[i])
        &&& forall|i: int| 0 <= i < self.shared.len() ==> self.finds(#[trigger] self.shared[i])
        &&& forall|i: int, j: int|
            0 <= i < j < self.private.len() ==> (#[trigger] self.private[i]).key != (
            #[trigger] self.private[j]).key
        &&& forall|i: int, j: int|
            0 <= i < j < self.shared.len() ==> (#[trigger] self.shared[i]).key != (
            #[trigger] self.shared[j]).key
        &&& forall|i: int, j: int|
            0 <= i < self.private.len() && 0 <= j < self.shared.len() ==> (
            #[trigger] self.private[i]).key != (#[trigger] self.shared[j]).key
        &&& forall|i: int| 0 <= i < self.retained.len() ==> self.reads(#[trigger] self.retained[i])
        &&& forall|i: int| 0 <= i < self.owning.len() ==> self.reads(#[trigger] self.owning[i])
        &&& forall|key: KeyView| #[trigger]
            self.map.guards(key) == holds(self.retained, key) + holds(self.owning, key) + (
            rest.held)(key)
        &&& forall|i: int|
            0 <= i < self.graveyard.len() ==> self.buried(#[trigger] self.graveyard[i].key)
    }

    /// The slot of a key has a later version than the key.
    pub open spec fn buried(self, key: KeyView) -> bool {
        key.idx < self.map.slots.len() && key.version < self.map.slots[key.idx as int].version
    }
}

/// Whether an operation makes a value.
pub open spec fn makes_value(op: Op) -> bool {
    op is Insert || op is InsertWithKey
}

/// The keys whose values were dropped between two states.
pub open spec fn lost(before: State<Value>, after: State<Value>) -> Set<KeyView> {
    before.stored().dom().difference(after.stored().dom())
}

/// The map that a workload begins with.
pub open spec fn constructed(ctor: Constructor) -> State<Value> {
    match ctor {
        Constructor::New => State::empty(no_chunks()),
        Constructor::WithCapacity(n) => State::empty(reserved(no_chunks(), 0, n as nat)),
    }
}

/// One entry more.
pub proof fn lemma_holds_push(infos: Seq<Info>, info: Info)
    ensures
        forall|key: KeyView| #[trigger]
            holds(infos.push(info), key) == holds(infos, key) + (if info.key == key {
                1nat
            } else {
                0nat
            }),
{
    assert(infos.push(info).drop_last() =~= infos);
}

/// One entry fewer.
#[verifier::rlimit(50)]
pub proof fn lemma_holds_remove(infos: Seq<Info>, at: int)
    requires
        0 <= at < infos.len(),
    ensures
        forall|key: KeyView| #[trigger]
            holds(infos, key) == holds(infos.remove(at), key) + (if infos[at].key == key {
                1nat
            } else {
                0nat
            }),
    decreases infos.len(),
{
    let rest = infos.drop_last();
    if at == infos.len() - 1 {
        assert(infos.remove(at) =~= rest);
    } else {
        lemma_holds_remove(rest, at);
        assert(infos.remove(at) =~= rest.remove(at).push(infos.last()));
        lemma_holds_push(rest.remove(at), infos.last());
        assert forall|key: KeyView| #[trigger] holds(infos, key) == holds(infos.remove(at), key) + (
        if infos[at].key == key {
            1nat
        } else {
            0nat
        }) by {
            assert(holds(rest, key) == holds(rest.remove(at), key) + (if infos[at].key == key {
                1nat
            } else {
                0nat
            }));
        }
    }
}

/// An entry is counted.
pub proof fn lemma_holds_positive(infos: Seq<Info>, at: int)
    requires
        0 <= at < infos.len(),
    ensures
        holds(infos, infos[at].key) > 0,
{
    lemma_holds_remove(infos, at);
}

/// Every operation keeps the state of the map one between two operations, and the guards counted.
#[verifier::rlimit(50)]
pub proof fn lemma_applied_held(s: Session, op: Op)
    requires
        s.map.settled(),
        s.held(),
        s.allows(op),
    ensures
        s.applied(op).map.settled(),
        s.applied(op).held(),
{
    let n = s.applied(op);
    match op {
        Op::Reserve(additional) => {
            if s.map.target_len(additional as nat) > 0 {
                lemma_chunk_of(s.map.target_len(additional as nat) - 1);
            }
            lemma_reserved(s.map, s.map.target_len(additional as nat));
            lemma_same_slots(s.map, n.map);
        },
        Op::Insert(value) => {
            lemma_inserted(s.map, Value::of(value));
        },
        Op::InsertWithKey(value) => {
            lemma_inserted(s.map, Value::of(value));
        },
        Op::Remove(index) => {
            lemma_removed(s.map, s.chosen(index).key);
        },
        Op::RemoveToGraveyard(index, _) => {
            lemma_removed(s.map, s.chosen(index).key);
        },
        Op::AddRetained(index) => {
            if n != s {
                assert(s.map.slot_ok(s.chosen(index).key.idx as int));
                lemma_referenced(s.map, s.chosen(index).key);
                lemma_holds_push(s.retained, s.chosen(index));
            }
        },
        Op::AddRetainedArc(index) => {
            if n != s {
                assert(s.map.slot_ok(s.chosen(index).key.idx as int));
                lemma_referenced(s.map, s.chosen(index).key);
                lemma_holds_push(s.owning, s.chosen(index));
            }
        },
        Op::RemoveRetained(i) => {
            if s.retained.len() > 0 {
                let at = i as int % s.retained.len() as int;
                lemma_holds_remove(s.retained, at);
                lemma_released(s.map, s.retained[at].key);
            }
        },
        Op::RemoveRetainedArc(i) => {
            if s.owning.len() > 0 {
                let at = i as int % s.owning.len() as int;
                lemma_holds_remove(s.owning, at);
                lemma_released(s.map, s.owning[at].key);
            }
        },
        _ => {},
    }
}

/// What is lost where one value at most is added or dropped.
proof fn lemma_lost(before: State<Value>, after: State<Value>, key: KeyView)
    requires
        before.stored().dom().finite(),
    ensures
        after.stored().dom() == before.stored().dom() ==> lost(before, after).len() == 0,
        after.stored().dom() == before.stored().dom().insert(key) ==> lost(before, after).len()
            == 0,
        before.stored().dom().contains(key) && after.stored().dom()
            == before.stored().dom().remove(key) ==> lost(before, after).len() == 1,
{
    if after.stored().dom() == before.stored().dom() || after.stored().dom()
        == before.stored().dom().insert(key) {
        assert(lost(before, after) =~= Set::<KeyView>::empty());
    }
    if before.stored().dom().contains(key) && after.stored().dom()
        == before.stored().dom().remove(key) {
        assert(lost(before, after) =~= set![key]);
    }
}

/// Every operation accounts for the values: one that makes a value adds it to those that are stored,
/// under a key that no stored value has, and what is not stored any more was dropped, once.
#[verifier::rlimit(50)]
pub proof fn lemma_applied_values(s: Session, op: Op)
    requires
        s.map.settled(),
        s.held(),
        s.allows(op),
    ensures
        lost(s.map, s.applied(op).map).len() + s.applied(op).map.stored().dom().len()
            == s.map.stored().dom().len() + (if makes_value(op) {
            1nat
        } else {
            0nat
        }),
{
    let n = s.applied(op).map;
    lemma_stored_len(s.map);
    match op {
        Op::Reserve(_) => {
            lemma_same_slots(s.map, n);
            lemma_lost(s.map, n, arbitrary());
        },
        Op::Insert(value) => {
            lemma_inserted(s.map, Value::of(value));
            assert(!s.map.stored().contains_key(s.map.next_key()));
            assert(n.stored().dom() =~= s.map.stored().dom().insert(s.map.next_key()));
            lemma_lost(s.map, n, s.map.next_key());
        },
        Op::InsertWithKey(value) => {
            lemma_inserted(s.map, Value::of(value));
            assert(!s.map.stored().contains_key(s.map.next_key()));
            assert(n.stored().dom() =~= s.map.stored().dom().insert(s.map.next_key()));
            lemma_lost(s.map, n, s.map.next_key());
        },
        Op::Remove(index) => {
            lemma_removed_values(s.map, s.chosen(index).key);
            lemma_lost(s.map, s.map, arbitrary());
        },
        Op::RemoveToGraveyard(index, _) => {
            lemma_removed_values(s.map, s.chosen(index).key);
            lemma_lost(s.map, s.map, arbitrary());
        },
        Op::AddRetained(index) => {
            if s.keys(index).len() > 0 && s.map.contains(s.chosen(index).key) {
                assert(s.map.slot_ok(s.chosen(index).key.idx as int));
                lemma_referenced(s.map, s.chosen(index).key);
            }
            lemma_lost(s.map, n, arbitrary());
        },
        Op::AddRetainedArc(index) => {
            if s.keys(index).len() > 0 && s.map.contains(s.chosen(index).key) {
                assert(s.map.slot_ok(s.chosen(index).key.idx as int));
                lemma_referenced(s.map, s.chosen(index).key);
            }
            lemma_lost(s.map, n, arbitrary());
        },
        Op::RemoveRetained(i) => {
            if s.retained.len() > 0 {
                let at = i as int % s.retained.len() as int;
                lemma_holds_positive(s.retained, at);
                lemma_released_values(s.map, s.retained[at].key);
            }
            lemma_lost(s.map, s.map, arbitrary());
        },
        Op::RemoveRetainedArc(i) => {
            if s.owning.len() > 0 {
                let at = i as int % s.owning.len() as int;
                lemma_holds_positive(s.owning, at);
                lemma_released_values(s.map, s.owning[at].key);
            }
            lemma_lost(s.map, s.map, arbitrary());
        },
        _ => {
            lemma_lost(s.map, s.map, arbitrary());
        },
    }
}

/// A removal drops one value at most.
proof fn lemma_removed_values(map: State<Value>, key: KeyView)
    requires
        map.settled(),
    ensures
        lost(map, map.removed(key)).len() + map.removed(key).stored().dom().len()
            == map.stored().dom().len(),
{
    let n = map.removed(key);
    lemma_stored_len(map);
    lemma_removed(map, key);
    if map.contains(key) && map.guards(key) == 0 {
        assert(map.slot_ok(key.idx as int));
        assert(map.stores(key));
        assert(map.stored().dom().contains(key));
        assert(n.stored().dom() =~= map.stored().dom().remove(key));
    }
    lemma_lost(map, n, key);
}

/// Giving a guard back drops one value at most.
proof fn lemma_released_values(map: State<Value>, key: KeyView)
    requires
        map.settled(),
        map.guards(key) > 0,
    ensures
        lost(map, map.dereferenced(key.idx)).len() + map.dereferenced(
            key.idx,
        ).stored().dom().len() == map.stored().dom().len(),
{
    let n = map.dereferenced(key.idx);
    lemma_stored_len(map);
    lemma_released(map, key);
    assert(map.stores(key));
    assert(map.stored().dom().contains(key));
    if !(map.contains(key) || map.guards(key) > 1) {
        assert(n.stored().dom() =~= map.stored().dom().remove(key));
    }
    lemma_lost(map, n, key);
}

/// What is known stays known after more operations.
proof fn lemma_ok_later(s: Session, rest: Rest, n: nat, m: nat)
    requires
        s.ok(rest, n),
        n <= m,
    ensures
        s.ok(rest, m),
{
    reveal(Session::ok);
}

/// A reservation: there is room for it, and what was known stays known.
proof fn lemma_reserve_ok(s: Session, rest: Rest, additional: u8, n: nat)
    requires
        s.ok(rest, n),
        n < MAX_OPS,
    ensures
        s.allows(Op::Reserve(additional)),
        s.applied(Op::Reserve(additional)).ok(rest, n + 1),
{
    reveal(Session::ok);
    let op = Op::Reserve(additional);
    let target = s.map.target_len(additional as nat);
    lemma_stored_len(s.map);
    if target > 0 {
        lemma_chunk_addressable(target - 1);
        lemma_chunk_of(target - 1);
    }
    lemma_reserved(s.map, target);
    lemma_same_slots(s.map, s.applied(op).map);
}

/// An insertion: the key is new, and what was known stays known.
#[verifier::rlimit(50)]
proof fn lemma_insert_ok(s: Session, rest: Rest, value: u32, n: nat)
    requires
        s.ok(rest, n),
        n < MAX_OPS,
    ensures
        !s.map.full(),
        s.inserting(value).ok(rest, n + 1),
{
    reveal(Session::ok);
    let r = s.inserting(value);
    let key = s.map.next_key();
    lemma_value(value);
    lemma_inserted(s.map, Value::of(value));
    if s.map.free.len() > 0 {
        assert(s.map.free[0] < s.map.slots.len());
        assert(s.map.free.contains(s.map.free[0]));
        assert(s.map.slot_ok(s.map.free[0] as int));
    }
    assert forall|i: int| 0 <= i < r.map.slots.len() implies (
    #[trigger] r.map.slots[i]).ref_count <= n + 2 && r.map.slots[i].version <= 2 * (n + 1) by {
        if i < s.map.slots.len() {
            assert(s.map.slots[i].version <= 2 * n);
        }
    }
    assert forall|k: KeyView| s.map.contains(k) implies #[trigger] r.map.contains(k)
        && r.map.value_at(k) == s.map.value_at(k) && k != key by {
        assert(s.map.live().contains_key(k));
        assert(r.map.live().contains_key(k));
        assert(r.map.live()[k] == s.map.live()[k]);
    }
    assert forall|k: KeyView| s.map.stores(k) implies #[trigger] r.map.stores(k)
        && r.map.value_at(k) == s.map.value_at(k) by {
        assert(s.map.stored().contains_key(k));
        assert(r.map.stored().contains_key(k));
        assert(r.map.stored()[k] == s.map.stored()[k]);
    }
    assert(r.map.live().contains_key(key) && r.map.live()[key] == Value::of(value));
    assert(r.finds(Info { key, value }));
    assert forall|i: int| 0 <= i < r.private.len() implies r.finds(#[trigger] r.private[i]) by {
        if i < s.private.len() {
            assert(s.finds(s.private[i]));
        }
    }
    assert forall|i: int| 0 <= i < r.shared.len() implies r.finds(#[trigger] r.shared[i]) by {
        assert(s.finds(s.shared[i]));
    }
    assert forall|i: int, j: int| 0 <= i < j < r.private.len() implies (
    #[trigger] r.private[i]).key != (#[trigger] r.private[j]).key by {
        assert(s.finds(s.private[i]));
    }
    assert forall|i: int, j: int|
        0 <= i < r.private.len() && 0 <= j < r.shared.len() implies (#[trigger] r.private[i]).key
        != (#[trigger] r.shared[j]).key by {
        assert(s.finds(s.shared[j]));
    }
    assert forall|i: int| 0 <= i < r.retained.len() implies r.reads(#[trigger] r.retained[i]) by {
        assert(s.reads(s.retained[i]));
    }
    assert forall|i: int| 0 <= i < r.owning.len() implies r.reads(#[trigger] r.owning[i]) by {
        assert(s.reads(s.owning[i]));
    }
    assert forall|i: int| 0 <= i < r.graveyard.len() implies r.buried(
        #[trigger] r.graveyard[i].key,
    ) by {
        assert(s.buried(s.graveyard[i].key));
    }
    assert forall|info: Info| #[trigger] rest.known.contains(info) implies r.finds(info)
        && r.absent(info.key) by {
        assert(s.finds(info) && s.absent(info.key));
        assert(r.map.contains(info.key));
    }
    assert forall|info: Info| #[trigger] rest.kept.contains(info) implies r.reads(info) && (
    rest.held)(info.key) > 0 by {
        assert(s.reads(info) && (rest.held)(info.key) > 0);
        assert(r.map.stores(info.key));
    }
    assert forall|key: KeyView| #[trigger] rest.graves.contains(key) implies r.buried(key) by {
        assert(s.buried(key));
    }
}

/// A removal: the key was there, and what else was known stays known.
#[verifier::rlimit(50)]
proof fn lemma_remove_ok(s: Session, rest: Rest, index: Index, n: nat)
    requires
        s.ok(rest, n),
        n < MAX_OPS,
        s.keys(index).len() > 0,
    ensures
        s.finds(s.chosen(index)),
        (Session { map: s.map.removed(s.chosen(index).key), ..s.without(index) }).ok(rest, n + 1),
        (Session { map: s.map.removed(s.chosen(index).key), ..s.without(index) }).buried(
            s.chosen(index).key,
        ),
{
    reveal(Session::ok);
    let info = s.chosen(index);
    let key = info.key;
    let at = s.place(index);
    let r = Session { map: s.map.removed(key), ..s.without(index) };
    assert(s.keys(index)[at] == info);
    assert(s.finds(info));
    lemma_removed(s.map, key);
    assert(s.map.slots[key.idx as int].version <= 2 * n);
    assert(s.map.slot_ok(key.idx as int));
    assert forall|i: int| 0 <= i < r.map.slots.len() implies (
    #[trigger] r.map.slots[i]).ref_count <= n + 2 && r.map.slots[i].version <= 2 * (n + 1) by {
        assert(s.map.slots[i].version <= 2 * n);
        if i != key.idx {
            assert(r.map.slots[i] == s.map.slots[i]);
        }
    }
    assert forall|k: KeyView| s.map.contains(k) && k != key implies #[trigger] r.map.contains(k)
        && r.map.value_at(k) == s.map.value_at(k) by {
        assert(s.map.live().contains_key(k));
        assert(r.map.live().contains_key(k));
        assert(r.map.live()[k] == s.map.live()[k]);
    }
    assert forall|k: KeyView| s.map.stores(k) && s.map.guards(k) > 0 implies #[trigger] r.map.stores(
        k,
    ) && r.map.value_at(k) == s.map.value_at(k) by {
        assert(s.map.stored().contains_key(k));
        assert(r.map.stored().contains_key(k));
        assert(r.map.stored()[k] == s.map.stored()[k]);
    }
    assert forall|i: int| 0 <= i < r.private.len() implies r.finds(#[trigger] r.private[i])
        && r.private[i].key != key && (exists|j: int|
        0 <= j < s.private.len() && r.private[i] == #[trigger] s.private[j]) by {
        let j = if index is Private && i >= at {
            i + 1
        } else {
            i
        };
        assert(r.private[i] == s.private[j]);
        assert(s.finds(s.private[j]));
    }
    assert forall|i: int| 0 <= i < r.shared.len() implies r.finds(#[trigger] r.shared[i])
        && r.shared[i].key != key && (exists|j: int|
        0 <= j < s.shared.len() && r.shared[i] == #[trigger] s.shared[j]) by {
        let j = if index is Shared && i >= at {
            i + 1
        } else {
            i
        };
        assert(r.shared[i] == s.shared[j]);
        assert(s.finds(s.shared[j]));
    }
    assert forall|i: int| 0 <= i < r.retained.len() implies r.reads(#[trigger] r.retained[i]) by {
        assert(s.reads(s.retained[i]));
        lemma_holds_positive(s.retained, i);
    }
    assert forall|i: int| 0 <= i < r.owning.len() implies r.reads(#[trigger] r.owning[i]) by {
        assert(s.reads(s.owning[i]));
        lemma_holds_positive(s.owning, i);
    }
    assert forall|i: int| 0 <= i < r.graveyard.len() implies r.buried(
        #[trigger] r.graveyard[i].key,
    ) by {
        assert(s.buried(s.graveyard[i].key));
    }
    assert forall|info: Info| #[trigger] rest.known.contains(info) implies r.finds(info)
        && r.absent(info.key) by {
        assert(s.finds(info) && s.absent(info.key));
        assert(r.map.contains(info.key));
    }
    assert forall|info: Info| #[trigger] rest.kept.contains(info) implies r.reads(info) && (
    rest.held)(info.key) > 0 by {
        assert(s.reads(info) && (rest.held)(info.key) > 0);
        assert(r.map.stores(info.key));
    }
    assert forall|key: KeyView| #[trigger] rest.graves.contains(key) implies r.buried(key) by {
        assert(s.buried(key));
    }
}

/// Taking a guard: what was known stays known.
#[verifier::rlimit(50)]
proof fn lemma_retain_ok(s: Session, rest: Rest, info: Info, n: nat, clonable: bool)
    requires
        s.ok(rest, n),
        n < MAX_OPS,
        s.finds(info),
    ensures
        s.map.may_acquire(info.key),
        clonable ==> (Session {
            map: s.map.acquired(info.key),
            owning: s.owning.push(info),
            ..s
        }).ok(rest, n + 1),
        !clonable ==> (Session {
            map: s.map.acquired(info.key),
            retained: s.retained.push(info),
            ..s
        }).ok(rest, n + 1),
{
    reveal(Session::ok);
    let key = info.key;
    let m = s.map.acquired(key);
    assert(s.map.slots[key.idx as int].ref_count <= n + 1);
    assert(s.map.slot_ok(key.idx as int));
    assert(s.map.stores(key));
    lemma_referenced(s.map, key);
    lemma_holds_push(s.retained, info);
    lemma_holds_push(s.owning, info);
    let r = if clonable {
        Session { map: m, owning: s.owning.push(info), ..s }
    } else {
        Session { map: m, retained: s.retained.push(info), ..s }
    };
    assert forall|i: int| 0 <= i < r.map.slots.len() implies (
    #[trigger] r.map.slots[i]).ref_count <= n + 2 && r.map.slots[i].version <= 2 * (n + 1) by {
        assert(s.map.slots[i].version <= 2 * n);
    }
    assert forall|i: int| 0 <= i < r.private.len() implies r.finds(#[trigger] r.private[i]) by {
        assert(s.finds(s.private[i]));
    }
    assert forall|i: int| 0 <= i < r.shared.len() implies r.finds(#[trigger] r.shared[i]) by {
        assert(s.finds(s.shared[i]));
    }
    assert forall|i: int| 0 <= i < r.retained.len() implies r.reads(#[trigger] r.retained[i]) by {
        if i < s.retained.len() {
            assert(s.reads(s.retained[i]));
        }
    }
    assert forall|i: int| 0 <= i < r.owning.len() implies r.reads(#[trigger] r.owning[i]) by {
        if i < s.owning.len() {
            assert(s.reads(s.owning[i]));
        }
    }
    assert forall|i: int| 0 <= i < r.graveyard.len() implies r.buried(
        #[trigger] r.graveyard[i].key,
    ) by {
        assert(s.buried(s.graveyard[i].key));
    }
    assert forall|info: Info| #[trigger] rest.known.contains(info) implies r.finds(info)
        && r.absent(info.key) by {
        assert(s.finds(info) && s.absent(info.key));
        assert(r.map.contains(info.key));
    }
    assert forall|info: Info| #[trigger] rest.kept.contains(info) implies r.reads(info) && (
    rest.held)(info.key) > 0 by {
        assert(s.reads(info) && (rest.held)(info.key) > 0);
        assert(r.map.stores(info.key));
    }
    assert forall|key: KeyView| #[trigger] rest.graves.contains(key) implies r.buried(key) by {
        assert(s.buried(key));
    }
}

/// The lists without one guard, which was given back.
pub open spec fn releasing(s: Session, at: int, clonable: bool) -> Session {
    if clonable {
        Session {
            map: s.map.dereferenced(s.owning[at].key.idx),
            owning: s.owning.remove(at),
            ..s
        }
    } else {
        Session {
            map: s.map.dereferenced(s.retained[at].key.idx),
            retained: s.retained.remove(at),
            ..s
        }
    }
}

/// Giving a guard back: what else was known stays known.
#[verifier::rlimit(50)]
proof fn lemma_release_ok(s: Session, rest: Rest, at: int, n: nat, clonable: bool)
    requires
        s.ok(rest, n),
        0 <= at,
        clonable ==> at < s.owning.len(),
        !clonable ==> at < s.retained.len(),
    ensures
        releasing(s, at, clonable).ok(rest, n),
{
    reveal(Session::ok);
    let info = if clonable {
        s.owning[at]
    } else {
        s.retained[at]
    };
    let key = info.key;
    let r = releasing(s, at, clonable);
    if clonable {
        lemma_holds_remove(s.owning, at);
        lemma_holds_positive(s.owning, at);
    } else {
        lemma_holds_remove(s.retained, at);
        lemma_holds_positive(s.retained, at);
    }
    lemma_released(s.map, key);
    assert(s.map.stores(key));
    assert forall|i: int| 0 <= i < r.map.slots.len() implies (
    #[trigger] r.map.slots[i]).ref_count <= n + 1 && r.map.slots[i].version <= 2 * n by {
        assert(s.map.slots[i].version <= 2 * n);
    }
    assert forall|k: KeyView| s.map.contains(k) implies #[trigger] r.map.contains(k)
        && r.map.value_at(k) == s.map.value_at(k) by {
        assert(s.map.live().contains_key(k));
        assert(r.map.live().contains_key(k));
        assert(r.map.live()[k] == s.map.live()[k]);
    }
    assert forall|k: KeyView| s.map.stores(k) && r.map.guards(k) > 0 implies #[trigger] r.map.stores(
        k,
    ) && r.map.value_at(k) == s.map.value_at(k) by {
        assert(s.map.stored().contains_key(k));
        assert(r.map.stored().contains_key(k));
        assert(r.map.stored()[k] == s.map.stored()[k]);
    }
    assert forall|i: int| 0 <= i < r.private.len() implies r.finds(#[trigger] r.private[i]) by {
        assert(s.finds(s.private[i]));
        assert(r.map.contains(s.private[i].key));
    }
    assert forall|i: int| 0 <= i < r.shared.len() implies r.finds(#[trigger] r.shared[i]) by {
        assert(s.finds(s.shared[i]));
        assert(r.map.contains(s.shared[i].key));
    }
    assert forall|i: int| 0 <= i < r.retained.len() implies r.reads(#[trigger] r.retained[i]) by {
        let j = if !clonable && i >= at {
            i + 1
        } else {
            i
        };
        assert(r.retained[i] == s.retained[j]);
        assert(s.reads(s.retained[j]));
        lemma_holds_positive(r.retained, i);
        assert(r.map.stores(s.retained[j].key));
    }
    assert forall|i: int| 0 <= i < r.owning.len() implies r.reads(#[trigger] r.owning[i]) by {
        let j = if clonable && i >= at {
            i + 1
        } else {
            i
        };
        assert(r.owning[i] == s.owning[j]);
        assert(s.reads(s.owning[j]));
        lemma_holds_positive(r.owning, i);
        assert(r.map.stores(s.owning[j].key));
    }
    assert forall|i: int| 0 <= i < r.graveyard.len() implies r.buried(
        #[trigger] r.graveyard[i].key,
    ) by {
        assert(s.buried(s.graveyard[i].key));
    }
    assert forall|info: Info| #[trigger] rest.known.contains(info) implies r.finds(info)
        && r.absent(info.key) by {
        assert(s.finds(info) && s.absent(info.key));
        assert(r.map.contains(info.key));
    }
    assert forall|info: Info| #[trigger] rest.kept.contains(info) implies r.reads(info) && (
    rest.held)(info.key) > 0 by {
        assert(s.reads(info) && (rest.held)(info.key) > 0);
        assert(r.map.stores(info.key));
    }
    assert forall|key: KeyView| #[trigger] rest.graves.contains(key) implies r.buried(key) by {
        assert(s.buried(key));
    }
}

/// Giving back the first guard: it leads to its value until the end, and what else was known stays
/// known.
#[verifier::rlimit(50)]
pub proof fn lemma_give_back_ok(s: Session, rest: Rest, n: nat, clonable: bool)
    requires
        s.ok(rest, n),
        clonable ==> s.owning.len() > 0,
        !clonable ==> s.retained.len() > 0,
    ensures
        clonable ==> s.passes(Op::RemoveRetainedArc(0)) && s.applied(Op::RemoveRetainedArc(0)).ok(
            rest,
            n,
        ),
        !clonable ==> s.passes(Op::RemoveRetained(0)) && s.applied(Op::RemoveRetained(0)).ok(
            rest,
            n,
        ),
{
    reveal(Session::ok);
    lemma_release_ok(s, rest, 0, n, clonable);
    if clonable {
        assert(0int % s.owning.len() as int == 0);
        assert(s.reads(s.owning[0]));
        assert(s.applied(Op::RemoveRetainedArc(0)) == releasing(s, 0, true));
    } else {
        assert(0int % s.retained.len() as int == 0);
        assert(s.reads(s.retained[0]));
        assert(s.applied(Op::RemoveRetained(0)) == releasing(s, 0, false));
    }
}

/// Publishing a key: what was known stays known.
#[verifier::rlimit(50)]
proof fn lemma_publish_ok(s: Session, rest: Rest, i: usize, n: nat)
    requires
        s.ok(rest, n),
    ensures
        s.applied(Op::Publish(i)).ok(rest, n + 1),
{
    reveal(Session::ok);
    let r = s.applied(Op::Publish(i));
    if s.private.len() > 0 {
        let at = i as int % s.private.len() as int;
        assert(s.finds(s.private[at]));
        assert forall|a: int| 0 <= a < r.private.len() implies r.finds(#[trigger] r.private[a])
            && r.private[a].key != s.private[at].key by {
            let b = if a >= at {
                a + 1
            } else {
                a
            };
            assert(r.private[a] == s.private[b]);
            assert(s.finds(s.private[b]));
        }
        assert forall|a: int| 0 <= a < r.shared.len() implies r.finds(#[trigger] r.shared[a]) by {
            if a < s.shared.len() {
                assert(s.finds(s.shared[a]));
            }
        }
        assert forall|a: int, b: int| 0 <= a < b < r.private.len() implies (
        #[trigger] r.private[a]).key != (#[trigger] r.private[b]).key by {
            let c = if a >= at {
                a + 1
            } else {
                a
            };
            let d = if b >= at {
                b + 1
            } else {
                b
            };
            assert(r.private[a] == s.private[c]);
            assert(r.private[b] == s.private[d]);
        }
        assert forall|a: int, b: int|
            0 <= a < r.private.len() && 0 <= b < r.shared.len() implies (
        #[trigger] r.private[a]).key != (#[trigger] r.shared[b]).key by {
            let c = if a >= at {
                a + 1
            } else {
                a
            };
            assert(r.private[a] == s.private[c]);
            if b < s.shared.len() {
                assert(s.private[c].key != s.shared[b].key);
            }
        }
        assert forall|a: int| 0 <= a < r.retained.len() implies r.reads(#[trigger] r.retained[a]) by {
            assert(s.reads(s.retained[a]));
        }
        assert forall|a: int| 0 <= a < r.owning.len() implies r.reads(#[trigger] r.owning[a]) by {
            assert(s.reads(s.owning[a]));
        }
        assert forall|a: int| 0 <= a < r.graveyard.len() implies r.buried(
            #[trigger] r.graveyard[a].key,
        ) by {
            assert(s.buried(s.graveyard[a].key));
        }
    } else {
        lemma_ok_later(s, rest, n, n + 1);
    }
}

/// Everything that an operation of a workload checks holds, and the workload knows afterwards what
/// is in the map: keys in the lists are found with their values, guards lead to theirs, and removed
/// keys and forged keys are missing.
#[verifier::rlimit(50)]
pub proof fn lemma_applied_ok(s: Session, rest: Rest, op: Op, n: nat)
    requires
        s.ok(rest, n),
        n < MAX_OPS,
    ensures
        s.allows(op),
        s.passes(op),
        s.applied(op).ok(rest, n + 1),
{
    reveal(Session::ok);
    match op {
        Op::Reserve(additional) => lemma_reserve_ok(s, rest, additional, n),
        Op::Insert(value) => lemma_insert_ok(s, rest, value, n),
        Op::InsertWithKey(value) => lemma_insert_ok(s, rest, value, n),
        Op::Publish(i) => lemma_publish_ok(s, rest, i, n),
        Op::Remove(index) => {
            if s.keys(index).len() > 0 {
                lemma_remove_ok(s, rest, index, n);
            } else {
                lemma_ok_later(s, rest, n, n + 1);
            }
        },
        Op::RemoveToGraveyard(index, _) => {
            if s.keys(index).len() > 0 {
                lemma_remove_ok(s, rest, index, n);
                let r = Session { map: s.map.removed(s.chosen(index).key), ..s.without(index) };
                lemma_bury_ok(r, rest, s.chosen(index), n + 1);
            } else {
                lemma_ok_later(s, rest, n, n + 1);
            }
        },
        Op::AddRetained(index) => {
            if s.keys(index).len() > 0 {
                assert(s.finds(s.keys(index)[s.place(index)]));
                lemma_retain_ok(s, rest, s.chosen(index), n, false);
            } else {
                lemma_ok_later(s, rest, n, n + 1);
            }
        },
        Op::AddRetainedArc(index) => {
            if s.keys(index).len() > 0 {
                assert(s.finds(s.keys(index)[s.place(index)]));
                lemma_retain_ok(s, rest, s.chosen(index), n, true);
            } else {
                lemma_ok_later(s, rest, n, n + 1);
            }
        },
        Op::RemoveRetained(i) => {
            if s.retained.len() > 0 {
                let at = i as int % s.retained.len() as int;
                assert(s.reads(s.retained[at]));
                lemma_release_ok(s, rest, at, n, false);
                lemma_ok_later(releasing(s, at, false), rest, n, n + 1);
            } else {
                lemma_ok_later(s, rest, n, n + 1);
            }
        },
        Op::RemoveRetainedArc(i) => {
            if s.owning.len() > 0 {
                let at = i as int % s.owning.len() as int;
                assert(s.reads(s.owning[at]));
                lemma_release_ok(s, rest, at, n, true);
                lemma_ok_later(releasing(s, at, true), rest, n, n + 1);
            } else {
                lemma_ok_later(s, rest, n, n + 1);
            }
        },
        _ => {
            lemma_look_ok(s, rest, op, n);
            lemma_ok_later(s, rest, n, n + 1);
        },
    }
}

/// One more key in the graveyard.
#[verifier::rlimit(50)]
proof fn lemma_bury_ok(s: Session, rest: Rest, info: Info, n: nat)
    requires
        s.ok(rest, n),
        s.buried(info.key),
    ensures
        (Session { graveyard: s.graveyard.push(info), ..s }).ok(rest, n),
{
    reveal(Session::ok);
    let r = Session { graveyard: s.graveyard.push(info), ..s };
    assert forall|i: int| 0 <= i < r.graveyard.len() implies r.buried(
        #[trigger] r.graveyard[i].key,
    ) by {
        if i < s.graveyard.len() {
            assert(s.buried(s.graveyard[i].key));
        }
    }
    assert forall|i: int| 0 <= i < r.private.len() implies r.finds(#[trigger] r.private[i]) by {
        assert(s.finds(s.private[i]));
    }
    assert forall|i: int| 0 <= i < r.shared.len() implies r.finds(#[trigger] r.shared[i]) by {
        assert(s.finds(s.shared[i]));
    }
    assert forall|i: int| 0 <= i < r.retained.len() implies r.reads(#[trigger] r.retained[i]) by {
        assert(s.reads(s.retained[i]));
    }
    assert forall|i: int| 0 <= i < r.owning.len() implies r.reads(#[trigger] r.owning[i]) by {
        assert(s.reads(s.owning[i]));
    }
    assert forall|info: Info| #[trigger] rest.known.contains(info) implies r.finds(info)
        && r.absent(info.key) by {
        assert(s.finds(info) && s.absent(info.key));
        assert(r.map.contains(info.key));
    }
    assert forall|info: Info| #[trigger] rest.kept.contains(info) implies r.reads(info) && (
    rest.held)(info.key) > 0 by {
        assert(s.reads(info) && (rest.held)(info.key) > 0);
        assert(r.map.stores(info.key));
    }
    assert forall|key: KeyView| #[trigger] rest.graves.contains(key) implies r.buried(key) by {
        assert(s.buried(key));
    }
}

/// The operations that only look see what they expect.
#[verifier::rlimit(50)]
proof fn lemma_look_ok(s: Session, rest: Rest, op: Op, n: nat)
    requires
        s.ok(rest, n),
        n < MAX_OPS,
        op is Retrieve || op is ReadRetained || op is ReadRetainedArc || op is CheckGraveyard
            || op is RetrieveForged,
    ensures
        s.allows(op),
        s.passes(op),
{
    reveal(Session::ok);
    match op {
        Op::Retrieve(index) => {
            if s.keys(index).len() > 0 {
                let info = s.chosen(index);
                assert(s.finds(s.keys(index)[s.place(index)]));
                assert(s.map.slots[info.key.idx as int].ref_count <= n + 1);
            }
        },
        Op::ReadRetained(i) => {
            if s.retained.len() > 0 {
                assert(s.reads(s.retained[i as int % s.retained.len() as int]));
            }
        },
        Op::ReadRetainedArc(i) => {
            if s.owning.len() > 0 {
                assert(s.reads(s.owning[i as int % s.owning.len() as int]));
            }
        },
        Op::CheckGraveyard(i) => {
            if s.graveyard.len() > 0 {
                let key = s.graveyard[i as int % s.graveyard.len() as int].key;
                assert(s.buried(key));
                assert(s.map.slots[key.idx as int].ref_count <= n + 1);
            }
        },
        _ => {},
    }
}

/// The guards of a workload that knows what is in the map are counted.
pub proof fn lemma_ok_held(s: Session, rest: Rest, n: nat)
    requires
        s.ok(rest, n),
    ensures
        s.held(),
        s.map.settled(),
{
    reveal(Session::ok);
}

} // verus!
