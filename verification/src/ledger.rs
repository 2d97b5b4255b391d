//! A slot map beside an ordinary map whose `n`-th insertion has the key `n`: whoever asks the two the
//! same things gets the same answers.
#[allow(unused_imports)]
use crate::laws::lemma_get_then_release;
#[allow(unused_imports)]
use crate::settled::{lemma_inserted, lemma_removed};
#[allow(unused_imports)]
use crate::slot::occupied;
#[allow(unused_imports)]
use crate::state::State;
#[allow(unused_imports)]
use crate::util::KeyView;
#[allow(unused_imports)]
use vstd::prelude::*;

verus! {

/// What is asked of the two maps. A number stands for the key of the insertion with that number.
pub enum Request<V> {
    /// Insert a value.
    Insert { value: V },
    /// Remove a key, and say whether it was there.
    Remove { n: nat },
    /// Say whether a key is there.
    Contains { n: nat },
    /// Read the value of a key, if it is there. The guard is given back at once.
    Get { n: nat },
}

/// A slot map, the keys that it gave, and an ordinary map.
#[verifier::ext_equal]
pub struct Ledger<V> {
    pub map: State<V>,
    pub keys: Seq<KeyView>,
    pub model: Map<nat, V>,
}

/// What a map has under a key.
pub open spec fn found<K, V>(contents: Map<K, V>, key: K) -> Option<V> {
    if contents.contains_key(key) {
        Some(contents[key])
    } else {
        None
    }
}

impl<V> Ledger<V> {
    /// Two empty maps.
    pub open spec fn fresh(present: Seq<bool>) -> Self {
        Ledger { map: State::empty(present), keys: Seq::empty(), model: Map::empty() }
    }

    /// Whether a request can be made: the key was given, and the limits of the machine leave room.
    pub open spec fn permits(self, request: Request<V>) -> bool {
        match request {
            Request::Insert { value: _ } => !self.map.full(),
            Request::Remove { n } => n < self.keys.len(),
            Request::Contains { n } => n < self.keys.len(),
            Request::Get { n } => n < self.keys.len() && self.map.may_acquire(self.keys[n as int]),
        }
    }

    /// What a request leaves behind.
    pub open spec fn after(self, request: Request<V>) -> Self {
        match request {
            Request::Insert { value } => Ledger {
                map: self.map.inserted(value),
                keys: self.keys.push(self.map.next_key()),
                model: self.model.insert(self.keys.len(), value),
            },
            Request::Remove { n } => Ledger {
                map: self.map.removed(self.keys[n as int]),
                keys: self.keys,
                model: self.model.remove(n),
            },
            Request::Contains { n: _ } => self,
            Request::Get { n } => Ledger {
                map: if self.map.contains(self.keys[n as int]) {
                    self.map.acquired(self.keys[n as int]).dereferenced(self.keys[n as int].idx)
                } else {
                    self.map
                },
                ..self
            },
        }
    }

    /// Whether the two maps answer a request alike.
    pub open spec fn agrees(self, request: Request<V>) -> bool {
        match request {
            Request::Insert { value: _ } => !self.model.contains_key(self.keys.len())
                && !self.map.live().contains_key(self.map.next_key()),
            Request::Remove { n } => self.map.live().contains_key(self.keys[n as int])
                == self.model.contains_key(n),
            Request::Contains { n } => self.map.live().contains_key(self.keys[n as int])
                == self.model.contains_key(n),
            Request::Get { n } => found(self.map.live(), self.keys[n as int]) == found(
                self.model,
                n,
            ),
        }
    }

    /// What a row of requests leaves behind.
    pub open spec fn after_all(self, requests: Seq<Request<V>>) -> Self
        decreases requests.len(),
    {
        if requests.len() == 0 {
            self
        } else {
            self.after_all(requests.drop_last()).after(requests.last())
        }
    }

    /// Whether a row of requests can be made.
    pub open spec fn permits_all(self, requests: Seq<Request<V>>) -> bool
        decreases requests.len(),
    {
        requests.len() > 0 ==> self.permits_all(requests.drop_last()) && self.after_all(
            requests.drop_last(),
        ).permits(requests.last())
    }

    /// Whether the two maps answer each of a row of requests alike.
    pub open spec fn agrees_all(self, requests: Seq<Request<V>>) -> bool
        decreases requests.len(),
    {
        requests.len() > 0 ==> self.agrees_all(requests.drop_last()) && self.after_all(
            requests.drop_last(),
        ).agrees(requests.last())
    }

    /// How many of a row of requests insert into slot `i`.
    pub open spec fn tenants(self, requests: Seq<Request<V>>, i: int) -> nat
        decreases requests.len(),
    {
        if requests.len() == 0 {
            0
        } else {
            self.tenants(requests.drop_last(), i) + (if requests.last() is Insert
                && self.after_all(requests.drop_last()).map.next_idx() == i {
                1nat
            } else {
                0nat
            })
        }
    }

    /// The two maps have the same contents.
    pub open spec fn same_contents(self) -> bool {
        &&& forall|n: nat| #[trigger] self.model.contains_key(n) ==> n < self.keys.len()
        &&& forall|n: nat|
            n < self.keys.len() ==> found(self.map.live(), self.keys[n as int]) == #[trigger] found(
                self.model,
                n,
            )
        &&& self.model.dom().finite()
        &&& self.model.dom().len() == self.map.num_elems
    }

    /// What holds if `tenants(i)` insertions into slot `i` came before: the version of a slot tells how
    /// many there were, and no key was given twice.
    spec fn ok(self, tenants: spec_fn(int) -> nat) -> bool {
        &&& self.map.settled()
        &&& self.same_contents()
        &&& forall|i: int|
            0 <= i < self.map.slots.len() ==> {
                let version = (#[trigger] self.map.slots[i]).version;
                if occupied(version) {
                    version == 2 * tenants(i) - 1
                } else {
                    version == (2 * tenants(i)) % 0x1_0000_0000
                }
            }
        &&& forall|i: int| i >= self.map.slots.len() ==> #[trigger] tenants(i) == 0
        &&& forall|n: int|
            0 <= n < self.keys.len() ==> (#[trigger] self.keys[n]).idx < self.map.slots.len()
                && self.keys[n].version < 2 * tenants(self.keys[n].idx as int)
        &&& forall|n: int, m: int|
            0 <= n < m < self.keys.len() ==> #[trigger] self.keys[n] != #[trigger] self.keys[m]
    }
}

/// One more request: it is answered alike, and the contents stay the same.
#[verifier::rlimit(50)]
proof fn lemma_request<V>(
    ledger: Ledger<V>,
    tenants: spec_fn(int) -> nat,
    request: Request<V>,
    after: spec_fn(int) -> nat,
)
    requires
        ledger.ok(tenants),
        ledger.permits(request),
        forall|i: int| #[trigger]
            after(i) == tenants(i) + (if request is Insert && ledger.map.next_idx() == i {
                1nat
            } else {
                0nat
            }),
        forall|i: int| #[trigger] after(i) <= 0x8000_0000,
    ensures
        ledger.agrees(request),
        ledger.after(request).ok(after),
{
    let next = ledger.after(request);
    match request {
        Request::Insert { value } => {
            let key = ledger.map.next_key();
            let idx = key.idx as int;
            lemma_inserted(ledger.map, value);
            assert(after(idx) == tenants(idx) + 1);
            if ledger.map.free.len() > 0 {
                assert(ledger.map.free[0] < ledger.map.slots.len());
                assert(ledger.map.free.contains(ledger.map.free[0]));
                assert(ledger.map.slot_ok(idx));
                assert(ledger.map.slots[idx].version == 2 * tenants(idx));
            } else {
                assert(tenants(idx) == 0);
            }
            assert(key.version == 2 * tenants(idx) + 1);
            assert forall|n: int| 0 <= n < ledger.keys.len() implies #[trigger] ledger.keys[n]
                != key by {
                assert(ledger.keys[n].version < 2 * tenants(ledger.keys[n].idx as int));
            }
            assert forall|n: nat| n < next.keys.len() implies found(
                next.map.live(),
                next.keys[n as int],
            ) == #[trigger] found(next.model, n) by {
                if n < ledger.keys.len() {
                    assert(found(ledger.map.live(), ledger.keys[n as int]) == found(
                        ledger.model,
                        n,
                    ));
                }
            }
            assert forall|n: int| 0 <= n < next.keys.len() implies (#[trigger] next.keys[n]).idx
                < next.map.slots.len() && next.keys[n].version < 2 * after(
                next.keys[n].idx as int,
            ) by {
                if n < ledger.keys.len() {
                    assert(ledger.keys[n].idx < ledger.map.slots.len());
                }
            }
            assert forall|i: int| i >= next.map.slots.len() implies #[trigger] after(i) == 0 by {
                assert(tenants(i) == 0);
            }
        },
        Request::Remove { n: r } => {
            let key = ledger.keys[r as int];
            lemma_removed(ledger.map, key);
            assert(found(ledger.map.live(), key) == found(ledger.model, r));
            assert forall|n: nat| n < next.keys.len() implies found(
                next.map.live(),
                next.keys[n as int],
            ) == #[trigger] found(next.model, n) by {
                assert(found(ledger.map.live(), ledger.keys[n as int]) == found(ledger.model, n));
                if n != r {
                    assert(ledger.keys[n as int] != key);
                }
            }
            assert forall|n: int| 0 <= n < next.keys.len() implies (#[trigger] next.keys[n]).idx
                < next.map.slots.len() && next.keys[n].version < 2 * after(
                next.keys[n].idx as int,
            ) by {
                assert(ledger.keys[n].idx < ledger.map.slots.len());
                assert(after(ledger.keys[n].idx as int) == tenants(ledger.keys[n].idx as int));
            }
            assert forall|i: int| i >= next.map.slots.len() implies #[trigger] after(i) == 0 by {
                assert(tenants(i) == 0);
            }
            assert forall|i: int| 0 <= i < next.map.slots.len() implies {
                let version = (#[trigger] next.map.slots[i]).version;
                if occupied(version) {
                    version == 2 * after(i) - 1
                } else {
                    version == (2 * after(i)) % 0x1_0000_0000
                }
            } by {
                assert(after(i) == tenants(i));
                assert(ledger.map.slots[i].version <= u32::MAX);
            }
        },
        _ => {
            assert forall|i: int| #[trigger] after(i) == tenants(i) by {}
            assert(after =~= tenants);
            match request {
                Request::Contains { n } => {
                    assert(found(ledger.map.live(), ledger.keys[n as int]) == found(
                        ledger.model,
                        n,
                    ));
                },
                Request::Get { n } => {
                    let key = ledger.keys[n as int];
                    if ledger.map.contains(key) {
                        assert(ledger.map.slot_ok(key.idx as int));
                        lemma_get_then_release(ledger.map, key);
                        assert(next == ledger);
                    }
                    assert(found(ledger.map.live(), key) == found(ledger.model, n));
                },
                _ => {},
            }
        },
    }
}

/// The two maps have the same contents after a row of requests.
#[verifier::rlimit(50)]
proof fn lemma_requests<V>(present: Seq<bool>, requests: Seq<Request<V>>)
    requires
        State::<V>::empty(present).settled(),
        Ledger::fresh(present).permits_all(requests),
        forall|i: int| #[trigger] Ledger::fresh(present).tenants(requests, i) <= 0x8000_0000,
    ensures
        Ledger::fresh(present).agrees_all(requests),
        Ledger::fresh(present).after_all(requests).ok(
            |i: int| Ledger::fresh(present).tenants(requests, i),
        ),
    decreases requests.len(),
{
    let first = Ledger::<V>::fresh(present);
    let after = |i: int| first.tenants(requests, i);
    if requests.len() == 0 {
        assert(first.map.slots.len() == 0);
    } else {
        let rest = requests.drop_last();
        let before = |i: int| first.tenants(rest, i);
        assert forall|i: int| #[trigger] first.tenants(rest, i) <= 0x8000_0000 by {
            assert(first.tenants(requests, i) <= 0x8000_0000);
        }
        lemma_requests(present, rest);
        assert forall|i: int| #[trigger] after(i) <= 0x8000_0000 by {
            assert(first.tenants(requests, i) <= 0x8000_0000);
        }
        lemma_request(first.after_all(rest), before, requests.last(), after);
    }
}

/// A slot map and an ordinary map whose `n`-th insertion has the key `n` answer every row of requests
/// alike, and have the same contents after it, as long as no slot is used more than 2^31 times: it then
/// gives a key a second time.
pub proof fn lemma_agrees_with_ordinary_map<V>(present: Seq<bool>, requests: Seq<Request<V>>)
    requires
        State::<V>::empty(present).settled(),
        Ledger::fresh(present).permits_all(requests),
        forall|i: int| #[trigger] Ledger::fresh(present).tenants(requests, i) <= 0x8000_0000,
    ensures
        Ledger::fresh(present).agrees_all(requests),
        Ledger::fresh(present).after_all(requests).same_contents(),
{
    lemma_requests(present, requests);
}

} // verus!
