//! A workload that puts a map through its operations and checks what it gives back.
#[allow(unused_imports)]
use crate::chunks::lemma_chunk_addressable;
#[allow(unused_imports)]
use crate::crew::{
    done_after, gathered, hired, lemma_done, lemma_gathered_ok, lemma_stepped_ok, lemma_turn, Crew,
    Desk,
};
#[allow(unused_imports)]
use crate::drops::{lemma_lists_len, lists};
use crate::guard::SlotGuard;
#[allow(unused_imports)]
use crate::laws::{lemma_get_then_release, lemma_live_is_stored, lemma_next_key_unused};
#[allow(unused_imports)]
use crate::map::{no_chunks, AtomicSlotMap};
use crate::owning_guard::OwningSlotGuard;
#[allow(unused_imports)]
use crate::session::{
    forged, holds, lemma_applied_held, lemma_holds_positive, makes_value, Info, Session, MAX_OPS,
};
#[allow(unused_imports)]
use crate::settled::lemma_stored_len;
#[allow(unused_imports)]
use crate::state::State;
#[allow(unused_imports)]
use crate::util::{key_ffi, DefaultKey, Key, KeyData, KeyDataRead, KeyView};
#[allow(unused_imports)]
use vstd::prelude::*;

verus! {

/// A workload: a way to make the map, the operations of four workers, and a way to end.
#[derive(Debug)]
pub struct Target {
    pub ctor: Constructor,
    pub ops: [Vec<Op>; 4],
    pub dtor: Destructor,
}

/// How the map is made.
#[derive(Debug)]
pub enum Constructor {
    New,
    WithCapacity(u8),
}

/// Which key is meant. The number is taken modulo the length of the list.
#[derive(Debug, Clone, Copy)]
pub enum Index {
    Shared(usize),
    Private(usize),
}

/// One operation of a worker.
#[derive(Debug, Clone, Copy)]
pub enum Op {
    Reserve(u8),
    /// Inserts a new value (tracked by private keys).
    Insert(u32),
    /// Inserts a new value (tracked by private keys).
    InsertWithKey(u32),
    /// Publishes a private key into shared keys.
    Publish(usize),
    /// Removes a key from the slotmap.
    Remove(Index),
    /// Removes a key from the slotmap but keeps it in the graveyard.
    ///
    /// There's a flag that signals whether the generation of the key should be mutated.
    RemoveToGraveyard(Index, bool),
    /// Retrieves a key from the slotmap and compares it to the known value.
    Retrieve(Index),
    /// Retains a key that exists at the provided index. A guard will be held for that key keeping
    /// it alive until a [`Op::RemoveRetained`] removes it.
    AddRetained(Index),
    /// Reads a retained key and compares its value.
    ReadRetained(usize),
    /// Removes a retained key.
    RemoveRetained(usize),
    /// Retains a key that exists at the provided index. A guard that can be cloned will be held for
    /// that key keeping it alive until a [`Op::RemoveRetainedArc`] removes it.
    AddRetainedArc(Index),
    /// Reads a retained key and compares its value.
    ReadRetainedArc(usize),
    /// Removes a retained key.
    RemoveRetainedArc(usize),
    /// Checks that a key that came from the graveyard is still invalid.
    CheckGraveyard(usize),
    /// Checks a forged key, larger than 0x7000_0000: it should be physically impossible for this
    /// many keys to exist in the map.
    RetrieveForged(usize),
}

/// How the map goes away.
#[derive(Debug)]
pub enum Destructor {
    LetDrop,
}

/// A value of the workload.
#[derive(Debug)]
pub struct Value(u32);

/// The number that was put inside is inside.
pub broadcast proof fn lemma_value(v: u32)
    ensures
        #[trigger] Value::of(v).number() == v,
{
}

impl Value {
    /// The number inside.
    pub closed spec fn number(self) -> u32 {
        self.0
    }

    /// The value with a number inside.
    pub closed spec fn of(v: u32) -> Value {
        Value(v)
    }

    /// Makes a value.
    pub fn new(v: u32) -> (value: Value)
        ensures
            value == Value::of(v),
            value.number() == v,
    {
        Value(v)
    }

    /// The number inside.
    pub fn get(&self) -> (v: u32)
        ensures
            v == self.number(),
    {
        self.0
    }
}

/// A key and the value that is expected under it.
#[derive(Clone, Copy, Debug)]
pub struct KeyInfo {
    key: DefaultKey,
    value: u32,
}

impl View for KeyInfo {
    type V = Info;

    closed spec fn view(&self) -> Info {
        Info { key: self.key.parts(), value: self.value }
    }
}

impl KeyInfo {
    /// The key.
    pub fn key(&self) -> (key: DefaultKey)
        ensures
            key.parts() == self@.key,
    {
        self.key
    }

    /// The expected value.
    pub fn value(&self) -> (value: u32)
        ensures
            value == self@.value,
    {
        self.value
    }
}

/// A key whose guard is held.
struct RetainedKey<G> {
    info: KeyInfo,
    guard: G,
}

/// What a row of entries says.
pub open spec fn infos(keys: Seq<KeyInfo>) -> Seq<Info> {
    keys.map_values(|info: KeyInfo| info@)
}

/// What one worker knows and holds: keys, guards of one type and guards of another type that can be
/// cloned.
pub struct Worker<G, H> {
    private_keys: Vec<KeyInfo>,
    retained_keys: Vec<RetainedKey<G>>,
    atomic_retained_keys: Vec<RetainedKey<H>>,
    graveyard: Vec<KeyInfo>,
}

/// A worker with guards into an [`AtomicSlotMap`].
pub type LocalWorker = Worker<SlotGuard<DefaultKey>, OwningSlotGuard<DefaultKey>>;

impl<G, H> Worker<G, H> {
    /// The keys that only this worker knows.
    pub closed spec fn private(&self) -> Seq<Info> {
        infos(self.private_keys@)
    }

    /// The keys of the guards that this worker holds.
    pub closed spec fn retained(&self) -> Seq<Info> {
        self.retained_keys@.map_values(|kept: RetainedKey<G>| kept.info@)
    }

    /// The guards that this worker holds.
    pub closed spec fn guards(&self) -> Seq<G> {
        self.retained_keys@.map_values(|kept: RetainedKey<G>| kept.guard)
    }

    /// The keys of the clonable guards that this worker holds.
    pub closed spec fn owning(&self) -> Seq<Info> {
        self.atomic_retained_keys@.map_values(|kept: RetainedKey<H>| kept.info@)
    }

    /// The clonable guards that this worker holds.
    pub closed spec fn owning_guards(&self) -> Seq<H> {
        self.atomic_retained_keys@.map_values(|kept: RetainedKey<H>| kept.guard)
    }

    /// The keys that this worker removed.
    pub closed spec fn graves(&self) -> Seq<Info> {
        infos(self.graveyard@)
    }

    /// The worker, a map and the shared keys together.
    pub open spec fn session(&self, map: State<Value>, shared: Seq<KeyInfo>) -> Session {
        Session {
            map,
            shared: infos(shared),
            private: self.private(),
            retained: self.retained(),
            owning: self.owning(),
            graveyard: self.graves(),
        }
    }

    /// The worker, with what it is to do.
    pub open spec fn desk(&self, todo: Seq<Op>) -> Desk {
        Desk {
            todo,
            private: self.private(),
            retained: self.retained(),
            owning: self.owning(),
            graveyard: self.graves(),
        }
    }

    /// The list that an index means, and the place in it.
    pub open spec fn meant(&self, index: Index, shared: Seq<KeyInfo>) -> (Seq<Info>, int) {
        match index {
            Index::Private(i) => (self.private(), i as int % self.private().len() as int),
            Index::Shared(i) => (infos(shared), i as int % shared.len() as int),
        }
    }

    /// A worker that knows nothing.
    pub fn new() -> (worker: Self)
        ensures
            worker.private() == Seq::<Info>::empty(),
            worker.retained() == Seq::<Info>::empty(),
            worker.guards() == Seq::<G>::empty(),
            worker.owning() == Seq::<Info>::empty(),
            worker.owning_guards() == Seq::<H>::empty(),
            worker.graves() == Seq::<Info>::empty(),
    {
        Worker {
            private_keys: Vec::new(),
            retained_keys: Vec::new(),
            atomic_retained_keys: Vec::new(),
            graveyard: Vec::new(),
        }
    }

    /// The entry that an index means.
    pub fn choose_key(&self, index: Index, shared: &Vec<KeyInfo>) -> (info: Option<KeyInfo>)
        ensures
            ({
                let (keys, at) = self.meant(index, shared@);
                match info {
                    Some(info) => keys.len() > 0 && info@ == keys[at],
                    None => keys.len() == 0,
                }
            }),
            index matches Index::Private(i) ==> info is Some == (self.private().len() > 0) && (
            info is Some ==> info->0@ == self.private()[i as int % self.private().len() as int]),
            index matches Index::Shared(i) ==> info is Some == (shared@.len() > 0) && (info is Some
                ==> info->0@ == shared@[i as int % shared@.len() as int]@),
    {
        match index {
            Index::Private(i) => if self.private_keys.len() > 0 {
                Some(self.private_keys[i % self.private_keys.len()])
            } else {
                None
            },
            Index::Shared(i) => if shared.len() > 0 {
                Some(shared[i % shared.len()])
            } else {
                None
            },
        }
    }

    /// Takes the entry that an index means out of its list.
    pub fn take_key(&mut self, index: Index, shared: &mut Vec<KeyInfo>) -> (info: Option<KeyInfo>)
        ensures
            ({
                let (keys, at) = old(self).meant(index, old(shared)@);
                match info {
                    Some(info) => {
                        &&& keys.len() > 0
                        &&& info@ == keys[at]
                        &&& final(self).private() == (if index is Private {
                            keys.remove(at)
                        } else {
                            old(self).private()
                        })
                        &&& infos(final(shared)@) == (if index is Shared {
                            keys.remove(at)
                        } else {
                            infos(old(shared)@)
                        })
                    },
                    None => keys.len() == 0 && final(self).private() == old(self).private()
                        && final(shared)@ == old(shared)@,
                }
            }),
            index matches Index::Private(i) ==> info is Some == (old(self).private().len() > 0) && (
            info is Some ==> info->0@ == old(self).private()[i as int
                % old(self).private().len() as int]),
            index matches Index::Shared(i) ==> info is Some == (old(shared)@.len() > 0) && (
            info is Some ==> info->0@ == old(shared)@[i as int % old(shared)@.len() as int]@),
            final(self).retained() == old(self).retained(),
            final(self).guards() == old(self).guards(),
            final(self).owning() == old(self).owning(),
            final(self).owning_guards() == old(self).owning_guards(),
            final(self).graves() == old(self).graves(),
    {
        match index {
            Index::Private(i) => if self.private_keys.len() > 0 {
                let at: usize = i % self.private_keys.len();
                let info = self.private_keys.remove(at);
                assert(infos(self.private_keys@) =~= infos(old(self).private_keys@).remove(
                    at as int,
                ));
                Some(info)
            } else {
                None
            },
            Index::Shared(i) => if shared.len() > 0 {
                let at: usize = i % shared.len();
                let info = shared.remove(at);
                assert(infos(shared@) =~= infos(old(shared)@).remove(at as int));
                Some(info)
            } else {
                None
            },
        }
    }

    /// Keeps the key of an insertion.
    pub fn remember(&mut self, key: DefaultKey, value: u32)
        ensures
            final(self).private() == old(self).private().push(Info { key: key.parts(), value }),
            final(self).retained() == old(self).retained(),
            final(self).guards() == old(self).guards(),
            final(self).owning() == old(self).owning(),
            final(self).owning_guards() == old(self).owning_guards(),
            final(self).graves() == old(self).graves(),
    {
        let info = KeyInfo { key, value };
        self.private_keys.push(info);
        assert(infos(self.private_keys@) =~= infos(old(self).private_keys@).push(info@));
    }

    /// Lets all workers know a key.
    pub fn publish(&mut self, i: usize, shared: &mut Vec<KeyInfo>)
        ensures
            ({
                let keys = old(self).private();
                let at = i as int % keys.len() as int;
                &&& keys.len() == 0 ==> final(self).private() == keys && final(shared)@ == old(
                    shared,
                )@
                &&& keys.len() > 0 ==> final(self).private() == keys.remove(at) && infos(
                    final(shared)@,
                ) == infos(old(shared)@).push(keys[at])
            }),
            final(self).retained() == old(self).retained(),
            final(self).guards() == old(self).guards(),
            final(self).owning() == old(self).owning(),
            final(self).owning_guards() == old(self).owning_guards(),
            final(self).graves() == old(self).graves(),
    {
        if self.private_keys.len() > 0 {
            let at: usize = i % self.private_keys.len();
            let info = self.private_keys.remove(at);
            shared.push(info);
            assert(infos(self.private_keys@) =~= infos(old(self).private_keys@).remove(at as int));
            assert(infos(shared@) =~= infos(old(shared)@).push(info@));
        }
    }

    /// Keeps a key that was removed. The flag says whether its generation is to be mutated.
    pub fn bury(&mut self, info: KeyInfo, remove_gen: bool)
        ensures
            final(self).graves() == old(self).graves().push(info@),
            final(self).private() == old(self).private(),
            final(self).retained() == old(self).retained(),
            final(self).guards() == old(self).guards(),
            final(self).owning() == old(self).owning(),
            final(self).owning_guards() == old(self).owning_guards(),
    {
        let buried = KeyInfo { key: bury(info.key, remove_gen), value: info.value };
        self.graveyard.push(buried);
        assert(infos(self.graveyard@) =~= infos(old(self).graveyard@).push(info@));
    }

    /// A key that was removed.
    pub fn grave(&self, i: usize) -> (key: Option<DefaultKey>)
        ensures
            match key {
                Some(key) => self.graves().len() > 0 && key.parts() == self.graves()[i as int
                    % self.graves().len() as int].key,
                None => self.graves().len() == 0,
            },
    {
        if self.graveyard.len() > 0 {
            Some(self.graveyard[i % self.graveyard.len()].key)
        } else {
            None
        }
    }

    /// Keeps a guard.
    pub fn retain(&mut self, info: KeyInfo, guard: G)
        ensures
            final(self).retained() == old(self).retained().push(info@),
            final(self).guards() == old(self).guards().push(guard),
            final(self).private() == old(self).private(),
            final(self).owning() == old(self).owning(),
            final(self).owning_guards() == old(self).owning_guards(),
            final(self).graves() == old(self).graves(),
    {
        self.retained_keys.push(RetainedKey { info, guard });
        assert(self.retained() =~= old(self).retained().push(info@));
        assert(self.guards() =~= old(self).guards().push(guard));
    }

    /// A guard that is held, with its key.
    pub fn retained_at(&self, i: usize) -> (kept: Option<(KeyInfo, &G)>)
        ensures
            self.retained().len() == self.guards().len(),
            ({
                let at = i as int % self.retained().len() as int;
                match kept {
                    Some((info, guard)) => self.retained().len() > 0 && info@ == self.retained()[at]
                        && *guard == self.guards()[at],
                    None => self.retained().len() == 0,
                }
            }),
    {
        if self.retained_keys.len() > 0 {
            let kept = &self.retained_keys[i % self.retained_keys.len()];
            Some((kept.info, &kept.guard))
        } else {
            None
        }
    }

    /// Takes out a guard that is held, with its key.
    pub fn release_at(&mut self, i: usize) -> (kept: Option<(KeyInfo, G)>)
        ensures
            old(self).retained().len() == old(self).guards().len(),
            ({
                let at = i as int % old(self).retained().len() as int;
                match kept {
                    Some((info, guard)) => {
                        &&& old(self).retained().len() > 0
                        &&& info@ == old(self).retained()[at]
                        &&& guard == old(self).guards()[at]
                        &&& final(self).retained() == old(self).retained().remove(at)
                        &&& final(self).guards() == old(self).guards().remove(at)
                    },
                    None => old(self).retained().len() == 0 && final(self).retained() == old(
                        self,
                    ).retained() && final(self).guards() == old(self).guards(),
                }
            }),
            final(self).private() == old(self).private(),
            final(self).owning() == old(self).owning(),
            final(self).owning_guards() == old(self).owning_guards(),
            final(self).graves() == old(self).graves(),
    {
        if self.retained_keys.len() > 0 {
            let at: usize = i % self.retained_keys.len();
            let kept = self.retained_keys.remove(at);
            assert(self.retained() =~= old(self).retained().remove(at as int));
            assert(self.guards() =~= old(self).guards().remove(at as int));
            Some((kept.info, kept.guard))
        } else {
            None
        }
    }

    /// Keeps a guard that can be cloned.
    pub fn retain_owning(&mut self, info: KeyInfo, guard: H)
        ensures
            final(self).owning() == old(self).owning().push(info@),
            final(self).owning_guards() == old(self).owning_guards().push(guard),
            final(self).private() == old(self).private(),
            final(self).retained() == old(self).retained(),
            final(self).guards() == old(self).guards(),
            final(self).graves() == old(self).graves(),
    {
        self.atomic_retained_keys.push(RetainedKey { info, guard });
        assert(self.owning() =~= old(self).owning().push(info@));
        assert(self.owning_guards() =~= old(self).owning_guards().push(guard));
    }

    /// A guard that can be cloned and is held, with its key.
    pub fn owning_at(&self, i: usize) -> (kept: Option<(KeyInfo, &H)>)
        ensures
            self.owning().len() == self.owning_guards().len(),
            ({
                let at = i as int % self.owning().len() as int;
                match kept {
                    Some((info, guard)) => self.owning().len() > 0 && info@ == self.owning()[at]
                        && *guard == self.owning_guards()[at],
                    None => self.owning().len() == 0,
                }
            }),
    {
        if self.atomic_retained_keys.len() > 0 {
            let kept = &self.atomic_retained_keys[i % self.atomic_retained_keys.len()];
            Some((kept.info, &kept.guard))
        } else {
            None
        }
    }

    /// Takes out a guard that can be cloned and is held, with its key.
    pub fn release_owning_at(&mut self, i: usize) -> (kept: Option<(KeyInfo, H)>)
        ensures
            old(self).owning().len() == old(self).owning_guards().len(),
            ({
                let at = i as int % old(self).owning().len() as int;
                match kept {
                    Some((info, guard)) => {
                        &&& old(self).owning().len() > 0
                        &&& info@ == old(self).owning()[at]
                        &&& guard == old(self).owning_guards()[at]
                        &&& final(self).owning() == old(self).owning().remove(at)
                        &&& final(self).owning_guards() == old(self).owning_guards().remove(at)
                    },
                    None => old(self).owning().len() == 0 && final(self).owning() == old(
                        self,
                    ).owning() && final(self).owning_guards() == old(self).owning_guards(),
                }
            }),
            final(self).private() == old(self).private(),
            final(self).retained() == old(self).retained(),
            final(self).guards() == old(self).guards(),
            final(self).graves() == old(self).graves(),
    {
        if self.atomic_retained_keys.len() > 0 {
            let at: usize = i % self.atomic_retained_keys.len();
            let kept = self.atomic_retained_keys.remove(at);
            assert(self.owning() =~= old(self).owning().remove(at as int));
            assert(self.owning_guards() =~= old(self).owning_guards().remove(at as int));
            Some((kept.info, kept.guard))
        } else {
            None
        }
    }

    /// What the worker does next, if it has done some of its operations.
    pub fn next_op(&self, ops: &Vec<Op>, done: usize) -> (op: Option<Op>)
        requires
            done <= ops@.len(),
        ensures
            op == self.desk(ops@.skip(done as int)).next(),
    {
        if done < ops.len() {
            Some(ops[done])
        } else if self.atomic_retained_keys.len() > 0 {
            Some(Op::RemoveRetainedArc(0))
        } else if self.retained_keys.len() > 0 {
            Some(Op::RemoveRetained(0))
        } else {
            None
        }
    }
}

/// The key in the graveyard. Clearing the lowest bit of the generation changes nothing: it is set in
/// every key.
fn bury(key: DefaultKey, remove_gen: bool) -> (buried: DefaultKey)
    ensures
        buried.parts() == key.parts(),
{
    let data = key.data();
    let version: u64 = data.version() as u64;
    let idx: u64 = data.idx() as u64;
    let ffi: u64 = data.as_ffi();
    let is_key_gen_zero = ffi & 0xFFFF_FFFF_0000_0000 == 0;
    let masked: u64 = ffi & 0xFFFF_FFFE_FFFF_FFFF;
    assert(masked % 0x1_0000_0000 == idx && masked / 0x1_0000_0000 + 1 == version) by (bit_vector)
        requires
            ffi == version * 0x1_0000_0000 + idx,
            version % 2 == 1,
            version < 0x1_0000_0000,
            idx < 0x1_0000_0000,
            masked == ffi & 0xFFFF_FFFE_FFFF_FFFF,
    ;
    let key_ffi: u64 = if !remove_gen || is_key_gen_zero {
        ffi
    } else {
        masked
    };
    DefaultKey::from_data(KeyData::from_ffi(key_ffi))
}

/// Makes up a key.
pub fn forge(raw_offset: usize) -> (key: DefaultKey)
    ensures
        key.parts() == forged(raw_offset),
        key.parts().idx == 0x7000_0000 + raw_offset % 10000,
        key.parts().version % 2 == 1,
        key.parts().version / 2 == (raw_offset as int % 0x1_0000_0000) / 2,
{
    let key_idx: u64 = (0x7000_0000 + raw_offset % 10000) as u64;
    let key_gen: u64 = raw_offset as u64;
    let key_ffi: u64 = (key_gen << 32) | key_idx;
    assert(key_ffi % 0x1_0000_0000 == key_idx && key_ffi / 0x1_0000_0000 == key_gen
        % 0x1_0000_0000) by (bit_vector)
        requires
            key_ffi == (key_gen << 32) | key_idx,
            key_idx < 0x1_0000_0000,
    ;
    DefaultKey::from_data(KeyData::from_ffi(key_ffi))
}

/// Whether a key is not in the map, whichever way it is asked for.
fn is_missing(map: &mut AtomicSlotMap<DefaultKey, Value>, key: DefaultKey) -> (missing: bool)
    requires
        old(map).wf(),
        old(map)@.may_acquire(key.parts()),
    ensures
        final(map).wf(),
        final(map)@ == old(map)@,
        final(map).ledger() == old(map).ledger(),
        missing == !old(map)@.contains(key.parts()),
{
    match map.get(key) {
        Some(guard) => {
            proof {
                lemma_found(old(map)@, key.parts());
            }
            guard.drop(map);
            false
        },
        None => !map.contains_key(key) && !map.remove(key),
    }
}

/// Whether a key is in the map, with the expected value.
fn retrieve(map: &mut AtomicSlotMap<DefaultKey, Value>, info: KeyInfo) -> (found: bool)
    requires
        old(map).wf(),
        old(map)@.may_acquire(info@.key),
    ensures
        final(map).wf(),
        final(map)@ == old(map)@,
        final(map).ledger() == old(map).ledger(),
        found == (old(map)@.contains(info@.key) && old(map)@.value_at(info@.key).number()
            == info@.value),
{
    match map.get(info.key) {
        Some(guard) => {
            proof {
                lemma_found(old(map)@, info@.key);
            }
            let found = guard.deref(map).get() == info.value;
            guard.drop(map);
            found
        },
        None => false,
    }
}

/// A guard of a key in the map is counted, leads to the value, and can be given back.
proof fn lemma_found(s: State<Value>, key: KeyView)
    requires
        s.settled(),
        s.contains(key),
        s.may_acquire(key),
    ensures
        s.stores(key),
        s.acquired(key).guards(key) > 0,
        s.acquired(key).dereferenced(key.idx) == s,
        s.acquired(key).stored()[key] == s.value_at(key),
{
    assert(s.slot_ok(key.idx as int));
    assert(s.stores(key));
    lemma_get_then_release(s, key);
    assert(s.acquired(key).stores(key));
}

impl LocalWorker {
    /// Every guard is that of the key beside it.
    pub open spec fn wf(&self) -> bool {
        &&& self.guards().len() == self.retained().len()
        &&& self.owning_guards().len() == self.owning().len()
        &&& forall|i: int|
            0 <= i < self.guards().len() ==> (#[trigger] self.guards()[i]).parts()
                == self.retained()[i].key
        &&& forall|i: int|
            0 <= i < self.owning_guards().len() ==> (#[trigger] self.owning_guards()[i]).parts()
                == self.owning()[i].key
    }

    /// Does one operation. Returns whether everything that the operation checks holds.
    #[verifier::rlimit(50)]
    pub fn apply(
        &mut self,
        op: Op,
        map: &mut AtomicSlotMap<DefaultKey, Value>,
        shared: &mut Vec<KeyInfo>,
    ) -> (passed: bool)
        requires
            old(self).wf(),
            old(map).wf(),
            old(self).session(old(map)@, old(shared)@).held(),
            old(self).session(old(map)@, old(shared)@).allows(op),
        ensures
            final(self).wf(),
            final(map).wf(),
            passed == old(self).session(old(map)@, old(shared)@).passes(op),
            final(self).session(final(map)@, final(shared)@) == old(self).session(
                old(map)@,
                old(shared)@,
            ).applied(op),
            final(self).session(final(map)@, final(shared)@).held(),
            // What is made is stored, and what is not stored any more was dropped.
            final(map).dropped().len() + final(map)@.stored().dom().len() == old(map).dropped().len()
                + old(map)@.stored().dom().len() + (if makes_value(op) {
                1nat
            } else {
                0nat
            }),
    {
        let ghost before = self.session(map@, shared@);
        proof {
            lemma_applied_held(before, op);
            lemma_stored_len(map@);
            if makes_value(op) {
                lemma_next_key_unused(map@);
            }
        }
        match op {
            Op::Reserve(additional) => {
                map.reserve(additional as usize);
                true
            },
            Op::Insert(value) => {
                let key = map.insert(Value::new(value));
                self.remember(key, value);
                true
            },
            Op::InsertWithKey(value) => {
                let make = |_key: DefaultKey| -> (made: Value)
                    ensures
                        made == Value::of(value),
                    { Value::new(value) };
                let key = map.insert_with_key(make);
                self.remember(key, value);
                true
            },
            Op::Publish(i) => {
                self.publish(i, shared);
                assert(self.session(map@, shared@) =~= before.applied(op));
                true
            },
            Op::Remove(index) => match self.take_key(index, shared) {
                Some(info) => {
                    proof {
                        if map@.contains(info@.key) {
                            lemma_live_is_stored(map@, info@.key);
                        }
                    }
                    let passed = map.remove(info.key);
                    assert(self.session(map@, shared@) =~= before.applied(op));
                    passed
                },
                None => true,
            },
            Op::RemoveToGraveyard(index, remove_gen) => match self.take_key(index, shared) {
                Some(info) => {
                    proof {
                        if map@.contains(info@.key) {
                            lemma_live_is_stored(map@, info@.key);
                        }
                    }
                    let passed = map.remove(info.key);
                    self.bury(info, remove_gen);
                    assert(self.session(map@, shared@) =~= before.applied(op));
                    passed
                },
                None => true,
            },
            Op::Retrieve(index) => match self.choose_key(index, shared) {
                Some(info) => retrieve(map, info),
                None => true,
            },
            Op::AddRetained(index) => match self.choose_key(index, shared) {
                Some(info) => match map.get(info.key) {
                    Some(guard) => {
                        proof {
                            lemma_found(old(map)@, info@.key);
                        }
                        let passed = guard.deref(map).get() == info.value;
                        self.retain(info, guard);
                        passed
                    },
                    None => false,
                },
                None => true,
            },
            Op::ReadRetained(i) => match self.retained_at(i) {
                Some((info, guard)) => {
                    proof {
                        let at = i as int % before.retained.len() as int;
                        lemma_holds_positive(before.retained, at);
                        assert(self.guards()[at].parts() == before.retained[at].key);
                    }
                    guard.deref(map).get() == info.value
                },
                None => true,
            },
            Op::RemoveRetained(i) => match self.release_at(i) {
                Some((info, guard)) => {
                    proof {
                        let at = i as int % before.retained.len() as int;
                        lemma_holds_positive(before.retained, at);
                        assert(old(self).guards()[at].parts() == before.retained[at].key);
                    }
                    let passed = guard.deref(map).get() == info.value;
                    guard.drop(map);
                    passed
                },
                None => true,
            },
            Op::AddRetainedArc(index) => match self.choose_key(index, shared) {
                Some(info) => match map.get_owning(info.key) {
                    Some(guard) => {
                        proof {
                            lemma_found(old(map)@, info@.key);
                        }
                        let passed = guard.deref(map).get() == info.value;
                        self.retain_owning(info, guard);
                        passed
                    },
                    None => false,
                },
                None => true,
            },
            Op::ReadRetainedArc(i) => match self.owning_at(i) {
                Some((info, guard)) => {
                    proof {
                        let at = i as int % before.owning.len() as int;
                        lemma_holds_positive(before.owning, at);
                        assert(self.owning_guards()[at].parts() == before.owning[at].key);
                    }
                    guard.deref(map).get() == info.value
                },
                None => true,
            },
            Op::RemoveRetainedArc(i) => match self.release_owning_at(i) {
                Some((info, guard)) => {
                    proof {
                        let at = i as int % before.owning.len() as int;
                        lemma_holds_positive(before.owning, at);
                        assert(old(self).owning_guards()[at].parts() == before.owning[at].key);
                    }
                    let passed = guard.deref(map).get() == info.value;
                    guard.drop(map);
                    passed
                },
                None => true,
            },
            Op::CheckGraveyard(i) => match self.grave(i) {
                Some(key) => is_missing(map, key),
                None => true,
            },
            Op::RetrieveForged(raw_offset) => is_missing(map, forge(raw_offset)),
        }
    }
}

/// Four workers at a map.
struct Team {
    shared: Vec<KeyInfo>,
    workers: Vec<LocalWorker>,
    /// How many of its operations each worker has done.
    done: Vec<usize>,
}

impl Team {
    /// What the team knows of its map and is to do.
    #[verifier::opaque]
    spec fn crew(&self, map: State<Value>, ops: Seq<Vec<Op>>) -> Crew {
        Crew {
            map,
            shared: infos(self.shared@),
            desks: Seq::new(4, |t: int| self.workers@[t].desk(ops[t]@.skip(self.done@[t] as int))),
        }
    }

    /// The parts of the team fit together.
    spec fn wf(&self, ops: Seq<Vec<Op>>) -> bool {
        &&& self.workers@.len() == 4
        &&& self.done@.len() == 4
        &&& forall|t: int| 0 <= t < 4 ==> (#[trigger] self.workers@[t]).wf()
        &&& forall|t: int| 0 <= t < 4 ==> #[trigger] self.done@[t] <= ops[t]@.len()
    }

    /// Gathers the workers.
    fn new(ops: &[Vec<Op>; 4]) -> (team: Team)
        ensures
            team.wf(ops@),
            forall|map: State<Value>| #[trigger]
                team.crew(map, ops@) == gathered(map, tasks(ops@)),
    {
        proof {
            reveal(Team::crew);
        }
        let mut workers: Vec<LocalWorker> = Vec::new();
        let mut done: Vec<usize> = Vec::new();
        while workers.len() < 4
            invariant
                workers@.len() == done@.len() <= 4,
                forall|t: int|
                    0 <= t < workers@.len() ==> (#[trigger] workers@[t]).wf() && done@[t] == 0,
                forall|t: int, todo: Seq<Op>|
                    0 <= t < workers@.len() ==> #[trigger] workers@[t].desk(todo) == Desk::fresh(
                        todo,
                    ),
            decreases 4 - workers@.len(),
        {
            workers.push(LocalWorker::new());
            done.push(0);
        }
        let team = Team { shared: Vec::new(), workers, done };
        proof {
            assert(infos(team.shared@) =~= Seq::<Info>::empty());
            assert forall|map: State<Value>| #[trigger] team.crew(map, ops@) == gathered(
                map,
                tasks(ops@),
            ) by {
                let first = gathered(map, tasks(ops@));
                assert forall|t: int| 0 <= t < 4 implies team.crew(map, ops@).desks[t]
                    == #[trigger] first.desks[t] by {
                    assert(ops@[t]@.skip(0) =~= ops@[t]@);
                    assert(team.workers@[t].desk(ops@[t]@) == Desk::fresh(ops@[t]@));
                }
                assert(team.crew(map, ops@).desks =~= first.desks);
            }
            assert forall|t: int| 0 <= t < 4 implies #[trigger] team.done@[t] <= ops@[t]@.len() by {
                assert(team.workers@[t].wf());
            }
        }
        team
    }

    /// Which worker goes on, if one is asked first and the others after it.
    fn turn(&self, ops: &[Vec<Op>; 4], first: usize) -> (t: Option<usize>)
        requires
            self.wf(ops@),
        ensures
            forall|map: State<Value>|
                match t {
                    Some(t) => t < 4 && (#[trigger] self.crew(map, ops@)).turn(first as int) == Some(
                        t as int,
                    ) && self.crew(map, ops@).desks[t as int].next() is Some,
                    None => self.crew(map, ops@).turn(first as int) is None && self.crew(
                        map,
                        ops@,
                    ).turn(0) is None,
                },
    {
        proof {
            assert forall|map: State<Value>| #[trigger] self.crew(map, ops@).desks == self.crew(
                arbitrary(),
                ops@,
            ).desks by {
                reveal(Team::crew);
            }
        }
        let a: usize = first % 4;
        let b: usize = (a + 1) % 4;
        let c: usize = (a + 2) % 4;
        let d: usize = (a + 3) % 4;
        let t: Option<usize> = if self.next_op(ops, a).is_some() {
            Some(a)
        } else if self.next_op(ops, b).is_some() {
            Some(b)
        } else if self.next_op(ops, c).is_some() {
            Some(c)
        } else if self.next_op(ops, d).is_some() {
            Some(d)
        } else {
            None
        };
        proof {
            assert forall|map: State<Value>|
                match t {
                    Some(t) => t < 4 && (#[trigger] self.crew(map, ops@)).turn(first as int) == Some(
                        t as int,
                    ) && self.crew(map, ops@).desks[t as int].next() is Some,
                    None => self.crew(map, ops@).turn(first as int) is None && self.crew(
                        map,
                        ops@,
                    ).turn(0) is None,
                } by {
                lemma_turn(self.crew(map, ops@), first as int);
            }
        }
        t
    }

    /// What a worker does next.
    fn next_op(&self, ops: &[Vec<Op>; 4], t: usize) -> (op: Option<Op>)
        requires
            self.wf(ops@),
            t < 4,
        ensures
            forall|map: State<Value>|
                op == (#[trigger] self.crew(map, ops@)).desks[t as int].next(),
    {
        proof {
            reveal(Team::crew);
        }
        assert(self.done@[t as int] <= ops@[t as int]@.len());
        self.workers[t].next_op(&ops[t], self.done[t])
    }

    /// Lets a worker do its next step. Returns whether everything that the step checks holds.
    #[verifier::rlimit(50)]
    fn step(
        &mut self,
        map: &mut AtomicSlotMap<DefaultKey, Value>,
        ops: &[Vec<Op>; 4],
        t: usize,
        op: Op,
    ) -> (passed: bool)
        requires
            old(self).wf(ops@),
            old(map).wf(),
            t < 4,
            old(self).crew(old(map)@, ops@).desks[t as int].next() == Some(op),
            old(self).crew(old(map)@, ops@).focus(t as int).held(),
            old(self).crew(old(map)@, ops@).focus(t as int).allows(op),
        ensures
            final(self).wf(ops@),
            final(map).wf(),
            passed == old(self).crew(old(map)@, ops@).focus(t as int).passes(op),
            final(self).crew(final(map)@, ops@) == old(self).crew(old(map)@, ops@).stepped(
                t as int,
            ),
            final(map).dropped().len() + final(map)@.stored().dom().len() == old(map).dropped().len()
                + old(map)@.stored().dom().len() + (if makes_value(op) {
                1nat
            } else {
                0nat
            }),
    {
        proof {
            reveal(Crew::stepped);
            reveal(Team::crew);
        }
        let ghost here = self.crew(map@, ops@);
        let ghost i = t as int;
        let ghost todo = ops@[i]@.skip(self.done@[i] as int);
        proof {
            assert(self.workers@[i].wf());
            assert(self.done@[i] <= ops@[i]@.len());
            assert(here.focus(i) == self.workers@[i].session(map@, self.shared@));
        }
        let worker = &mut self.workers[t];
        let passed = worker.apply(op, map, &mut self.shared);
        let done: usize = self.done[t];
        if done < ops[t].len() {
            self.done.set(t, done + 1);
        }
        proof {
            let left = ops@[i]@.skip(self.done@[i] as int);
            if done < ops@[i]@.len() {
                assert(left =~= todo.drop_first());
            }
            assert forall|u: int| 0 <= u < 4 implies (#[trigger] self.workers@[u]).wf() by {
                if u != i {
                    assert(self.workers@[u] == old(self).workers@[u]);
                }
            }
            assert forall|u: int| 0 <= u < 4 implies #[trigger] self.done@[u] <= ops@[u]@.len() by {
                if u != i {
                    assert(self.done@[u] == old(self).done@[u]);
                }
            }
            let next = here.stepped(i);
            assert forall|u: int| 0 <= u < 4 implies self.crew(map@, ops@).desks[u]
                == #[trigger] next.desks[u] by {
                if u != i {
                    assert(self.workers@[u] == old(self).workers@[u]);
                } else {
                    assert(self.workers@[i].desk(left) =~= next.desks[i]);
                }
            }
            assert(self.crew(map@, ops@).desks =~= next.desks);
        }
        passed
    }
}

/// How a workload ended.
#[derive(Debug, Clone, Copy, PartialEq, Eq)]
pub struct Outcome {
    /// Whether everything that was checked held.
    pub passed: bool,
    /// How many steps the workers did: their operations, and giving back each guard that was left.
    pub steps: usize,
    /// How many values were made.
    pub made: usize,
    /// How many elements the map had when all workers were done.
    pub elements: usize,
    /// How many values were not dropped once the map was gone.
    pub left: usize,
}

/// The operations of the workers.
pub open spec fn tasks(ops: Seq<Vec<Op>>) -> Seq<Seq<Op>> {
    ops.map_values(|list: Vec<Op>| list@)
}

impl Outcome {
    /// What the outcome says of a workload. Everything that was checked held, all workers are done,
    /// nobody holds a value outside the map, and each value that was made was dropped once: by an
    /// operation, or with the map.
    pub open spec fn tells(self, first: Crew, order: Seq<usize>) -> bool {
        let last = first.played(order, self.steps as nat);
        &&& self.passed == first.passed(order, self.steps as nat)
        &&& self.passed
        &&& last.turn(0) is None
        &&& self.made == first.made(order, self.steps as nat)
        &&& self.elements == last.map.num_elems
        &&& last.map.stored().dom() == last.map.live().dom()
        &&& self.elements == last.map.stored().dom().len()
        &&& self.made == first.dropped(order, self.steps as nat) + self.elements
        &&& self.left == 0
    }
}

/// Lets four workers use an empty map in an order, and lets the map go. The order says for each step
/// which worker is asked first whether it has something to do.
#[verifier::rlimit(50)]
pub fn exercise(
    map: &mut AtomicSlotMap<DefaultKey, Value>,
    ops: &[Vec<Op>; 4],
    order: &Vec<usize>,
    dtor: Destructor,
) -> (outcome: Outcome)
    requires
        old(map).wf(),
        old(map)@.slots.len() == 0,
        gathered(old(map)@, tasks(ops@)).todo() <= MAX_OPS,
    ensures
        outcome.tells(gathered(old(map)@, tasks(ops@)), order@),
        final(map).wf(),
        final(map)@ == State::<Value>::empty(no_chunks()),
        outcome.left == final(map)@.stored().dom().len(),
        // The destructor of each value that was made was run once.
        final(map).dropped().len() == old(map).dropped().len() + outcome.made,
{
    let ghost first = gathered(map@, tasks(ops@));
    let mut team = Team::new(ops);
    let mut passed = true;
    let mut steps: usize = 0;
    let mut made: usize = 0;
    let ghost mut n: nat = 0;
    proof {
        lemma_gathered_ok(map@, tasks(ops@));
        assert(team.crew(map@, ops@) == first);
    }
    loop
        invariant_except_break
            first.todo() <= MAX_OPS,
            first.load() <= 2 * MAX_OPS,
            n + team.crew(map@, ops@).todo() == first.todo(),
            steps + team.crew(map@, ops@).load() <= first.load(),
        invariant
            map.wf(),
            team.wf(ops@),
            team.crew(map@, ops@).ok(n),
            team.crew(map@, ops@) == first.played(order@, steps as nat),
            team.crew(map@, ops@).map == map@,
            passed == first.passed(order@, steps as nat),
            passed,
            made <= steps,
            made == first.made(order@, steps as nat),
            made == first.dropped(order@, steps as nat) + map@.stored().dom().len(),
            map.dropped().len() + map@.stored().dom().len() == old(map).dropped().len() + made,
        ensures
            team.crew(map@, ops@).turn(0) is None,
        decreases team.crew(map@, ops@).load(),
    {
        let ghost here = team.crew(map@, ops@);
        let asked: usize = if steps < order.len() {
            order[steps]
        } else {
            0
        };
        let next = team.turn(ops, asked);
        let (t, op) = match next {
            Some(t) => match team.next_op(ops, t) {
                Some(op) => (t, op),
                None => {
                    break ;
                },
            },
            None => {
                break ;
            },
        };
        proof {
            lemma_stepped_ok(here, t as int, n);
        }
        if !team.step(map, ops, t, op) {
            passed = false;
        }
        match op {
            Op::Insert(_) => {
                made = made + 1;
            },
            Op::InsertWithKey(_) => {
                made = made + 1;
            },
            _ => {},
        }
        steps = steps + 1;
        proof {
            n = done_after(here, t as int, n);
            assert(team.crew(map@, ops@).map == map@) by {
                reveal(Team::crew);
            }
        }
    }
    proof {
        lemma_done(team.crew(map@, ops@), n);
    }
    let ghost last = map@;
    let ghost before = map.dropped();
    let elements: usize = map.lossy_len();
    match dtor {
        Destructor::LetDrop => {
            map.drop();
        },
    }
    proof {
        assert(map@.stored().dom() =~= Set::<KeyView>::empty());
        let gone = choose|gone: Seq<Value>|
            map.dropped() == #[trigger] (before + gone) && lists(gone, last.live());
        lemma_lists_len(gone, last.live());
    }
    Outcome { passed, steps, made, elements, left: map.stored_len() }
}

/// Makes a map, lets four workers use it in an order, and lets the map go. The order says for each
/// step which worker is asked first whether it has something to do.
///
/// Here each operation is done as a whole. That the checks hold as well when the workers are threads,
/// whose operations interrupt each other at any step, is
/// [`lemma_every_interleaving_passes`](crate::turns::lemma_every_interleaving_passes).
pub fn fuzz(data: Target, order: &Vec<usize>) -> (outcome: Outcome)
    requires
        hired(data.ctor, tasks(data.ops@)).todo() <= MAX_OPS,
    ensures
        outcome.tells(hired(data.ctor, tasks(data.ops@)), order@),
{
    let mut map: AtomicSlotMap<DefaultKey, Value> = match data.ctor {
        Constructor::New => AtomicSlotMap::new(),
        Constructor::WithCapacity(n) => {
            proof {
                if n > 0 {
                    lemma_chunk_addressable(n - 1);
                }
            }
            AtomicSlotMap::with_capacity(n as usize)
        },
    };
    exercise(&mut map, &data.ops, order, data.dtor)
}

} // verus!
