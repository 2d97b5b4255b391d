//! What the operations of a worker check and do, in terms of what is in the map and who holds what.
#[allow(unused_imports)]
use crate::crew::{wanted, Crew, Desk};
#[allow(unused_imports)]
use crate::fuzz::{lemma_value, Index, Op, Value};
#[allow(unused_imports)]
use crate::laws::lemma_live_is_stored;
#[allow(unused_imports)]
use crate::session::{forged, Info, Session};
#[allow(unused_imports)]
use crate::settled::{lemma_inserted, lemma_referenced, lemma_released, lemma_removed};
#[allow(unused_imports)]
use crate::util::KeyView;
#[allow(unused_imports)]
use vstd::prelude::*;

verus! {

/// The entry that a number means in a list that is not empty: the list is gone through again and again.
pub open spec fn entry(list: Seq<Info>, raw: usize) -> Info {
    list[raw as int % list.len() as int]
}

/// The list that an index means, and the number in it.
pub open spec fn list_of(s: Session, index: Index) -> (Seq<Info>, usize) {
    match index {
        Index::Shared(i) => (s.shared, i),
        Index::Private(i) => (s.private, i),
    }
}

/// Whether a key leads to the expected value.
pub open spec fn leads(s: Session, info: Info) -> bool {
    s.map.live().contains_key(info.key) && s.map.live()[info.key].number() == info.value
}

/// Whether the value of a guard is the expected one.
pub open spec fn guards_value(s: Session, info: Info) -> bool {
    s.map.stored().contains_key(info.key) && s.map.stored()[info.key].number() == info.value
}

/// What each operation checks. A removal checks that the key is there, a lookup that the key leads to the
/// expected value, a look at a guard that the value is the expected one, and the rest that a key is missing.
#[verifier::rlimit(50)]
pub proof fn lemma_what_is_checked(s: Session, op: Op)
    ensures
        match op {
            Op::Remove(index) => {
                let (list, i) = list_of(s, index);
                s.passes(op) == (list.len() > 0 ==> s.map.live().contains_key(entry(list, i).key))
            },
            Op::RemoveToGraveyard(index, _) => {
                let (list, i) = list_of(s, index);
                s.passes(op) == (list.len() > 0 ==> s.map.live().contains_key(entry(list, i).key))
            },
            Op::Retrieve(index) => {
                let (list, i) = list_of(s, index);
                s.passes(op) == (list.len() > 0 ==> leads(s, entry(list, i)))
            },
            Op::AddRetained(index) => {
                let (list, i) = list_of(s, index);
                s.passes(op) == (list.len() > 0 ==> leads(s, entry(list, i)))
            },
            Op::AddRetainedArc(index) => {
                let (list, i) = list_of(s, index);
                s.passes(op) == (list.len() > 0 ==> leads(s, entry(list, i)))
            },
            Op::ReadRetained(i) => s.passes(op) == (s.retained.len() > 0 ==> guards_value(
                s,
                entry(s.retained, i),
            )),
            Op::RemoveRetained(i) => s.passes(op) == (s.retained.len() > 0 ==> guards_value(
                s,
                entry(s.retained, i),
            )),
            Op::ReadRetainedArc(i) => s.passes(op) == (s.owning.len() > 0 ==> guards_value(
                s,
                entry(s.owning, i),
            )),
            Op::RemoveRetainedArc(i) => s.passes(op) == (s.owning.len() > 0 ==> guards_value(
                s,
                entry(s.owning, i),
            )),
            Op::CheckGraveyard(i) => s.passes(op) == (s.graveyard.len() > 0
                ==> !s.map.live().contains_key(entry(s.graveyard, i).key)),
            Op::RetrieveForged(raw) => exists|key: KeyView|
                key.idx == 0x7000_0000 + raw % 10000 && s.passes(op) == !(#[trigger] s.map.live()
                    .contains_key(key)),
            _ => s.passes(op),
        },
{
    match op {
        Op::RetrieveForged(raw) => {
            assert(s.map.live().contains_key(forged(raw)) == s.map.contains(forged(raw)));
        },
        _ => {},
    }
}

/// Whether two sessions differ in the map alone.
pub open spec fn same_lists(s: Session, n: Session) -> bool {
    n.shared == s.shared && n.private == s.private && n.retained == s.retained && n.owning
        == s.owning && n.graveyard == s.graveyard
}

/// Whether an entry was taken out of the list that an index means.
pub open spec fn taken_out(s: Session, n: Session, index: Index) -> bool {
    match index {
        Index::Shared(i) => n.shared == s.shared.remove(i as int % s.shared.len() as int) && n.private
            == s.private,
        Index::Private(i) => n.private == s.private.remove(i as int % s.private.len() as int)
            && n.shared == s.shared,
    }
}

/// Whether one key has so many guards more, and nothing else changed in the map.
pub open spec fn guards_change(s: Session, n: Session, key: KeyView, by: int) -> bool {
    &&& n.map.live() == s.map.live()
    &&& forall|k: KeyView| #[trigger]
        n.map.guards(k) == s.map.guards(k) + (if k == key {
            by
        } else {
            0
        })
}

/// An insertion puts the value under a key that was not there, and the worker writes the key down.
#[verifier::rlimit(50)]
pub proof fn lemma_insertion_is_remembered(s: Session, value: u32)
    requires
        s.map.settled(),
        !s.map.full(),
    ensures
        s.applied(Op::InsertWithKey(value)) == s.applied(Op::Insert(value)),
        ({
            let n = s.applied(Op::Insert(value));
            let info = n.private.last();
            &&& n.private == s.private.push(info)
            &&& info.value == value
            &&& !s.map.live().contains_key(info.key)
            &&& n.map.live() == s.map.live().insert(info.key, n.map.live()[info.key])
            &&& n.map.live()[info.key].number() == value
            &&& n.shared == s.shared && n.retained == s.retained && n.owning == s.owning
                && n.graveyard == s.graveyard
        }),
{
    let n = s.applied(Op::Insert(value));
    lemma_inserted(s.map, Value::of(value));
    lemma_value(value);
    assert(n.private.last() == (Info { key: s.map.next_key(), value }));
    assert(n.map.live() =~= s.map.live().insert(
        s.map.next_key(),
        n.map.live()[s.map.next_key()],
    ));
}

/// A removal takes the entry out of its list and the key out of the map, and a key that is to be buried is
/// written down.
#[verifier::rlimit(50)]
pub proof fn lemma_removal_takes_out(s: Session, index: Index, flag: bool)
    requires
        s.map.settled(),
        list_of(s, index).0.len() > 0,
    ensures
        ({
            let info = entry(list_of(s, index).0, list_of(s, index).1);
            let n = s.applied(Op::Remove(index));
            let b = s.applied(Op::RemoveToGraveyard(index, flag));
            &&& n.map.live() == s.map.live().remove(info.key)
            &&& taken_out(s, n, index)
            &&& n.retained == s.retained && n.owning == s.owning && n.graveyard == s.graveyard
            &&& b.map == n.map
            &&& taken_out(s, b, index)
            &&& b.retained == s.retained && b.owning == s.owning
            &&& b.graveyard == s.graveyard.push(info)
        }),
{
    let info = entry(list_of(s, index).0, list_of(s, index).1);
    assert(s.chosen(index) == info);
    lemma_removed(s.map, info.key);
}

/// A lookup changes nothing, unless the guard is kept: then the key has one guard more, and the worker
/// writes the entry down beside it.
#[verifier::rlimit(50)]
pub proof fn lemma_lookup_keeps(s: Session, index: Index)
    requires
        s.map.settled(),
        list_of(s, index).0.len() > 0,
        leads(s, entry(list_of(s, index).0, list_of(s, index).1)),
        s.map.may_acquire(entry(list_of(s, index).0, list_of(s, index).1).key),
    ensures
        ({
            let info = entry(list_of(s, index).0, list_of(s, index).1);
            let n = s.applied(Op::AddRetained(index));
            let o = s.applied(Op::AddRetainedArc(index));
            &&& s.applied(Op::Retrieve(index)) == s
            &&& guards_change(s, n, info.key, 1)
            &&& n.retained == s.retained.push(info)
            &&& n.shared == s.shared && n.private == s.private && n.owning == s.owning
                && n.graveyard == s.graveyard
            &&& o.map == n.map
            &&& o.owning == s.owning.push(info)
            &&& o.shared == s.shared && o.private == s.private && o.retained == s.retained
                && o.graveyard == s.graveyard
        }),
{
    let info = entry(list_of(s, index).0, list_of(s, index).1);
    assert(s.chosen(index) == info);
    lemma_live_is_stored(s.map, info.key);
    assert(s.map.stores(info.key));
    lemma_referenced(s.map, info.key);
}

/// A guard that is given back is one guard fewer, and the worker crosses the entry out.
#[verifier::rlimit(50)]
pub proof fn lemma_release_crosses_out(s: Session, i: usize)
    requires
        s.map.settled(),
    ensures
        s.retained.len() > 0 && s.map.guards(entry(s.retained, i).key) > 0 ==> {
            let n = s.applied(Op::RemoveRetained(i));
            &&& guards_change(s, n, entry(s.retained, i).key, -1)
            &&& n.retained == s.retained.remove(i as int % s.retained.len() as int)
            &&& n.shared == s.shared && n.private == s.private && n.owning == s.owning
                && n.graveyard == s.graveyard
        },
        s.owning.len() > 0 && s.map.guards(entry(s.owning, i).key) > 0 ==> {
            let n = s.applied(Op::RemoveRetainedArc(i));
            &&& guards_change(s, n, entry(s.owning, i).key, -1)
            &&& n.owning == s.owning.remove(i as int % s.owning.len() as int)
            &&& n.shared == s.shared && n.private == s.private && n.retained == s.retained
                && n.graveyard == s.graveyard
        },
{
    if s.retained.len() > 0 && s.map.guards(entry(s.retained, i).key) > 0 {
        lemma_released(s.map, entry(s.retained, i).key);
    }
    if s.owning.len() > 0 && s.map.guards(entry(s.owning, i).key) > 0 {
        lemma_released(s.map, entry(s.owning, i).key);
    }
}

/// A key that is made known moves from the worker's list to the end of the shared one. Whatever only looks
/// changes nothing, and so does every operation on an empty list.
#[verifier::rlimit(50)]
pub proof fn lemma_the_rest_only_looks(s: Session, op: Op)
    ensures
        match op {
            Op::Publish(i) => {
                let n = s.applied(op);
                if s.private.len() == 0 {
                    n == s
                } else {
                    &&& n.map == s.map
                    &&& n.shared == s.shared.push(entry(s.private, i))
                    &&& n.private == s.private.remove(i as int % s.private.len() as int)
                    &&& n.retained == s.retained && n.owning == s.owning && n.graveyard
                        == s.graveyard
                }
            },
            Op::Reserve(_) => {
                let n = s.applied(op);
                same_lists(s, n) && n.map.slots == s.map.slots
            },
            Op::Retrieve(_) => s.applied(op) == s,
            Op::ReadRetained(_) => s.applied(op) == s,
            Op::ReadRetainedArc(_) => s.applied(op) == s,
            Op::CheckGraveyard(_) => s.applied(op) == s,
            Op::RetrieveForged(_) => s.applied(op) == s,
            Op::Remove(index) => list_of(s, index).0.len() == 0 ==> s.applied(op) == s,
            Op::RemoveToGraveyard(index, _) => list_of(s, index).0.len() == 0 ==> s.applied(op) == s,
            Op::AddRetained(index) => list_of(s, index).0.len() == 0 ==> s.applied(op) == s,
            Op::AddRetainedArc(index) => list_of(s, index).0.len() == 0 ==> s.applied(op) == s,
            Op::RemoveRetained(_) => s.retained.len() == 0 ==> s.applied(op) == s,
            Op::RemoveRetainedArc(_) => s.owning.len() == 0 ==> s.applied(op) == s,
            _ => true,
        },
{
}

/// A worker is done exactly if it has no operation left and holds no guard.
pub proof fn lemma_done_worker_holds_nothing(desk: Desk)
    ensures
        desk.next() is None == (desk.todo.len() == 0 && desk.retained.len() == 0
            && desk.owning.len() == 0),
        desk.todo.len() > 0 ==> desk.next() == Some(desk.todo[0]),
{
}

/// A step of a worker is its next operation, which is then off its list, and nothing happens to the desks of
/// the others.
pub proof fn lemma_step_is_one_operation(crew: Crew, t: int)
    requires
        crew.desks.len() == 4,
        0 <= t < 4,
        crew.desks[t].next() is Some,
    ensures
        crew.stepped(t).focus(t) == crew.focus(t).applied(crew.desks[t].next()->0),
        crew.stepped(t).desks[t].todo == (if crew.desks[t].todo.len() > 0 {
            crew.desks[t].todo.drop_first()
        } else {
            crew.desks[t].todo
        }),
        crew.stepped(t).desks.len() == 4,
        forall|u: int| 0 <= u < 4 && u != t ==> #[trigger] crew.stepped(t).desks[u] == crew.desks[u],
{
    reveal(Crew::stepped);
}

/// Some steps of the workers are one after the other, each of the worker whose turn it is, and they pass if
/// each of them does.
pub proof fn lemma_workload_passes_if_each_step_does(crew: Crew, order: Seq<usize>, steps: nat)
    ensures
        crew.played(order, 0) == crew,
        forall|k: nat|
            k < steps ==> #[trigger] crew.played(order, k + 1) == crew.played(order, k).stepped(
                crew.played(order, k).turn(wanted(order, k as int))->0,
            ),
        crew.passed(order, steps) == (forall|k: nat|
            k < steps ==> {
                let here = #[trigger] crew.played(order, k);
                let t = here.turn(wanted(order, k as int))->0;
                here.focus(t).passes(here.desks[t].next()->0)
            }),
    decreases steps,
{
    if steps > 0 {
        let last = (steps - 1) as nat;
        lemma_workload_passes_if_each_step_does(crew, order, last);
        let here = crew.played(order, last);
        assert(crew.played(order, steps) == here.stepped(here.turn(wanted(order, last as int))->0));
        let here_passes = {
            let t = here.turn(wanted(order, last as int))->0;
            here.focus(t).passes(here.desks[t].next()->0)
        };
        assert(crew.passed(order, steps) == (crew.passed(order, last) && here_passes));
        assert forall|k: nat| k < steps implies #[trigger] crew.played(order, k + 1) == crew.played(
            order,
            k,
        ).stepped(crew.played(order, k).turn(wanted(order, k as int))->0) by {
            if k == last {
                assert(k + 1 == steps);
            }
        }
    }
}

} // verus!
