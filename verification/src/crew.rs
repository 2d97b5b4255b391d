//! Four workers on one map, whose operations come in any order.
#[allow(unused_imports)]
use crate::fuzz::{Constructor, Op, Value};
#[allow(unused_imports)]
use crate::session::{
    constructed, holds, lemma_applied_ok, lemma_applied_values, lemma_give_back_ok,
    lemma_holds_positive, lemma_ok_held, lost, makes_value, Info, Rest, Session, MAX_OPS,
};
#[allow(unused_imports)]
use crate::state::State;
#[allow(unused_imports)]
use crate::util::KeyView;
#[allow(unused_imports)]
use vstd::prelude::*;

verus! {

/// What one worker knows and holds, and what it is to do.
#[verifier::ext_equal]
pub struct Desk {
    /// The operations that are left.
    pub todo: Seq<Op>,
    /// The keys that only this worker knows.
    pub private: Seq<Info>,
    /// The keys of the guards that this worker holds.
    pub retained: Seq<Info>,
    /// The keys of the clonable guards that this worker holds.
    pub owning: Seq<Info>,
    /// The keys that this worker removed.
    pub graveyard: Seq<Info>,
}

impl Desk {
    /// A worker that knows nothing.
    pub open spec fn fresh(todo: Seq<Op>) -> Self {
        Desk {
            todo,
            private: Seq::empty(),
            retained: Seq::empty(),
            owning: Seq::empty(),
            graveyard: Seq::empty(),
        }
    }

    /// What the worker does next: its operations, and then it gives its guards back.
    pub open spec fn next(self) -> Option<Op> {
        if self.todo.len() > 0 {
            Some(self.todo[0])
        } else if self.owning.len() > 0 {
            Some(Op::RemoveRetainedArc(0))
        } else if self.retained.len() > 0 {
            Some(Op::RemoveRetained(0))
        } else {
            None
        }
    }

    /// How many guards of a key the worker holds.
    pub open spec fn guards(self, key: KeyView) -> nat {
        holds(self.retained, key) + holds(self.owning, key)
    }

    /// An upper bound on what the worker does before it is done.
    pub open spec fn load(self) -> nat {
        2 * self.todo.len() + self.owning.len() + self.retained.len()
    }

    /// Whether the worker has a guard of the key with the expected value.
    pub open spec fn keeps(self, info: Info) -> bool {
        ||| exists|i: int| 0 <= i < self.retained.len() && #[trigger] self.retained[i] == info
        ||| exists|i: int| 0 <= i < self.owning.len() && #[trigger] self.owning[i] == info
    }
}

/// A map, the keys that all workers know, and the workers.
#[verifier::ext_equal]
pub struct Crew {
    pub map: State<Value>,
    pub shared: Seq<Info>,
    pub desks: Seq<Desk>,
}

impl Crew {
    /// The map, with worker `t` as the one that counts.
    pub open spec fn focus(self, t: int) -> Session {
        Session {
            map: self.map,
            shared: self.shared,
            private: self.desks[t].private,
            retained: self.desks[t].retained,
            owning: self.desks[t].owning,
            graveyard: self.desks[t].graveyard,
        }
    }

    /// The workers after worker `t` went on.
    pub open spec fn with(self, t: int, session: Session, todo: Seq<Op>) -> Self {
        Crew {
            map: session.map,
            shared: session.shared,
            desks: self.desks.update(
                t,
                Desk {
                    todo,
                    private: session.private,
                    retained: session.retained,
                    owning: session.owning,
                    graveyard: session.graveyard,
                },
            ),
        }
    }

    /// How many guards of a key all workers hold.
    pub open spec fn guards(self, key: KeyView) -> nat {
        self.desks[0].guards(key) + self.desks[1].guards(key) + self.desks[2].guards(key)
            + self.desks[3].guards(key)
    }

    /// How many operations are left.
    pub open spec fn todo(self) -> nat {
        self.desks[0].todo.len() + self.desks[1].todo.len() + self.desks[2].todo.len()
            + self.desks[3].todo.len()
    }

    /// An upper bound on what the workers do before all are done.
    pub open spec fn load(self) -> nat {
        self.desks[0].load() + self.desks[1].load() + self.desks[2].load() + self.desks[3].load()
    }

    /// What the workers other than `t` know and hold.
    pub open spec fn rest(self, t: int) -> Rest {
        Rest {
            known: Set::new(
                |info: Info|
                    exists|u: int, i: int|
                        0 <= u < 4 && u != t && 0 <= i < self.desks[u].private.len()
                            && #[trigger] self.desks[u].private[i] == info,
            ),
            kept: Set::new(
                |info: Info|
                    exists|u: int| 0 <= u < 4 && u != t && #[trigger] self.desks[u].keeps(info),
            ),
            held: |key: KeyView| (self.guards(key) - self.desks[t].guards(key)) as nat,
            graves: Set::new(
                |key: KeyView|
                    exists|u: int, i: int|
                        0 <= u < 4 && u != t && 0 <= i < self.desks[u].graveyard.len() && (
                        #[trigger] self.desks[u].graveyard[i]).key == key,
            ),
        }
    }

    /// What holds after `n` operations: the workers know what is in the map.
    #[verifier::opaque]
    pub open spec fn ok(self, n: nat) -> bool {
        &&& self.desks.len() == 4
        &&& forall|t: int| 0 <= t < 4 ==> (#[trigger] self.focus(t)).ok(self.rest(t), n)
    }

    /// The next step of worker `t`.
    #[verifier::opaque]
    pub open spec fn stepped(self, t: int) -> Self {
        let desk = self.desks[t];
        self.with(
            t,
            self.focus(t).applied(desk.next()->0),
            if desk.todo.len() > 0 {
                desk.todo.drop_first()
            } else {
                desk.todo
            },
        )
    }

    /// Which worker goes on, if worker `wanted` is asked first and the others after it.
    #[verifier::opaque]
    pub open spec fn turn(self, wanted: int) -> Option<int> {
        if self.desks[wanted % 4].next() is Some {
            Some(wanted % 4)
        } else if self.desks[(wanted + 1) % 4].next() is Some {
            Some((wanted + 1) % 4)
        } else if self.desks[(wanted + 2) % 4].next() is Some {
            Some((wanted + 2) % 4)
        } else if self.desks[(wanted + 3) % 4].next() is Some {
            Some((wanted + 3) % 4)
        } else {
            None
        }
    }

    /// The workers after some steps, in an order.
    pub open spec fn played(self, order: Seq<usize>, steps: nat) -> Self
        decreases steps,
    {
        if steps == 0 {
            self
        } else {
            let before = self.played(order, (steps - 1) as nat);
            before.stepped(before.turn(wanted(order, steps - 1))->0)
        }
    }

    /// Whether everything that is checked in some steps holds.
    pub open spec fn passed(self, order: Seq<usize>, steps: nat) -> bool
        decreases steps,
    {
        if steps == 0 {
            true
        } else {
            let before = self.played(order, (steps - 1) as nat);
            let t = before.turn(wanted(order, steps - 1))->0;
            self.passed(order, (steps - 1) as nat) && before.focus(t).passes(
                before.desks[t].next()->0,
            )
        }
    }
}

impl Crew {
    /// How many values are made in some steps.
    pub open spec fn made(self, order: Seq<usize>, steps: nat) -> nat
        decreases steps,
    {
        if steps == 0 {
            0
        } else {
            let before = self.played(order, (steps - 1) as nat);
            let t = before.turn(wanted(order, steps - 1))->0;
            self.made(order, (steps - 1) as nat) + (if makes_value(before.desks[t].next()->0) {
                1nat
            } else {
                0nat
            })
        }
    }

    /// How many values are dropped in some steps.
    pub open spec fn dropped(self, order: Seq<usize>, steps: nat) -> nat
        decreases steps,
    {
        if steps == 0 {
            0
        } else {
            self.dropped(order, (steps - 1) as nat) + lost(
                self.played(order, (steps - 1) as nat).map,
                self.played(order, steps).map,
            ).len()
        }
    }
}

/// Which worker is asked first at a step. Behind the end of the order it is the first one.
pub open spec fn wanted(order: Seq<usize>, step: int) -> int {
    if 0 <= step < order.len() {
        order[step] as int
    } else {
        0
    }
}

/// A map and the workers at the beginning.
pub open spec fn gathered(map: State<Value>, ops: Seq<Seq<Op>>) -> Crew {
    Crew { map, shared: Seq::empty(), desks: Seq::new(4, |t: int| Desk::fresh(ops[t])) }
}

/// The map that a workload asks for and the workers at the beginning.
pub open spec fn hired(ctor: Constructor, ops: Seq<Seq<Op>>) -> Crew {
    gathered(constructed(ctor), ops)
}

/// Asking the workers in a circle.
#[verifier::rlimit(50)]
pub proof fn lemma_turn(crew: Crew, first: int)
    requires
        0 <= first,
    ensures
        ({
            let a = first % 4;
            let b = (a + 1) % 4;
            let c = (a + 2) % 4;
            let d = (a + 3) % 4;
            crew.turn(first) == (if crew.desks[a].next() is Some {
                Some(a)
            } else if crew.desks[b].next() is Some {
                Some(b)
            } else if crew.desks[c].next() is Some {
                Some(c)
            } else if crew.desks[d].next() is Some {
                Some(d)
            } else {
                None
            })
        }),
        crew.turn(first) is None ==> crew.turn(0) is None,
        crew.turn(first) matches Some(t) ==> 0 <= t < 4 && crew.desks[t].next() is Some,
{
    reveal(Crew::turn);
    let a = first % 4;
    assert((first + 1) % 4 == (a + 1) % 4);
    assert((first + 2) % 4 == (a + 2) % 4);
    assert((first + 3) % 4 == (a + 3) % 4);
    assert(a == 0 || a == 1 || a == 2 || a == 3);
}

/// What one worker and the others know together is what all know, whoever counts.
#[verifier::rlimit(50)]
proof fn lemma_refocus(crew: Crew, t: int, session: Session, todo: Seq<Op>, n: nat, m: nat)
    requires
        crew.ok(n),
        0 <= t < 4,
        session.ok(crew.rest(t), m),
    ensures
        crew.with(t, session, todo).ok(m),
{
    reveal(Crew::ok);
    let next = crew.with(t, session, todo);
    assert forall|u: int| 0 <= u < 4 implies (#[trigger] next.focus(u)).ok(next.rest(u), m) by {
        assert(crew.focus(u).ok(crew.rest(u), n));
        assert(crew.focus(t).ok(crew.rest(t), n));
        if u == t {
            assert(next.focus(t) == session);
            lemma_same_rest(crew, next, t);
        } else {
            lemma_other(crew, t, session, todo, n, m, u);
        }
    }
}

/// The others are the same.
proof fn lemma_same_rest(crew: Crew, next: Crew, t: int)
    requires
        crew.desks.len() == 4,
        0 <= t < 4,
        next.desks == crew.desks.update(t, next.desks[t]),
    ensures
        next.rest(t) == crew.rest(t),
{
    assert forall|u: int| 0 <= u < 4 && u != t implies #[trigger] next.desks[u]
        == crew.desks[u] by {}
    lemma_rest_within(crew, next, t);
    lemma_rest_within(next, crew, t);
    assert(next.rest(t).known =~= crew.rest(t).known);
    assert(next.rest(t).kept =~= crew.rest(t).kept);
    assert(next.rest(t).graves =~= crew.rest(t).graves);
    assert(next.rest(t).held =~= crew.rest(t).held);
}

/// What the others know and hold, the same others know and hold.
#[verifier::rlimit(50)]
proof fn lemma_rest_within(crew: Crew, next: Crew, t: int)
    requires
        0 <= t < 4,
        forall|u: int| 0 <= u < 4 && u != t ==> #[trigger] next.desks[u] == crew.desks[u],
    ensures
        crew.rest(t).known.subset_of(next.rest(t).known),
        crew.rest(t).kept.subset_of(next.rest(t).kept),
        crew.rest(t).graves.subset_of(next.rest(t).graves),
{
    assert forall|info: Info| #[trigger] crew.rest(t).known.contains(info) implies next.rest(
        t,
    ).known.contains(info) by {
        let (u, i) = choose|u: int, i: int|
            0 <= u < 4 && u != t && 0 <= i < crew.desks[u].private.len()
                && #[trigger] crew.desks[u].private[i] == info;
        assert(next.desks[u].private[i] == info);
    }
    assert forall|info: Info| #[trigger] crew.rest(t).kept.contains(info) implies next.rest(
        t,
    ).kept.contains(info) by {
        let u = choose|u: int| 0 <= u < 4 && u != t && #[trigger] crew.desks[u].keeps(info);
        assert(next.desks[u].keeps(info));
    }
    assert forall|key: KeyView| #[trigger] crew.rest(t).graves.contains(key) implies next.rest(
        t,
    ).graves.contains(key) by {
        let (u, i) = choose|u: int, i: int|
            0 <= u < 4 && u != t && 0 <= i < crew.desks[u].graveyard.len() && (
            #[trigger] crew.desks[u].graveyard[i]).key == key;
        assert(next.desks[u].graveyard[i].key == key);
    }
}

/// What a worker keeps is counted.
proof fn lemma_keeps_counted(desk: Desk, info: Info)
    requires
        desk.keeps(info),
    ensures
        desk.guards(info.key) > 0,
{
    if exists|i: int| 0 <= i < desk.retained.len() && #[trigger] desk.retained[i] == info {
        let i = choose|i: int| 0 <= i < desk.retained.len() && #[trigger] desk.retained[i] == info;
        lemma_holds_positive(desk.retained, i);
    } else {
        let i = choose|i: int| 0 <= i < desk.owning.len() && #[trigger] desk.owning[i] == info;
        lemma_holds_positive(desk.owning, i);
    }
}

/// No more guards are one worker's than all workers'.
proof fn lemma_guards_of_one(crew: Crew, t: int, key: KeyView)
    requires
        0 <= t < 4,
    ensures
        crew.desks[t].guards(key) <= crew.guards(key),
        forall|u: int|
            0 <= u < 4 && u != t ==> (#[trigger] crew.desks[u]).guards(key) + crew.desks[t].guards(
                key,
            ) <= crew.guards(key),
{
}

/// What another worker knows still holds, and what it does not know.
#[verifier::rlimit(80)]
proof fn lemma_other(
    crew: Crew,
    t: int,
    session: Session,
    todo: Seq<Op>,
    n: nat,
    m: nat,
    u: int,
)
    requires
        crew.ok(n),
        0 <= t < 4,
        0 <= u < 4,
        u != t,
        session.ok(crew.rest(t), m),
    ensures
        crew.with(t, session, todo).focus(u).ok(crew.with(t, session, todo).rest(u), m),
{
    reveal(Crew::ok);
    let next = crew.with(t, session, todo);
    let f = next.focus(u);
    let desk = crew.desks[u];
    let rest = crew.rest(t);
    reveal(Session::ok);
    assert(crew.focus(u).ok(crew.rest(u), n));
    assert forall|i: int| 0 <= i < f.private.len() implies f.finds(#[trigger] f.private[i])
        && session.absent(f.private[i].key) by {
        assert(crew.desks[u].private[i] == f.private[i]);
        assert(rest.known.contains(f.private[i]));
    }
    assert forall|i: int| 0 <= i < f.shared.len() implies f.finds(#[trigger] f.shared[i]) by {
        assert(session.finds(session.shared[i]));
    }
    assert forall|i: int, j: int| 0 <= i < j < f.private.len() implies (
    #[trigger] f.private[i]).key != (#[trigger] f.private[j]).key by {
        assert(crew.focus(u).private[i].key != crew.focus(u).private[j].key);
    }
    assert forall|i: int| 0 <= i < f.retained.len() implies f.reads(#[trigger] f.retained[i]) by {
        assert(desk.retained[i] == f.retained[i]);
        assert(desk.keeps(f.retained[i]));
        assert(rest.kept.contains(f.retained[i]));
        assert(session.reads(f.retained[i]));
    }
    assert forall|i: int| 0 <= i < f.owning.len() implies f.reads(#[trigger] f.owning[i]) by {
        assert(desk.owning[i] == f.owning[i]);
        assert(desk.keeps(f.owning[i]));
        assert(rest.kept.contains(f.owning[i]));
        assert(session.reads(f.owning[i]));
    }
    assert forall|key: KeyView| #[trigger] f.map.guards(key) == holds(f.retained, key) + holds(
        f.owning,
        key,
    ) + (next.rest(u).held)(key) by {
        lemma_guards_of_one(crew, t, key);
        lemma_guards_of_one(next, u, key);
        assert(session.map.guards(key) == holds(session.retained, key) + holds(
            session.owning,
            key,
        ) + (rest.held)(key));
    }
    assert forall|i: int| 0 <= i < f.graveyard.len() implies f.buried(
        #[trigger] f.graveyard[i].key,
    ) by {
        assert(crew.desks[u].graveyard[i].key == f.graveyard[i].key);
        assert(rest.graves.contains(f.graveyard[i].key));
        assert(session.buried(f.graveyard[i].key));
    }
    lemma_other_rest(crew, t, session, todo, n, m, u);
}

/// What the workers other than another one know still holds.
#[verifier::rlimit(80)]
proof fn lemma_other_rest(
    crew: Crew,
    t: int,
    session: Session,
    todo: Seq<Op>,
    n: nat,
    m: nat,
    u: int,
)
    requires
        crew.ok(n),
        0 <= t < 4,
        0 <= u < 4,
        u != t,
        session.ok(crew.rest(t), m),
    ensures
        crew.with(t, session, todo).focus(u).rest_ok(crew.with(t, session, todo).rest(u)),
{
    reveal(Crew::ok);
    let next = crew.with(t, session, todo);
    let f = next.focus(u);
    let rest = crew.rest(t);
    reveal(Session::ok);
    assert(crew.focus(u).ok(crew.rest(u), n));
    assert forall|info: Info| #[trigger] next.rest(u).known.contains(info) implies f.finds(info)
        && f.absent(info.key) by {
        let (v, i) = choose|v: int, i: int|
            0 <= v < 4 && v != u && 0 <= i < next.desks[v].private.len()
                && #[trigger] next.desks[v].private[i] == info;
        if v == t {
            assert(session.private[i] == info);
            assert(session.finds(info));
        } else {
            assert(crew.desks[v].private[i] == info);
            assert(rest.known.contains(info));
            assert(crew.rest(u).known.contains(info));
            assert(crew.focus(u).absent(info.key));
        }
        assert forall|j: int| 0 <= j < f.private.len() implies (#[trigger] f.private[j]).key
            != info.key by {
            let other = f.private[j];
            assert(crew.desks[u].private[j] == other);
            assert(rest.known.contains(other));
            assert(session.absent(other.key));
            assert(crew.focus(u).private[j] == other);
        }
    }
    assert forall|info: Info| #[trigger] next.rest(u).kept.contains(info) implies f.reads(info) && (
    next.rest(u).held)(info.key) > 0 by {
        let v = choose|v: int| 0 <= v < 4 && v != u && #[trigger] next.desks[v].keeps(info);
        lemma_keeps_counted(next.desks[v], info);
        lemma_guards_of_one(next, u, info.key);
        assert(next.desks[v].guards(info.key) > 0);
        if v == t {
            if exists|i: int|
                0 <= i < session.retained.len() && #[trigger] session.retained[i] == info {
                let i = choose|i: int|
                    0 <= i < session.retained.len() && #[trigger] session.retained[i] == info;
                assert(session.reads(session.retained[i]));
            } else {
                let i = choose|i: int|
                    0 <= i < session.owning.len() && #[trigger] session.owning[i] == info;
                assert(session.reads(session.owning[i]));
            }
        } else {
            assert(crew.desks[v].keeps(info));
            assert(rest.kept.contains(info));
            assert(session.reads(info));
        }
    }
    assert forall|key: KeyView| #[trigger] next.rest(u).graves.contains(key) implies f.buried(
        key,
    ) by {
        let (v, i) = choose|v: int, i: int|
            0 <= v < 4 && v != u && 0 <= i < next.desks[v].graveyard.len() && (
            #[trigger] next.desks[v].graveyard[i]).key == key;
        if v == t {
            assert(session.buried(session.graveyard[i].key));
        } else {
            assert(crew.desks[v].graveyard[i].key == key);
            assert(rest.graves.contains(key));
            assert(session.buried(key));
        }
    }
}

/// The number of operations done once worker `t` goes on.
pub open spec fn done_after(crew: Crew, t: int, n: nat) -> nat {
    if crew.desks[t].todo.len() > 0 {
        n + 1
    } else {
        n
    }
}

/// Whichever worker goes on, everything that it checks holds, the workers know afterwards what is in
/// the map, and there is less to do.
#[verifier::rlimit(50)]
pub proof fn lemma_stepped_ok(crew: Crew, t: int, n: nat)
    requires
        crew.ok(n),
        n + crew.todo() <= MAX_OPS,
        0 <= t < 4,
        crew.desks[t].next() is Some,
    ensures
        crew.focus(t).held(),
        crew.focus(t).allows(crew.desks[t].next()->0),
        crew.focus(t).passes(crew.desks[t].next()->0),
        crew.stepped(t).ok(done_after(crew, t, n)),
        done_after(crew, t, n) + crew.stepped(t).todo() == n + crew.todo(),
        crew.stepped(t).load() < crew.load(),
        lost(crew.map, crew.stepped(t).map).len() + crew.stepped(t).map.stored().dom().len()
            == crew.map.stored().dom().len() + (if makes_value(crew.desks[t].next()->0) {
            1nat
        } else {
            0nat
        }),
{
    reveal(Crew::ok);
    reveal(Crew::stepped);
    let desk = crew.desks[t];
    let s = crew.focus(t);
    let rest = crew.rest(t);
    let op = desk.next()->0;
    let next = crew.stepped(t);
    assert(crew.focus(t).ok(rest, n));
    lemma_ok_held(s, rest, n);
    let left = if desk.todo.len() > 0 {
        lemma_applied_ok(s, rest, op, n);
        desk.todo.drop_first()
    } else {
        lemma_give_back_ok(s, rest, n, desk.owning.len() > 0);
        desk.todo
    };
    lemma_refocus(crew, t, s.applied(op), left, n, done_after(crew, t, n));
    lemma_applied_values(s, op);
    lemma_load(s, op, desk);
    assert(next.desks[t].load() < desk.load());
    assert(next.desks[t].todo.len() + done_after(crew, t, n) == desk.todo.len() + n);
    assert(forall|u: int| 0 <= u < 4 && u != t ==> #[trigger] next.desks[u] == crew.desks[u]);
}

/// An operation adds one guard at most, and giving one back takes one away.
proof fn lemma_load(s: Session, op: Op, desk: Desk)
    requires
        s.retained == desk.retained,
        s.owning == desk.owning,
        desk.next() == Some(op),
    ensures
        s.applied(op).owning.len() + s.applied(op).retained.len() <= desk.owning.len()
            + desk.retained.len() + 1,
        desk.todo.len() == 0 ==> s.applied(op).owning.len() + s.applied(op).retained.len()
            < desk.owning.len() + desk.retained.len(),
{
}

/// At the beginning the workers know nothing, and there is nothing to know.
#[verifier::rlimit(50)]
pub proof fn lemma_gathered_ok(map: State<Value>, ops: Seq<Seq<Op>>)
    requires
        map.settled(),
        map.slots.len() == 0,
    ensures
        gathered(map, ops).ok(0),
        map.stored().dom().len() == 0,
{
    reveal(Crew::ok);
    let crew = gathered(map, ops);
    assert(map.stored().dom() =~= Set::<KeyView>::empty());
    reveal(Session::ok);
    assert forall|t: int| 0 <= t < 4 implies (#[trigger] crew.focus(t)).ok(crew.rest(t), 0) by {
        assert(forall|u: int| 0 <= u < 4 ==> (#[trigger] crew.desks[u]) == Desk::fresh(ops[u]));
        assert forall|info: Info| !#[trigger] crew.rest(t).kept.contains(info) by {
            if crew.rest(t).kept.contains(info) {
                let u = choose|u: int| 0 <= u < 4 && u != t && #[trigger] crew.desks[u].keeps(info);
                assert(crew.desks[u] == Desk::fresh(ops[u]));
            }
        }
        assert forall|key: KeyView| #[trigger] crew.map.guards(key) == 0 && crew.guards(key)
            == 0 by {}
    }
}

/// Once all workers are done, nobody holds a value outside the map.
#[verifier::rlimit(50)]
pub proof fn lemma_done(crew: Crew, n: nat)
    requires
        crew.ok(n),
        crew.turn(0) is None,
    ensures
        crew.map.settled(),
        crew.map.stored().dom() == crew.map.live().dom(),
{
    reveal(Crew::ok);
    reveal(Session::ok);
    lemma_turn(crew, 0);
    let s = crew.focus(0);
    assert(s.ok(crew.rest(0), n));
    assert forall|key: KeyView| #[trigger] crew.map.stored().dom().contains(key)
        == crew.map.live().dom().contains(key) by {
        assert(crew.desks[0].guards(key) == 0 && crew.desks[1].guards(key) == 0
            && crew.desks[2].guards(key) == 0 && crew.desks[3].guards(key) == 0);
        assert(crew.map.guards(key) == 0);
        if crew.map.live().contains_key(key) {
            assert(crew.map.slot_ok(key.idx as int));
        }
    }
    assert(crew.map.stored().dom() =~= crew.map.live().dom());
}

/// Of the values that were made, each was dropped or is stored still, in whatever order the workers go
/// on: none is dropped twice, and none is lost.
#[verifier::rlimit(50)]
pub proof fn lemma_every_value_is_accounted_for(
    map: State<Value>,
    ops: Seq<Seq<Op>>,
    order: Seq<usize>,
    steps: nat,
)
    requires
        map.settled(),
        map.slots.len() == 0,
        gathered(map, ops).todo() <= MAX_OPS,
        forall|k: nat|
            k < steps ==> (#[trigger] gathered(map, ops).played(order, k)).turn(
                wanted(order, k as int),
            ) is Some,
    ensures
        gathered(map, ops).made(order, steps) == gathered(map, ops).dropped(order, steps)
            + gathered(map, ops).played(order, steps).map.stored().dom().len(),
    decreases steps,
{
    let crew = gathered(map, ops);
    lemma_gathered_ok(map, ops);
    if steps > 0 {
        let last = (steps - 1) as nat;
        lemma_every_value_is_accounted_for(map, ops, order, last);
        lemma_every_order_passes(crew, order, last, 0);
        let before = crew.played(order, last);
        let m = choose|m: nat|
            #![trigger before.ok(m)]
            before.ok(m) && m + before.todo() == 0 + crew.todo();
        let t = before.turn(wanted(order, last as int))->0;
        lemma_turn(before, wanted(order, last as int));
        lemma_stepped_ok(before, t, m);
    }
}

/// Everything that the workers check holds, in whatever order they go on.
#[verifier::rlimit(50)]
pub proof fn lemma_every_order_passes(crew: Crew, order: Seq<usize>, steps: nat, n: nat)
    requires
        crew.ok(n),
        n + crew.todo() <= MAX_OPS,
        forall|k: nat|
            k < steps ==> (#[trigger] crew.played(order, k)).turn(wanted(order, k as int)) is Some,
    ensures
        crew.passed(order, steps),
        exists|m: nat|
            #![trigger crew.played(order, steps).ok(m)]
            crew.played(order, steps).ok(m) && m + crew.played(order, steps).todo() == n
                + crew.todo(),
        crew.played(order, steps).load() + steps <= crew.load(),
    decreases steps,
{
    if steps == 0 {
        assert(crew.played(order, 0).ok(n));
    } else {
        let last = (steps - 1) as nat;
        lemma_every_order_passes(crew, order, last, n);
        let before = crew.played(order, last);
        let m = choose|m: nat|
            #![trigger before.ok(m)]
            before.ok(m) && m + before.todo() == n + crew.todo();
        let t = before.turn(wanted(order, last as int))->0;
        lemma_turn(before, wanted(order, last as int));
        lemma_stepped_ok(before, t, m);
        assert(crew.played(order, steps).ok(done_after(before, t, m)));
    }
}

} // verus!
