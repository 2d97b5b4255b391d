//! One step of one worker's agent, and why everything that holds of the workers holds afterwards.
#[allow(unused_imports)]
use crate::count::{has_role, lemma_count_nonnegative, lemma_counted, one_if, Role};
#[allow(unused_imports)]
use crate::discipline::{
    is_asking, is_getting, is_publishing, is_removing, is_seeking, kept, lemma_gone_absent,
    lemma_gone_move, lemma_kept_guarded, lemma_other_lists, lemma_protected, lemma_still_protected,
    lemma_sums, lemma_sums_nonnegative, others_same,
};
#[allow(unused_imports)]
use crate::fuzz::{lemma_value, Value};
#[allow(unused_imports)]
use crate::linear::{
    lemma_decided_step, lemma_guarding_step, lemma_live_step, lemma_lookup_step, sought,
};
#[allow(unused_imports)]
use crate::protocol::{After, Agent, Event, Lookup};
#[allow(unused_imports)]
use crate::replay::{lemma_carried_move, lemma_outcome, lemma_remove_cas_outcome};
#[allow(unused_imports)]
use crate::runs::{lemma_advance, lemma_guard_move, lemma_move};
#[allow(unused_imports)]
use crate::session::{Info, MAX_OPS};
#[allow(unused_imports)]
use crate::slot::{occupied, Slot, MAX_REFCOUNT};
#[allow(unused_imports)]
use crate::threads::{Ask, Task, Threads};
#[allow(unused_imports)]
use crate::util::{odd_version_of, KeyView};
#[allow(unused_imports)]
use crate::values::{filled, lemma_filled_move};
#[allow(unused_imports)]
use vstd::prelude::*;

verus! {

/// Whether the agent of worker `u` is about to make a step.
pub open spec fn strides(s: Threads, u: int) -> bool {
    &&& s.ok()
    &&& 0 <= u < 4
    &&& !(s.tasks[u] is Idle)
    &&& !(s.agent_of(u).wants() is Stop)
}

/// The step can be made: there is room for one more slot, nobody clones a guard, and the tags of the
/// free list have not gone round.
#[verifier::rlimit(50)]
pub proof fn lemma_permitted(s: Threads, u: int, weak: bool)
    requires
        strides(s, u),
    ensures
        s.world.permits(s.next_move(u, weak)),
        s.world.can_step(s.tasks[u].agent()),
        s.world.inv(),
{
    reveal(Threads::ok);
    lemma_sums_nonnegative(s);
    let t = s.tasks[u].agent();
    assert(s.task_ok(u));
    lemma_filled_nonnegative(s.world.state.slots);
    if s.world.agents[t] is GrowLen {
        assert(s.tasks[u] is Insert);
        assert(s.may_grow(u) == 1);
        assert(s.growing() >= s.may_grow(u));
    }
    assert(!(s.world.agents[t] is CloneAdd));
}

/// No fewer than no slots have a value in them.
pub proof fn lemma_filled_nonnegative(slots: Seq<Slot<Value>>)
    ensures
        filled(slots) >= 0,
    decreases slots.len(),
{
    if slots.len() > 0 {
        lemma_filled_nonnegative(slots.drop_last());
    }
}

/// Only the one agent has changed.
#[verifier::rlimit(50)]
pub proof fn lemma_stride_shape(s: Threads, u: int, weak: bool)
    requires
        strides(s, u),
    ensures
        s.stepping(u, weak).shape(),
        others_same(s, s.stepping(u, weak), u),
        s.stepping(u, weak).world.inv(),
{
    let n = s.stepping(u, weak);
    let t = s.tasks[u].agent();
    lemma_permitted(s, u, weak);
    lemma_move(s.world, s.next_move(u, weak));
    reveal(Threads::ok);
    assert(n.world.agents == s.world.agents.update(t, n.world.agents[t]));
    assert forall|v: int| 0 <= v < 4 && v != u && !(s.tasks[v] is Idle) implies #[trigger] n.agent_of(
        v,
    ) == s.agent_of(v) by {
        assert(s.tasks[v].agent() != s.tasks[u].agent());
    }
    assert forall|r: int|
        0 <= r < n.world.agents.len() && !((#[trigger] n.world.agents[r]).wants() is Stop) implies n.tasks[0].agent()
        == r || n.tasks[1].agent() == r || n.tasks[2].agent() == r || n.tasks[3].agent() == r by {
        if r != t {
            assert(s.world.agents[r] == n.world.agents[r]);
        } else {
            assert(u == 0 || u == 1 || u == 2 || u == 3);
        }
    }
}

/// What another worker is in the middle of still goes as it should.
#[verifier::rlimit(50)]
pub proof fn lemma_stride_other(s: Threads, u: int, weak: bool, v: int)
    requires
        strides(s, u),
        0 <= v < 4,
        v != u,
    ensures
        s.stepping(u, weak).task_ok(v),
{
    let n = s.stepping(u, weak);
    let m = s.next_move(u, weak);
    lemma_permitted(s, u, weak);
    lemma_stride_shape(s, u, weak);
    lemma_sums_nonnegative(s);
    reveal(Threads::ok);
    assert(s.task_ok(v));
    if !(s.tasks[v] is Idle) {
        assert(n.agent_of(v) == s.agent_of(v));
    }
    match s.tasks[v] {
        Task::Insert { t, value } => {
            if is_publishing(s.agent_of(v)) || s.agent_of(v) is DataWrite {
                lemma_carried_move(s.world, m, t, Value::of(value));
            }
        },
        Task::Remove { t: _, info, bury: _ } => {
            if s.gone(info.key) {
                lemma_gone_move(s, n, m, info.key);
            }
        },
        Task::Look { t: _, info, aim: _ } => {
            lemma_still_protected(s, n, v, info);
        },
        Task::Miss { t: _, key, ask: _ } => {
            lemma_gone_move(s, n, m, key);
        },
        _ => {},
    }
}

/// What the workers keep guards of still leads to the expected values, and what they buried is gone
/// still.
#[verifier::rlimit(50)]
pub proof fn lemma_stride_kept(s: Threads, u: int, weak: bool, v: int)
    requires
        strides(s, u),
        0 <= v < 4,
    ensures
        s.stepping(u, weak).kept_ok(v),
        s.stepping(u, weak).graves_ok(v),
{
    let n = s.stepping(u, weak);
    let m = s.next_move(u, weak);
    lemma_permitted(s, u, weak);
    lemma_sums_nonnegative(s);
    reveal(Threads::ok);
    assert(s.kept_ok(v));
    assert(s.graves_ok(v));
    assert forall|j: int| 0 <= j < n.desks[v].retained.len() implies n.reads(
        #[trigger] n.desks[v].retained[j],
    ) by {
        lemma_kept_guarded(s, v, j, false);
        lemma_guard_move(s.world, m, s.desks[v].retained[j].key.idx);
    }
    assert forall|j: int| 0 <= j < n.desks[v].owning.len() implies n.reads(
        #[trigger] n.desks[v].owning[j],
    ) by {
        lemma_kept_guarded(s, v, j, true);
        lemma_guard_move(s.world, m, s.desks[v].owning[j].key.idx);
    }
    assert forall|j: int| 0 <= j < n.desks[v].graveyard.len() implies n.gone(
        (#[trigger] n.desks[v].graveyard[j]).key,
    ) && occupied(n.desks[v].graveyard[j].key.version) by {
        lemma_gone_move(s, n, m, s.desks[v].graveyard[j].key);
    }
}

/// How a removal goes on.
proof fn lemma_removing_on(agent: Agent, event: Event, key: KeyView)
    requires
        is_removing(agent, key),
    ensures
        ({
            let next = agent.after(event);
            is_removing(next, key) || next == (Agent::RefDrop {
                idx: key.idx,
                after: After::Remove,
            }) || next == (Agent::Removed { found: false })
        }),
{
}

/// How a lookup goes on.
pub proof fn lemma_getting_on(agent: Agent, event: Event, key: KeyView)
    requires
        is_getting(agent, key),
    ensures
        ({
            let next = agent.after(event);
            is_getting(next, key) || next == (Agent::RefDrop {
                idx: key.idx,
                after: After::Lookup,
            }) || next == Agent::Missing || (next == Agent::Overflowed && is_seeking(agent, key))
                || next == (Agent::Guarding { idx: key.idx, version: key.version })
        }),
{
}

/// How a question goes on.
proof fn lemma_asking_on(agent: Agent, event: Event, key: KeyView)
    requires
        is_asking(agent, key),
    ensures
        ({
            let next = agent.after(event);
            is_asking(next, key) || next is Contained
        }),
{
}

/// The slot of a key that a lookup seeks does not have too many references.
proof fn lemma_seldom_referred(s: Threads, u: int, key: KeyView)
    requires
        s.bounds(),
        s.begun <= MAX_OPS,
        0 <= u < 4,
        s.may_refer(u) == 1,
        key.idx < s.world.state.slots.len(),
    ensures
        s.world.state.slots[key.idx as int].ref_count <= MAX_REFCOUNT,
{
}

/// An insertion goes on.
#[verifier::rlimit(50)]
proof fn lemma_stride_insert(s: Threads, u: int, weak: bool)
    requires
        strides(s, u),
        s.tasks[u] is Insert,
    ensures
        s.stepping(u, weak).task_ok(u),
{
    let n = s.stepping(u, weak);
    let t = s.tasks[u].agent();
    lemma_permitted(s, u, weak);
    reveal(Threads::ok);
    assert(s.task_ok(u));
    let value = s.tasks[u]->Insert_value;
    if is_publishing(s.agent_of(u)) || s.agent_of(u) is DataWrite {
        lemma_carried_move(s.world, s.next_move(u, weak), t, Value::of(value));
    }
}

/// A removal goes on.
#[verifier::rlimit(50)]
proof fn lemma_stride_remove(s: Threads, u: int, weak: bool)
    requires
        strides(s, u),
        s.tasks[u] is Remove,
    ensures
        s.stepping(u, weak).task_ok(u),
{
    let n = s.stepping(u, weak);
    let t = s.tasks[u].agent();
    let m = s.next_move(u, weak);
    lemma_permitted(s, u, weak);
    lemma_sums_nonnegative(s);
    reveal(Threads::ok);
    assert(s.task_ok(u));
    let info = s.tasks[u]->Remove_info;
    let w = s.world;
    if is_removing(s.agent_of(u), info.key) {
        let event = w.state.event(w.agents[t].wants(), weak, w.payloads[t]);
        assert(s.list(5 + u)[0] == info);
        assert(s.finds(info));
        lemma_lookup_step(w, t, weak, None);
        lemma_live_step(w, t, weak, None);
        lemma_removing_on(w.agents[t], event, info.key);
        lemma_advance(w, m, info.key.idx as int);
        assert(w.state.slots[info.key.idx as int].version <= 2 * s.begun);
    } else {
        lemma_gone_move(s, n, m, info.key);
        lemma_decided_step(w, t, weak, None);
    }
}

/// A lookup of a key that is there goes on.
#[verifier::rlimit(50)]
proof fn lemma_stride_look(s: Threads, u: int, weak: bool)
    requires
        strides(s, u),
        s.tasks[u] is Look,
    ensures
        s.stepping(u, weak).task_ok(u),
{
    let n = s.stepping(u, weak);
    let t = s.tasks[u].agent();
    lemma_permitted(s, u, weak);
    reveal(Threads::ok);
    assert(s.task_ok(u));
    let info = s.tasks[u]->Look_info;
    let w = s.world;
    let event = w.state.event(w.agents[t].wants(), weak, w.payloads[t]);
    lemma_protected(s, u, info);
    lemma_lookup_step(w, t, weak, None);
    lemma_getting_on(w.agents[t], event, info.key);
    if n.agent_of(u) is Overflowed {
        lemma_seldom_referred(s, u, info.key);
    }
    lemma_still_protected(s, n, u, info);
}

/// A question for a key that is gone goes on.
#[verifier::rlimit(50)]
proof fn lemma_stride_miss(s: Threads, u: int, weak: bool)
    requires
        strides(s, u),
        s.tasks[u] is Miss,
    ensures
        s.stepping(u, weak).task_ok(u),
{
    let n = s.stepping(u, weak);
    let t = s.tasks[u].agent();
    let m = s.next_move(u, weak);
    lemma_permitted(s, u, weak);
    lemma_sums_nonnegative(s);
    reveal(Threads::ok);
    assert(s.task_ok(u));
    let key = s.tasks[u]->Miss_key;
    let w = s.world;
    let event = w.state.event(w.agents[t].wants(), weak, w.payloads[t]);
    lemma_gone_move(s, n, m, key);
    lemma_gone_absent(s, key);
    if sought(w.agents[t]) is Some {
        lemma_lookup_step(w, t, weak, None);
    }
    match s.tasks[u]->Miss_ask {
        Ask::Get => {
            if is_getting(w.agents[t], key) {
                lemma_getting_on(w.agents[t], event, key);
                if n.agent_of(u) is Overflowed {
                    lemma_seldom_referred(s, u, key);
                }
            } else {
                lemma_outcome(w, t, weak, None);
            }
        },
        Ask::Contains => {
            lemma_asking_on(w.agents[t], event, key);
        },
        Ask::Remove => {
            lemma_removing_on(w.agents[t], event, key);
        },
    }
}

/// A reservation goes on.
#[verifier::rlimit(50)]
proof fn lemma_stride_reserve(s: Threads, u: int, weak: bool)
    requires
        strides(s, u),
        s.tasks[u] is Reserve,
    ensures
        s.stepping(u, weak).task_ok(u),
{
    let t = s.tasks[u].agent();
    lemma_permitted(s, u, weak);
    lemma_sums_nonnegative(s);
    reveal(Threads::ok);
    assert(s.task_ok(u));
    assert(s.world.agent_ok(t));
}

/// The release of a guard goes on.
#[verifier::rlimit(50)]
proof fn lemma_stride_release(s: Threads, u: int, weak: bool)
    requires
        strides(s, u),
        s.tasks[u] is Release,
    ensures
        s.stepping(u, weak).task_ok(u),
{
    lemma_permitted(s, u, weak);
    reveal(Threads::ok);
    assert(s.task_ok(u));
}

/// What the worker is in the middle of goes on as it should.
pub proof fn lemma_stride_task(s: Threads, u: int, weak: bool)
    requires
        strides(s, u),
    ensures
        s.stepping(u, weak).task_ok(u),
{
    match s.tasks[u] {
        Task::Idle => {},
        Task::Insert { .. } => lemma_stride_insert(s, u, weak),
        Task::Remove { .. } => lemma_stride_remove(s, u, weak),
        Task::Look { .. } => lemma_stride_look(s, u, weak),
        Task::Miss { .. } => lemma_stride_miss(s, u, weak),
        Task::Release { .. } => lemma_stride_release(s, u, weak),
        Task::Reserve { .. } => lemma_stride_reserve(s, u, weak),
    }
}

/// The lists are as before, but that an entry whose key was taken is out of them, and a new key is in.
#[verifier::rlimit(50)]
proof fn lemma_stride_lists(s: Threads, u: int, weak: bool)
    requires
        strides(s, u),
    ensures
        ({
            let n = s.stepping(u, weak);
            &&& forall|p: int|
                0 <= p < 13 && p != 5 + u && p != 9 + u ==> #[trigger] n.list(p) == s.list(p)
            &&& if s.agent_of(u) is VersionStore {
                &&& s.tasks[u] is Insert
                &&& s.list(9 + u).len() == 0
                &&& n.list(9 + u) == seq![
                    Info {
                        key: KeyView {
                            idx: s.agent_of(u)->VersionStore_idx,
                            version: odd_version_of(s.agent_of(u)->VersionStore_version),
                        },
                        value: s.tasks[u]->Insert_value,
                    },
                ]
            } else {
                n.list(9 + u) == s.list(9 + u)
            }
            &&& n.list(5 + u) == s.list(5 + u) || n.list(5 + u).len() == 0
        }),
{
    let n = s.stepping(u, weak);
    lemma_permitted(s, u, weak);
    lemma_stride_shape(s, u, weak);
    lemma_stride_task(s, u, weak);
    lemma_other_lists(s, n, u);
    reveal(Threads::ok);
    assert(s.task_ok(u));
}

/// The map still has every key that is in a list, and no key is in two places.
#[verifier::rlimit(50)]
pub proof fn lemma_stride_known(s: Threads, u: int, weak: bool)
    requires
        strides(s, u),
    ensures
        s.stepping(u, weak).known(),
        s.stepping(u, weak).distinct(),
{
    let n = s.stepping(u, weak);
    let w = s.world;
    let t = s.tasks[u].agent();
    lemma_permitted(s, u, weak);
    lemma_stride_lists(s, u, weak);
    lemma_live_step(w, t, weak, s.reply(u));
    lemma_remove_cas_outcome(w, t, weak, s.reply(u));
    lemma_sums_nonnegative(s);
    reveal(Threads::ok);
    assert(s.task_ok(u));
    assert forall|p: int, i: int| 0 <= p < 13 && 0 <= i < n.list(p).len() implies n.finds(
        #[trigger] n.list(p)[i],
    ) && (w.agents[t] is VersionStore && p == 9 + u || i < s.list(p).len() && s.list(p)[i] == n.list(
        p,
    )[i]) by {
        if w.agents[t] is VersionStore && p == 9 + u {
            lemma_value(s.tasks[u]->Insert_value);
        } else {
            assert(s.finds(s.list(p)[i]));
            if w.agents[t] is RemoveCas {
                let key = sought(w.agents[t])->0;
                if s.tasks[u] is Remove {
                    let info = s.tasks[u]->Remove_info;
                    assert(s.list(5 + u)[0] == info);
                    assert(s.finds(s.list(5 + u)[0]));
                    assert(n.list(5 + u).len() == 0);
                    assert(p != 5 + u);
                    assert(s.list(p)[i].key != s.list(5 + u)[0].key);
                } else {
                    lemma_gone_absent(s, key);
                }
            }
        }
    }
    assert forall|p: int, i: int, q: int, j: int|
        0 <= p < 13 && 0 <= i < n.list(p).len() && 0 <= q < 13 && 0 <= j < n.list(q).len() && (
        #[trigger] n.list(p)[i]).key == (#[trigger] n.list(q)[j]).key implies p == q && i == j by {
        assert(n.finds(n.list(p)[i]));
        assert(n.finds(n.list(q)[j]));
        if !(w.agents[t] is VersionStore && p == 9 + u) {
            assert(s.finds(s.list(p)[i]));
        }
        if !(w.agents[t] is VersionStore && q == 9 + u) {
            assert(s.finds(s.list(q)[j]));
        }
    }
}

/// Every guard is still held by a worker.
#[verifier::rlimit(50)]
pub proof fn lemma_stride_guards(s: Threads, u: int, weak: bool)
    requires
        strides(s, u),
    ensures
        s.stepping(u, weak).guards_ok(),
{
    let n = s.stepping(u, weak);
    let w = s.world;
    let t = s.tasks[u].agent();
    lemma_permitted(s, u, weak);
    lemma_stride_shape(s, u, weak);
    lemma_stride_task(s, u, weak);
    lemma_sums(s, n, u);
    lemma_sums_nonnegative(s);
    reveal(Threads::ok);
    assert(s.task_ok(u));
    assert(w.agent_ok(t));
    assert forall|i: int| 0 <= i < n.world.guards.len() implies #[trigger] n.world.guards[i]
        == n.held(i) by {
        if i == w.guards.len() {
            lemma_nobody_beyond(s, i);
        } else {
            assert(w.guards[i] == s.held(i));
        }
        if w.agents[t] is RefCheck && n.agent_of(u) is Guarding {
            lemma_guarding_step(w, t, weak, s.reply(u));
        }
        assert(n.held(i) - s.held(i) == n.holds(u, i) - s.holds(u, i));
    }
}

/// Nobody has a guard into a slot that does not exist.
#[verifier::rlimit(50)]
proof fn lemma_nobody_beyond(s: Threads, i: int)
    requires
        s.ok(),
        i >= s.world.state.slots.len(),
    ensures
        s.held(i) == 0,
{
    reveal(Threads::ok);
    assert forall|v: int| 0 <= v < 4 implies #[trigger] s.holds(v, i) == 0 by {
        assert(s.kept_ok(v));
        assert(s.task_ok(v));
        assert forall|j: int| 0 <= j < s.desks[v].retained.len() implies (
        #[trigger] s.desks[v].retained[j]).key.idx != i by {
            assert(s.reads(s.desks[v].retained[j]));
        }
        assert forall|j: int| 0 <= j < s.desks[v].owning.len() implies (
        #[trigger] s.desks[v].owning[j]).key.idx != i by {
            assert(s.reads(s.desks[v].owning[j]));
        }
        lemma_kept_none(s.desks[v].retained, i);
        lemma_kept_none(s.desks[v].owning, i);
        if s.tasks[v] is Look {
            lemma_protected(s, v, s.tasks[v]->Look_info);
        }
    }
}

/// Entries of other slots are not counted.
pub proof fn lemma_kept_none(infos: Seq<Info>, i: int)
    requires
        forall|j: int| 0 <= j < infos.len() ==> (#[trigger] infos[j]).key.idx != i,
    ensures
        kept(infos, i) == 0,
    decreases infos.len(),
{
    if infos.len() > 0 {
        let rest = infos.drop_last();
        assert(forall|j: int| 0 <= j < rest.len() ==> #[trigger] rest[j] == infos[j]);
        lemma_kept_none(rest, i);
    }
}

/// There are still no more slots, versions, references and changes than the operations make, and every
/// value is accounted for.
#[verifier::rlimit(80)]
pub proof fn lemma_stride_bounds(s: Threads, u: int, weak: bool)
    requires
        strides(s, u),
    ensures
        s.stepping(u, weak).bounds(),
        s.stepping(u, weak).values_ok(),
{
    let n = s.stepping(u, weak);
    let w = s.world;
    let t = s.tasks[u].agent();
    let m = s.next_move(u, weak);
    lemma_permitted(s, u, weak);
    lemma_stride_shape(s, u, weak);
    lemma_stride_task(s, u, weak);
    lemma_sums(s, n, u);
    lemma_sums_nonnegative(s);
    lemma_filled_move(w, m);
    reveal(Threads::ok);
    assert(s.task_ok(u));
    assert(n.task_ok(u));
    assert(w.agent_ok(t));
    lemma_stride_counts(s, u, weak);
    assert forall|i: int| 0 <= i < n.world.state.slots.len() implies (
    #[trigger] n.world.state.slots[i]).version + one_if(occupied(n.world.state.slots[i].version)) + 2
        * n.publishing() <= 2 * n.begun && n.world.state.slots[i].ref_count + n.referring()
        <= n.begun + 1 by {
        if i < w.state.slots.len() {
            lemma_stride_slot(s, u, weak, i);
            assert(w.state.slots[i].version <= 2 * s.begun);
            assert(w.state.slots[i].ref_count + s.referring() <= s.begun + 1);
        }
    }
}

/// How a step changes what is counted of the worker.
#[verifier::rlimit(80)]
proof fn lemma_stride_counts(s: Threads, u: int, weak: bool)
    requires
        strides(s, u),
    ensures
        ({
            let n = s.stepping(u, weak);
            let agent = s.agent_of(u);
            &&& n.may_grow(u) + n.world.state.slots.len() <= s.may_grow(u)
                + s.world.state.slots.len()
            &&& n.may_write(u) == s.may_write(u) - one_if(agent is DataWrite)
            &&& n.may_publish(u) == s.may_publish(u) - one_if(agent is VersionStore)
            &&& n.may_refer(u) <= s.may_refer(u)
            &&& n.may_free(u) + n.world.ops + n.may_grow(u) <= s.may_free(u) + s.world.ops
                + s.may_grow(u) + one_if(agent is ValueDrop)
        }),
{
    let n = s.stepping(u, weak);
    let w = s.world;
    let t = s.tasks[u].agent();
    lemma_permitted(s, u, weak);
    lemma_stride_task(s, u, weak);
    reveal(Threads::ok);
    assert(s.task_ok(u));
    assert(n.task_ok(u));
    assert(w.agent_ok(t));
}

/// How a step changes a slot: the version advances where a key is published or taken, and one reference
/// more is one lookup fewer that may take one.
#[verifier::rlimit(80)]
proof fn lemma_stride_slot(s: Threads, u: int, weak: bool, i: int)
    requires
        strides(s, u),
        0 <= i < s.world.state.slots.len(),
    ensures
        ({
            let n = s.stepping(u, weak);
            let before = s.world.state.slots[i];
            let after = n.world.state.slots[i];
            &&& i < n.world.state.slots.len()
            &&& after.version + one_if(occupied(after.version)) + 2 * n.may_publish(u)
                <= before.version + one_if(occupied(before.version)) + 2 * s.may_publish(u)
            &&& after.ref_count + n.may_refer(u) <= before.ref_count + s.may_refer(u)
                || after.ref_count <= 1
        }),
{
    let n = s.stepping(u, weak);
    let w = s.world;
    let t = s.tasks[u].agent();
    lemma_permitted(s, u, weak);
    lemma_stride_counts(s, u, weak);
    lemma_advance(w, s.next_move(u, weak), i);
    lemma_sums_nonnegative(s);
    reveal(Threads::ok);
    assert(s.task_ok(u));
    assert(w.agent_ok(t));
    assert(w.slot_ok(i));
    assert(w.state.slots[i].version <= 2 * s.begun);
    if has_role(Role::Holder, w.agents[t], i) {
        lemma_counted(w.agents, t, Role::Holder, i);
    }
    lemma_count_nonnegative(w.agents, Role::Holder, i);
}

/// Everything that holds of the workers holds after a step.
pub proof fn lemma_stride(s: Threads, u: int, weak: bool)
    requires
        strides(s, u),
    ensures
        s.stepping(u, weak).ok(),
{
    let n = s.stepping(u, weak);
    lemma_stride_shape(s, u, weak);
    lemma_stride_known(s, u, weak);
    lemma_stride_guards(s, u, weak);
    lemma_stride_bounds(s, u, weak);
    assert forall|v: int| 0 <= v < 4 implies #[trigger] n.task_ok(v) by {
        if v == u {
            lemma_stride_task(s, u, weak);
        } else {
            lemma_stride_other(s, u, weak, v);
        }
    }
    assert forall|v: int| 0 <= v < 4 implies #[trigger] n.kept_ok(v) by {
        lemma_stride_kept(s, u, weak, v);
    }
    assert forall|v: int| 0 <= v < 4 implies #[trigger] n.graves_ok(v) by {
        lemma_stride_kept(s, u, weak, v);
    }
    reveal(Threads::ok);
}

} // verus!
