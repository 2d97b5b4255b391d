//! How the workers begin and end their operations, and the law that all their checks hold whatever the
//! order of their single steps.
#[allow(unused_imports)]
use crate::chunks::prefix_closed;
#[allow(unused_imports)]
use crate::count::{has_role, lemma_count_none, one_if, Role};
#[allow(unused_imports)]
use crate::discipline::{
    kept, lemma_kept_guarded, lemma_kept_nonnegative, lemma_kept_push, lemma_kept_remove,
    lemma_holds_nonnegative, lemma_other_lists, lemma_protected, lemma_still_protected, lemma_sums,
    lemma_sums_nonnegative, others_same,
};
#[allow(unused_imports)]
use crate::fuzz::{Constructor, Index, Op, Value};
#[allow(unused_imports)]
use crate::head::{lemma_packed_head, SENTINEL};
#[allow(unused_imports)]
use crate::map::no_chunks;
#[allow(unused_imports)]
use crate::protocol::{After, Agent, Lookup};
#[allow(unused_imports)]
use crate::replay::carries;
#[allow(unused_imports)]
use crate::runs::Move;
#[allow(unused_imports)]
use crate::session::{constructed, forged, makes_value, MAX_OPS};
#[allow(unused_imports)]
use crate::settled::{lemma_live_len, lemma_reserved};
#[allow(unused_imports)]
use crate::slot::occupied;
#[allow(unused_imports)]
use crate::state::State;
#[allow(unused_imports)]
use crate::steps::{lemma_quiescent, lemma_release, lemma_rest, lemma_start};
#[allow(unused_imports)]
use crate::strides::{lemma_permitted, lemma_stride};
#[allow(unused_imports)]
use crate::threads::{assembled, Aim, Ask, Task, Threads};
#[allow(unused_imports)]
use crate::util::KeyView;
#[allow(unused_imports)]
use crate::values::{filled, lemma_filled_is_stored};
#[allow(unused_imports)]
use crate::world::World;
#[allow(unused_imports)]
use vstd::arithmetic::div_mod::lemma_mod_bound;
#[allow(unused_imports)]
use vstd::prelude::*;

verus! {

/// Whether only worker `u` has gone on, and the memory is as it was.
spec fn calm(s: Threads, n: Threads, u: int) -> bool {
    &&& others_same(s, n, u)
    &&& n.world.state == s.world.state
    &&& n.world.ops == s.world.ops
    &&& n.world.agents.len() >= s.world.agents.len()
    &&& n.world.payloads.len() == n.world.agents.len()
    &&& forall|t: int|
        0 <= t < s.world.agents.len() ==> #[trigger] n.world.payloads[t] == s.world.payloads[t]
    &&& forall|v: int|
        0 <= v < 4 && v != u && s.lock == Some(v) ==> n.lock == Some(v) && n.shared == s.shared
}

/// What another worker is in the middle of, keeps and has buried is as it was.
#[verifier::rlimit(50)]
proof fn lemma_calm_other(s: Threads, n: Threads, u: int, v: int)
    requires
        s.ok(),
        calm(s, n, u),
        0 <= v < 4,
        v != u,
    ensures
        n.task_ok(v),
        n.kept_ok(v),
        n.graves_ok(v),
{
    reveal(Threads::ok);
    assert(n.tasks[v] == s.tasks[v]);
    assert(n.desks[v] == s.desks[v]);
    assert(s.task_ok(v));
    assert(s.kept_ok(v));
    assert(s.graves_ok(v));
    if !(s.tasks[v] is Idle) {
        assert(n.agent_of(v) == s.agent_of(v));
    }
    match s.tasks[v] {
        Task::Insert { t, value } => {
            assert(n.world.payloads[t] == s.world.payloads[t]);
            assert(carries(n.world, t, Value::of(value)) == carries(s.world, t, Value::of(value)));
        },
        Task::Look { t: _, info, aim: _ } => {
            lemma_still_protected(s, n, v, info);
        },
        _ => {},
    }
    assert forall|j: int| 0 <= j < n.desks[v].retained.len() implies n.reads(
        #[trigger] n.desks[v].retained[j],
    ) by {
        assert(s.reads(s.desks[v].retained[j]));
    }
    assert forall|j: int| 0 <= j < n.desks[v].owning.len() implies n.reads(
        #[trigger] n.desks[v].owning[j],
    ) by {
        assert(s.reads(s.desks[v].owning[j]));
    }
    assert forall|j: int| 0 <= j < n.desks[v].graveyard.len() implies n.gone(
        (#[trigger] n.desks[v].graveyard[j]).key,
    ) && occupied(n.desks[v].graveyard[j].key.version) by {
        assert(s.gone(s.desks[v].graveyard[j].key));
    }
}

/// Whether what worker `u` takes up is counted among the operations that were begun.
spec fn counted(s: Threads, n: Threads, u: int) -> bool {
    let more = n.begun - s.begun;
    &&& more >= 0
    &&& n.may_grow(u) <= s.may_grow(u) + more
    &&& n.may_publish(u) <= s.may_publish(u) + more
    &&& n.may_refer(u) <= s.may_refer(u) + more
    &&& n.may_grow(u) + n.may_write(u) + n.may_free(u) <= s.may_grow(u) + s.may_write(u)
        + s.may_free(u) + 2 * more
    &&& n.made - s.made == n.may_write(u) - s.may_write(u)
    &&& n.dropped == s.dropped
    &&& n.begun + n.desks[u].todo.len() == s.begun + s.desks[u].todo.len()
}

/// There are still no more slots, versions, references and changes than the operations make.
#[verifier::rlimit(50)]
proof fn lemma_calm_bounds(s: Threads, n: Threads, u: int)
    requires
        calm(s, n, u),
        counted(s, n, u),
        s.bounds(),
        s.values_ok(),
    ensures
        n.bounds(),
        n.values_ok(),
        n.begun + n.todo() == s.begun + s.todo(),
{
    lemma_sums(s, n, u);
    lemma_sums_nonnegative(s);
    assert(n.begun + n.todo() == s.begun + s.todo()) by {
        assert(u == 0 || u == 1 || u == 2 || u == 3);
        assert(0 != u ==> n.desks[0] == s.desks[0]);
        assert(1 != u ==> n.desks[1] == s.desks[1]);
        assert(2 != u ==> n.desks[2] == s.desks[2]);
        assert(3 != u ==> n.desks[3] == s.desks[3]);
    }
    assert forall|i: int| 0 <= i < n.world.state.slots.len() implies (
    #[trigger] n.world.state.slots[i]).version + one_if(occupied(n.world.state.slots[i].version)) + 2
        * n.publishing() <= 2 * n.begun && n.world.state.slots[i].ref_count + n.referring()
        <= n.begun + 1 by {
        assert(s.world.state.slots[i].ref_count + s.referring() <= s.begun + 1);
    }
}

/// Everything that holds of the workers holds once it holds of the one that has gone on.
#[verifier::rlimit(50)]
proof fn lemma_calm(s: Threads, n: Threads, u: int)
    requires
        s.ok(),
        calm(s, n, u),
        counted(s, n, u),
        n.world.inv(),
        n.shape(),
        n.task_ok(u),
        n.known(),
        n.distinct(),
        n.guards_ok(),
        n.kept_ok(u),
        n.graves_ok(u),
    ensures
        n.ok(),
{
    assert(s.bounds() && s.values_ok() && s.begun + s.todo() <= MAX_OPS) by {
        reveal(Threads::ok);
    }
    lemma_calm_bounds(s, n, u);
    assert forall|v: int| 0 <= v < 4 implies #[trigger] n.task_ok(v) by {
        if v != u {
            lemma_calm_other(s, n, u, v);
        }
    }
    assert forall|v: int| 0 <= v < 4 implies #[trigger] n.kept_ok(v) by {
        if v != u {
            lemma_calm_other(s, n, u, v);
        }
    }
    assert forall|v: int| 0 <= v < 4 implies #[trigger] n.graves_ok(v) by {
        if v != u {
            lemma_calm_other(s, n, u, v);
        }
    }
    assert(n.ok()) by {
        reveal(Threads::ok);
    }
}

/// The lists are the same.
proof fn lemma_same_lists(s: Threads, n: Threads)
    requires
        s.known(),
        s.distinct(),
        n.world.state == s.world.state,
        forall|p: int| 0 <= p < 13 ==> #[trigger] n.list(p) == s.list(p),
    ensures
        n.known(),
        n.distinct(),
{
    assert forall|p: int, i: int| 0 <= p < 13 && 0 <= i < n.list(p).len() implies n.finds(
        #[trigger] n.list(p)[i],
    ) by {
        assert(s.finds(s.list(p)[i]));
    }
    assert forall|p: int, i: int, q: int, j: int|
        0 <= p < 13 && 0 <= i < n.list(p).len() && 0 <= q < 13 && 0 <= j < n.list(q).len() && (
        #[trigger] n.list(p)[i]).key == (#[trigger] n.list(q)[j]).key implies p == q && i == j by {
        assert(s.list(p)[i].key == s.list(q)[j].key);
    }
}

/// Where an entry was before one entry was moved.
spec fn origin(s: Threads, from: int, at: int, to: int, p: int, i: int) -> (int, int) {
    if p == to && i == s.list(to).len() {
        (from, at)
    } else if p == from && i >= at {
        (from, i + 1)
    } else {
        (p, i)
    }
}

/// An entry is moved from one list to another.
#[verifier::rlimit(50)]
proof fn lemma_moved_entry(s: Threads, n: Threads, from: int, at: int, to: int)
    requires
        s.known(),
        s.distinct(),
        n.world.state == s.world.state,
        0 <= from < 13,
        0 <= to < 13,
        from != to,
        0 <= at < s.list(from).len(),
        n.list(from) == s.list(from).remove(at),
        n.list(to) == s.list(to).push(s.list(from)[at]),
        forall|p: int| 0 <= p < 13 && p != from && p != to ==> #[trigger] n.list(p) == s.list(p),
    ensures
        n.known(),
        n.distinct(),
{
    assert forall|p: int, i: int| 0 <= p < 13 && 0 <= i < n.list(p).len() implies ({
        let o = origin(s, from, at, to, p, i);
        0 <= o.0 < 13 && 0 <= o.1 < s.list(o.0).len() && #[trigger] n.list(p)[i] == s.list(o.0)[o.1]
            && n.finds(n.list(p)[i])
    }) by {
        let o = origin(s, from, at, to, p, i);
        assert(n.list(p)[i] == s.list(o.0)[o.1]);
        assert(s.finds(s.list(o.0)[o.1]));
    }
    assert forall|p: int, i: int, q: int, j: int|
        0 <= p < 13 && 0 <= i < n.list(p).len() && 0 <= q < 13 && 0 <= j < n.list(q).len() && (
        #[trigger] n.list(p)[i]).key == (#[trigger] n.list(q)[j]).key implies p == q && i == j by {
        let a = origin(s, from, at, to, p, i);
        let b = origin(s, from, at, to, q, j);
        assert(s.list(a.0)[a.1].key == s.list(b.0)[b.1].key);
        assert(a == b);
    }
}

/// A worker that begins with an agent of its own.
#[verifier::rlimit(50)]
proof fn lemma_started_shape(s: Threads, n: Threads, u: int, agent: Agent)
    requires
        s.ok(),
        0 <= u < 4,
        s.tasks[u] is Idle || s.agent_of(u).wants() is Stop,
        n.world.agents == s.world.agents.push(agent),
        n.desks.len() == 4,
        n.tasks == s.tasks.update(u, n.tasks[u]),
        n.tasks[u].agent() == s.world.agents.len(),
    ensures
        n.shape(),
        n.agent_of(u) == agent,
        forall|v: int|
            0 <= v < 4 && v != u && !(s.tasks[v] is Idle) ==> #[trigger] n.agent_of(v)
                == s.agent_of(v),
{
    reveal(Threads::ok);
    assert forall|r: int|
        0 <= r < n.world.agents.len() && !((#[trigger] n.world.agents[r]).wants() is Stop) implies n.tasks[0].agent()
        == r || n.tasks[1].agent() == r || n.tasks[2].agent() == r || n.tasks[3].agent() == r by {
        assert(u == 0 || u == 1 || u == 2 || u == 3);
        if r < s.world.agents.len() {
            assert(s.world.agents[r] == n.world.agents[r]);
        }
    }
    assert forall|v: int, x: int|
        0 <= v < 4 && 0 <= x < 4 && v != x && !((#[trigger] n.tasks[v]) is Idle) implies n.tasks[v].agent()
        != (#[trigger] n.tasks[x]).agent() by {
        if v != u {
            assert(n.tasks[v] == s.tasks[v]);
        }
        if x != u {
            assert(n.tasks[x] == s.tasks[x]);
        }
        if v == u && !(s.tasks[x] is Idle) {
            assert(s.tasks[x].agent() < s.world.agents.len());
        }
    }
    assert forall|v: int| 0 <= v < 4 && v != u && !(s.tasks[v] is Idle) implies #[trigger] n.agent_of(
        v,
    ) == s.agent_of(v) by {
        assert(n.tasks[v] == s.tasks[v]);
    }
}

/// A worker that is in the middle of nothing.
#[verifier::rlimit(50)]
proof fn lemma_idle_shape(s: Threads, n: Threads, u: int)
    requires
        s.ok(),
        0 <= u < 4,
        s.tasks[u] is Idle || s.agent_of(u).wants() is Stop,
        n.world == s.world,
        n.desks.len() == 4,
        n.tasks == s.tasks.update(u, Task::Idle),
    ensures
        n.shape(),
        n.world.inv(),
        forall|v: int|
            0 <= v < 4 && v != u && !(s.tasks[v] is Idle) ==> #[trigger] n.agent_of(v)
                == s.agent_of(v),
{
    reveal(Threads::ok);
    assert forall|v: int, x: int|
        0 <= v < 4 && 0 <= x < 4 && v != x && !((#[trigger] n.tasks[v]) is Idle) implies n.tasks[v].agent()
        != (#[trigger] n.tasks[x]).agent() by {
        assert(n.tasks[v] == s.tasks[v]);
        if x != u {
            assert(n.tasks[x] == s.tasks[x]);
        } else {
            assert(s.tasks[v].agent() >= 0);
        }
    }
    assert forall|v: int| 0 <= v < 4 && v != u && !(s.tasks[v] is Idle) implies #[trigger] n.agent_of(
        v,
    ) == s.agent_of(v) by {
        assert(n.tasks[v] == s.tasks[v]);
    }
    assert forall|r: int|
        0 <= r < n.world.agents.len() && !((#[trigger] n.world.agents[r]).wants() is Stop) implies n.tasks[0].agent()
        == r || n.tasks[1].agent() == r || n.tasks[2].agent() == r || n.tasks[3].agent() == r by {
        assert(u == 0 || u == 1 || u == 2 || u == 3);
        assert(s.world.agents[r] == n.world.agents[r]);
    }
}

/// A guard that a worker holds can be given back: nobody clones it.
#[verifier::rlimit(50)]
proof fn lemma_may_release(s: Threads, idx: u32)
    requires
        s.ok(),
        idx < s.world.state.slots.len(),
        s.world.guards[idx as int] > 0,
    ensures
        s.world.may_release(idx),
        s.world.releasing(idx).inv(),
{
    reveal(Threads::ok);
    assert forall|t: int| 0 <= t < s.world.agents.len() implies !has_role(
        Role::Cloner,
        #[trigger] s.world.agents[t],
        idx as int,
    ) by {
        assert(s.task_ok(0) && s.task_ok(1) && s.task_ok(2) && s.task_ok(3));
        assert(!(s.world.agents[t].wants() is Stop) ==> s.tasks[0].agent() == t
            || s.tasks[1].agent() == t || s.tasks[2].agent() == t || s.tasks[3].agent() == t);
    }
    lemma_count_none(s.world.agents, Role::Cloner, idx as int);
    lemma_release(s.world, idx);
}

/// Whether a worker that was in the middle of nothing keeps what it has, but for its lists.
spec fn keeps_all(s: Threads, n: Threads, u: int) -> bool {
    &&& n.desks[u].retained == s.desks[u].retained
    &&& n.desks[u].owning == s.desks[u].owning
    &&& n.desks[u].graveyard == s.desks[u].graveyard
}

/// What a worker keeps and has buried is as it was.
proof fn lemma_keeps_all(s: Threads, n: Threads, u: int)
    requires
        s.ok(),
        0 <= u < 4,
        n.world.state == s.world.state,
        keeps_all(s, n, u),
    ensures
        n.kept_ok(u),
        n.graves_ok(u),
{
    reveal(Threads::ok);
    assert(s.kept_ok(u));
    assert(s.graves_ok(u));
    assert forall|j: int| 0 <= j < n.desks[u].retained.len() implies n.reads(
        #[trigger] n.desks[u].retained[j],
    ) by {
        assert(s.reads(s.desks[u].retained[j]));
    }
    assert forall|j: int| 0 <= j < n.desks[u].owning.len() implies n.reads(
        #[trigger] n.desks[u].owning[j],
    ) by {
        assert(s.reads(s.desks[u].owning[j]));
    }
    assert forall|j: int| 0 <= j < n.desks[u].graveyard.len() implies n.gone(
        (#[trigger] n.desks[u].graveyard[j]).key,
    ) && occupied(n.desks[u].graveyard[j].key.version) by {
        assert(s.gone(s.desks[u].graveyard[j].key));
    }
}

/// Whether an agent of worker `u` begins, at another desk perhaps, and nothing else happens.
spec fn begins(s: Threads, n: Threads, u: int, agent: Agent) -> bool {
    &&& 0 <= u < 4
    &&& s.tasks[u] is Idle || (s.tasks[u] is Miss && s.agent_of(u).wants() is Stop)
    &&& World::<Value>::may_start(agent)
    &&& n.world == s.world.started(agent)
    &&& n.tasks == s.tasks.update(u, n.tasks[u])
    &&& n.tasks[u].agent() == s.world.agents.len()
    &&& n.desks == s.desks.update(u, n.desks[u])
    &&& keeps_all(s, n, u)
    &&& forall|v: int|
        0 <= v < 4 && v != u && s.lock == Some(v) ==> n.lock == Some(v) && n.shared == s.shared
}

/// An agent of a worker begins.
#[verifier::rlimit(50)]
proof fn lemma_begins_calm(s: Threads, n: Threads, u: int, agent: Agent)
    requires
        s.ok(),
        begins(s, n, u, agent),
    ensures
        calm(s, n, u),
        n.world.inv(),
        n.shape(),
        n.agent_of(u) == agent,
        n.guards_ok(),
        n.kept_ok(u),
        n.graves_ok(u),
{
    assert(s.world.inv() && s.shape() && s.guards_ok()) by {
        reveal(Threads::ok);
    }
    lemma_start(s.world, agent);
    lemma_started_shape(s, n, u, agent);
    lemma_keeps_all(s, n, u);
    assert(calm(s, n, u));
    lemma_sums(s, n, u);
    assert forall|i: int| 0 <= i < n.world.guards.len() implies #[trigger] n.world.guards[i]
        == n.held(i) by {
        assert(s.world.guards[i] == s.held(i));
        assert(n.held(i) - s.held(i) == n.holds(u, i) - s.holds(u, i));
        assert(n.holds(u, i) == s.holds(u, i));
    }
}

/// An agent of a worker begins, and the lists are as they were.
#[verifier::rlimit(50)]
proof fn lemma_begins(s: Threads, n: Threads, u: int, agent: Agent)
    requires
        s.ok(),
        begins(s, n, u, agent),
        n.shared == s.shared,
        n.desks[u].private == s.desks[u].private,
        !(n.tasks[u] is Remove),
        counted(s, n, u),
        n.task_ok(u),
    ensures
        n.ok(),
{
    lemma_begins_calm(s, n, u, agent);
    lemma_other_lists(s, n, u);
    assert forall|p: int| 0 <= p < 13 implies #[trigger] n.list(p) == s.list(p) by {
        if p == 5 + u {
            assert(n.pending(u) =~= s.pending(u));
        } else if p == 9 + u {
            assert(n.fresh(u) =~= s.fresh(u));
        }
    }
    assert(s.known() && s.distinct()) by {
        reveal(Threads::ok);
    }
    lemma_same_lists(s, n);
    lemma_calm(s, n, u);
}

/// Whether worker `u` is about to take up an operation.
spec fn ready(s: Threads, u: int) -> bool {
    &&& s.ok()
    &&& s.may_turn(u)
    &&& s.tasks[u] is Idle
}

/// What it is to take up an operation.
proof fn lemma_taking_up(s: Threads, u: int)
    requires
        ready(s, u),
    ensures
        s.desks.len() == 4,
        s.tasks.len() == 4,
        s.shape(),
        s.taking_up(u).desks.len() == 4,
        s.taking_up(u).desks == s.desks.update(u, s.taking_up(u).desks[u]),
        s.taking_up(u).desks[u].todo.len() + s.taking_up(u).begun == s.desks[u].todo.len()
            + s.begun,
        s.desks[u].todo.len() > 0 ==> s.taking_up(u).begun == s.begun + 1,
        s.desks[u].todo.len() == 0 ==> s.taking_up(u).begun == s.begun,
        s.taking_up(u).desks[u].private == s.desks[u].private,
        keeps_all(s, s.taking_up(u), u),
        s.taking_up(u).tasks == s.tasks,
        s.taking_up(u).world == s.world,
        s.taking_up(u).shared == s.shared,
        s.taking_up(u).lock == s.lock,
        s.taking_up(u).made == s.made,
        s.taking_up(u).dropped == s.dropped,
{
    reveal(Threads::ok);
}

/// A worker begins an insertion.
#[verifier::rlimit(50)]
proof fn lemma_begin_insert(s: Threads, u: int, value: u32)
    requires
        ready(s, u),
        s.desks[u].todo.len() > 0,
    ensures
        s.taking_up(u).beginning(u, Op::Insert(value)).ok(),
        s.taking_up(u).beginning(u, Op::InsertWithKey(value)).ok(),
{
    lemma_taking_up(s, u);
    let n = s.taking_up(u).beginning(u, Op::Insert(value));
    assert(n == s.taking_up(u).beginning(u, Op::InsertWithKey(value)));
    assert(begins(s, n, u, Agent::PopLoad));
    lemma_begins_calm(s, n, u, Agent::PopLoad);
    lemma_begins(s, n, u, Agent::PopLoad);
}

/// A worker begins a reservation.
#[verifier::rlimit(50)]
proof fn lemma_begin_reserve(s: Threads, u: int, additional: u8)
    requires
        ready(s, u),
        s.desks[u].todo.len() > 0,
    ensures
        s.taking_up(u).beginning(u, Op::Reserve(additional)).ok(),
{
    lemma_taking_up(s, u);
    let n = s.taking_up(u).beginning(u, Op::Reserve(additional));
    let agent = Agent::ReserveLen { additional: additional as usize };
    assert(begins(s, n, u, agent));
    lemma_begins_calm(s, n, u, agent);
    lemma_begins(s, n, u, agent);
}

/// An index that is brought into a list is in the list.
proof fn lemma_place(s: Threads, u: int, index: Index)
    requires
        s.keys(u, index).len() > 0,
    ensures
        0 <= s.place(u, index) < s.keys(u, index).len(),
{
    let raw = match index {
        Index::Shared(i) => i,
        Index::Private(i) => i,
    };
    lemma_mod_bound(raw as int, s.keys(u, index).len() as int);
}

/// A worker begins a lookup.
#[verifier::rlimit(50)]
proof fn lemma_begin_look(s: Threads, u: int, index: Index, aim: Aim)
    requires
        ready(s, u),
        s.desks[u].todo.len() > 0,
        index is Shared ==> s.lock is None,
        s.keys(u, index).len() > 0,
    ensures
        s.taking_up(u).looking(u, index, aim).ok(),
{
    lemma_taking_up(s, u);
    let n = s.taking_up(u).looking(u, index, aim);
    let at = s.place(u, index);
    let info = s.chosen(u, index);
    lemma_place(s, u, index);
    assert(s.taking_up(u).chosen(u, index) == info);
    let agent = Agent::Locate {
        lookup: Lookup::Get,
        idx: info.key.idx,
        version: info.key.version,
    };
    let p = if index is Shared {
        4
    } else {
        u
    };
    assert(s.list(p)[at] == info);
    assert(s.finds(info)) by {
        reveal(Threads::ok);
    }
    assert(occupied(info.key.version));
    assert(begins(s, n, u, agent));
    lemma_begins_calm(s, n, u, agent);
    assert(n.protects(u, info)) by {
        if index is Shared {
            assert(n.shared[at] == info);
        } else {
            assert(n.desks[u].private[at] == info);
        }
    }
    lemma_begins(s, n, u, agent);
}

/// A worker begins to remove an entry.
#[verifier::rlimit(50)]
proof fn lemma_begin_remove(s: Threads, u: int, index: Index, bury: bool)
    requires
        ready(s, u),
        s.desks[u].todo.len() > 0,
        index is Shared ==> s.lock is None,
        s.keys(u, index).len() > 0,
    ensures
        s.taking_up(u).removing(u, index, bury).ok(),
{
    lemma_taking_up(s, u);
    let n = s.taking_up(u).removing(u, index, bury);
    let at = s.place(u, index);
    let info = s.chosen(u, index);
    lemma_place(s, u, index);
    assert(s.taking_up(u).chosen(u, index) == info);
    let agent = Agent::Locate {
        lookup: Lookup::Remove,
        idx: info.key.idx,
        version: info.key.version,
    };
    let p = if index is Shared {
        4
    } else {
        u
    };
    assert(s.list(p)[at] == info);
    assert(s.known() && s.distinct() && s.finds(info)) by {
        reveal(Threads::ok);
    }
    assert(occupied(info.key.version));
    assert(n.desks =~= s.desks.update(u, n.desks[u]));
    assert(begins(s, n, u, agent));
    lemma_begins_calm(s, n, u, agent);
    lemma_other_lists(s, n, u);
    assert(n.pending(u) =~= s.pending(u).push(info));
    assert(n.fresh(u) =~= s.fresh(u));
    assert(n.list(p) =~= s.list(p).remove(at));
    assert(n.list(5 + u) == s.list(5 + u).push(info));
    assert forall|q: int| 0 <= q < 13 && q != p && q != 5 + u implies #[trigger] n.list(q) == s.list(
        q,
    ) by {}
    lemma_moved_entry(s, n, p, at, 5 + u);
    lemma_calm(s, n, u);
}

/// A worker begins to ask for a key that is gone.
#[verifier::rlimit(50)]
proof fn lemma_begin_miss(s: Threads, u: int, key: KeyView)
    requires
        ready(s, u),
        s.desks[u].todo.len() > 0,
        s.gone(key),
        occupied(key.version),
    ensures
        s.taking_up(u).missing(u, key, Lookup::Get, Ask::Get).ok(),
{
    lemma_taking_up(s, u);
    let n = s.taking_up(u).missing(u, key, Lookup::Get, Ask::Get);
    let agent = Agent::Locate { lookup: Lookup::Get, idx: key.idx, version: key.version };
    assert(begins(s, n, u, agent));
    lemma_begins_calm(s, n, u, agent);
    lemma_begins(s, n, u, agent);
}

/// Whether worker `u` is in the middle of nothing now, at another desk perhaps, and nothing else happens.
spec fn rests(s: Threads, n: Threads, u: int) -> bool {
    &&& 0 <= u < 4
    &&& s.tasks[u] is Idle || s.agent_of(u).wants() is Stop
    &&& n.world == s.world
    &&& n.tasks == s.tasks.update(u, Task::Idle)
    &&& n.desks == s.desks.update(u, n.desks[u])
    &&& forall|v: int|
        0 <= v < 4 && v != u && s.lock == Some(v) ==> n.lock == Some(v) && n.shared == s.shared
}

/// A worker is in the middle of nothing.
#[verifier::rlimit(50)]
proof fn lemma_rests_calm(s: Threads, n: Threads, u: int)
    requires
        s.ok(),
        rests(s, n, u),
    ensures
        calm(s, n, u),
        n.world.inv(),
        n.shape(),
        n.task_ok(u),
{
    assert(s.world.inv() && s.shape()) by {
        reveal(Threads::ok);
    }
    lemma_idle_shape(s, n, u);
}

/// A worker that was in the middle of nothing, or of nothing that it holds, goes on with what it has.
#[verifier::rlimit(50)]
proof fn lemma_rests_guards(s: Threads, n: Threads, u: int)
    requires
        s.ok(),
        rests(s, n, u),
        n.desks[u].retained == s.desks[u].retained,
        n.desks[u].owning == s.desks[u].owning,
        !(s.tasks[u] is Look),
    ensures
        n.guards_ok(),
{
    assert(s.guards_ok()) by {
        reveal(Threads::ok);
    }
    lemma_rests_calm(s, n, u);
    lemma_sums(s, n, u);
    assert forall|i: int| 0 <= i < n.world.guards.len() implies #[trigger] n.world.guards[i]
        == n.held(i) by {
        assert(s.world.guards[i] == s.held(i));
        assert(n.held(i) - s.held(i) == n.holds(u, i) - s.holds(u, i));
        assert(n.holds(u, i) == s.holds(u, i));
    }
}

/// The lists are as they were, where the worker was in the middle of nothing or has ended anything but
/// an insertion.
#[verifier::rlimit(50)]
proof fn lemma_rests_lists(s: Threads, n: Threads, u: int)
    requires
        s.ok(),
        rests(s, n, u),
        n.desks[u].private == s.desks[u].private,
        n.shared == s.shared,
        !(s.tasks[u] is Insert),
    ensures
        n.known(),
        n.distinct(),
{
    assert(s.known() && s.distinct()) by {
        reveal(Threads::ok);
    }
    lemma_rests_calm(s, n, u);
    lemma_other_lists(s, n, u);
    assert forall|p: int| 0 <= p < 13 implies #[trigger] n.list(p) == s.list(p) by {
        if p == 5 + u {
            assert(n.pending(u) =~= s.pending(u));
        } else if p == 9 + u {
            assert(n.fresh(u) =~= s.fresh(u));
        }
    }
    lemma_same_lists(s, n);
}

/// A worker takes up an operation for which there is nothing to do.
#[verifier::rlimit(50)]
proof fn lemma_begin_nothing(s: Threads, u: int)
    requires
        ready(s, u),
    ensures
        s.taking_up(u).ok(),
{
    lemma_taking_up(s, u);
    let n = s.taking_up(u);
    assert(n.tasks =~= s.tasks.update(u, Task::Idle));
    assert(rests(s, n, u));
    lemma_rests_calm(s, n, u);
    lemma_rests_guards(s, n, u);
    lemma_rests_lists(s, n, u);
    lemma_keeps_all(s, n, u);
    lemma_calm(s, n, u);
}

/// A worker makes one of its keys known to all.
#[verifier::rlimit(50)]
proof fn lemma_begin_publish(s: Threads, u: int, i: usize)
    requires
        ready(s, u),
        s.desks[u].todo.len() > 0,
        s.lock is None,
        s.desks[u].private.len() > 0,
    ensures
        s.taking_up(u).beginning(u, Op::Publish(i)).ok(),
{
    lemma_taking_up(s, u);
    let n = s.taking_up(u).beginning(u, Op::Publish(i));
    let at = i as int % s.desks[u].private.len() as int;
    lemma_mod_bound(i as int, s.desks[u].private.len() as int);
    assert(n.tasks =~= s.tasks.update(u, Task::Idle));
    assert(n.desks =~= s.desks.update(u, n.desks[u]));
    assert(rests(s, n, u));
    lemma_rests_calm(s, n, u);
    lemma_rests_guards(s, n, u);
    lemma_keeps_all(s, n, u);
    lemma_other_lists(s, n, u);
    assert(s.known() && s.distinct()) by {
        reveal(Threads::ok);
    }
    assert(n.pending(u) =~= s.pending(u));
    assert(n.fresh(u) =~= s.fresh(u));
    assert(n.list(u) == s.list(u).remove(at));
    assert(n.list(4) == s.list(4).push(s.list(u)[at]));
    assert forall|q: int| 0 <= q < 13 && q != u && q != 4 implies #[trigger] n.list(q) == s.list(
        q,
    ) by {}
    lemma_moved_entry(s, n, u, at, 4);
    lemma_calm(s, n, u);
}

/// Whether worker `u` begins to give back a guard that it has, at another desk perhaps.
spec fn releases(s: Threads, n: Threads, u: int, idx: u32) -> bool {
    &&& 0 <= u < 4
    &&& s.tasks[u] is Idle || (s.tasks[u] is Look && s.agent_of(u).wants() is Stop)
    &&& idx < s.world.state.slots.len()
    &&& s.world.guards[idx as int] > 0
    &&& n.world == s.world.releasing(idx)
    &&& n.tasks == s.tasks.update(u, Task::Release { t: s.world.agents.len() as int })
    &&& n.desks == s.desks.update(u, n.desks[u])
    &&& n.desks[u].private == s.desks[u].private
    &&& n.desks[u].graveyard == s.desks[u].graveyard
    &&& n.shared == s.shared
    &&& n.lock == s.lock
    &&& forall|i: int| #[trigger] n.holds(u, i) == s.holds(u, i) - one_if(idx == i)
}

/// A worker begins to give back a guard.
#[verifier::rlimit(50)]
proof fn lemma_releases(s: Threads, n: Threads, u: int, idx: u32)
    requires
        s.ok(),
        releases(s, n, u, idx),
        counted(s, n, u),
        n.kept_ok(u),
    ensures
        n.ok(),
{
    assert(s.world.inv() && s.shape() && s.guards_ok() && s.known() && s.distinct() && s.graves_ok(
        u,
    )) by {
        reveal(Threads::ok);
    }
    lemma_may_release(s, idx);
    let agent = Agent::RefDrop { idx, after: After::Release };
    lemma_started_shape(s, n, u, agent);
    assert(calm(s, n, u));
    lemma_sums(s, n, u);
    assert forall|i: int| 0 <= i < n.world.guards.len() implies #[trigger] n.world.guards[i]
        == n.held(i) by {
        assert(s.world.guards[i] == s.held(i));
        assert(n.held(i) - s.held(i) == n.holds(u, i) - s.holds(u, i));
    }
    assert forall|j: int| 0 <= j < n.desks[u].graveyard.len() implies n.gone(
        (#[trigger] n.desks[u].graveyard[j]).key,
    ) && occupied(n.desks[u].graveyard[j].key.version) by {
        assert(s.gone(s.desks[u].graveyard[j].key));
    }
    lemma_other_lists(s, n, u);
    assert forall|p: int| 0 <= p < 13 implies #[trigger] n.list(p) == s.list(p) by {
        if p == 5 + u {
            assert(n.pending(u) =~= s.pending(u));
        } else if p == 9 + u {
            assert(n.fresh(u) =~= s.fresh(u));
        }
    }
    lemma_same_lists(s, n);
    lemma_calm(s, n, u);
}

/// A worker begins to give back one of the guards that it keeps.
#[verifier::rlimit(50)]
proof fn lemma_begin_release(s: Threads, u: int, i: usize, clonable: bool)
    requires
        ready(s, u),
        clonable ==> s.desks[u].owning.len() > 0,
        !clonable ==> s.desks[u].retained.len() > 0,
    ensures
        clonable ==> s.taking_up(u).beginning(u, Op::RemoveRetainedArc(i)).ok(),
        !clonable ==> s.taking_up(u).beginning(u, Op::RemoveRetained(i)).ok(),
{
    lemma_taking_up(s, u);
    let op = if clonable {
        Op::RemoveRetainedArc(i)
    } else {
        Op::RemoveRetained(i)
    };
    let list = if clonable {
        s.desks[u].owning
    } else {
        s.desks[u].retained
    };
    let n = s.taking_up(u).beginning(u, op);
    let at = i as int % list.len() as int;
    lemma_mod_bound(i as int, list.len() as int);
    assert(s.world.inv() && s.kept_ok(u) && s.guards_ok()) by {
        reveal(Threads::ok);
    }
    lemma_kept_guarded(s, u, at, clonable);
    lemma_kept_remove(list, at);
    let idx = list[at].key.idx;
    assert(n.desks =~= s.desks.update(u, n.desks[u]));
    assert forall|i: int| #[trigger] n.holds(u, i) == s.holds(u, i) - one_if(idx == i) by {
        assert(kept(list, i) == kept(list.remove(at), i) + one_if(list[at].key.idx == i));
    }
    assert(releases(s, n, u, idx));
    assert forall|j: int| 0 <= j < n.desks[u].retained.len() implies n.reads(
        #[trigger] n.desks[u].retained[j],
    ) by {
        let k = if !clonable && j >= at {
            j + 1
        } else {
            j
        };
        assert(s.reads(s.desks[u].retained[k]));
    }
    assert forall|j: int| 0 <= j < n.desks[u].owning.len() implies n.reads(
        #[trigger] n.desks[u].owning[j],
    ) by {
        let k = if clonable && j >= at {
            j + 1
        } else {
            j
        };
        assert(s.reads(s.desks[u].owning[k]));
    }
    lemma_started_shape(s, n, u, Agent::RefDrop { idx, after: After::Release });
    lemma_releases(s, n, u, idx);
}

/// The key that a worker made up is beyond all slots.
proof fn lemma_forged(s: Threads, raw: usize)
    ensures
        s.gone(forged(raw)),
        occupied(forged(raw).version),
{
    assert(0 <= raw % 10000 < 10000);
}

/// Everything that holds of the workers holds once one of them has begun an operation.
#[verifier::rlimit(50)]
proof fn lemma_begin(s: Threads, u: int)
    requires
        ready(s, u),
    ensures
        s.taking_up(u).beginning(u, s.desks[u].next()->0).ok(),
{
    lemma_taking_up(s, u);
    lemma_begin_nothing(s, u);
    let desk = s.desks[u];
    match desk.next()->0 {
        Op::Reserve(additional) => lemma_begin_reserve(s, u, additional),
        Op::Insert(value) => lemma_begin_insert(s, u, value),
        Op::InsertWithKey(value) => lemma_begin_insert(s, u, value),
        Op::Publish(i) => {
            if desk.private.len() > 0 {
                lemma_begin_publish(s, u, i);
            }
        },
        Op::Remove(index) => {
            if s.keys(u, index).len() > 0 {
                lemma_begin_remove(s, u, index, false);
            }
        },
        Op::RemoveToGraveyard(index, _) => {
            if s.keys(u, index).len() > 0 {
                lemma_begin_remove(s, u, index, true);
            }
        },
        Op::Retrieve(index) => {
            if s.keys(u, index).len() > 0 {
                lemma_begin_look(s, u, index, Aim::Compare);
            }
        },
        Op::AddRetained(index) => {
            if s.keys(u, index).len() > 0 {
                lemma_begin_look(s, u, index, Aim::Retain);
            }
        },
        Op::AddRetainedArc(index) => {
            if s.keys(u, index).len() > 0 {
                lemma_begin_look(s, u, index, Aim::Own);
            }
        },
        Op::ReadRetained(_) => {},
        Op::ReadRetainedArc(_) => {},
        Op::RemoveRetained(i) => {
            if desk.retained.len() > 0 {
                lemma_begin_release(s, u, i, false);
            }
        },
        Op::RemoveRetainedArc(i) => {
            if desk.owning.len() > 0 {
                lemma_begin_release(s, u, i, true);
            }
        },
        Op::CheckGraveyard(i) => {
            if desk.graveyard.len() > 0 {
                let at = i as int % desk.graveyard.len() as int;
                lemma_mod_bound(i as int, desk.graveyard.len() as int);
                assert(s.graves_ok(u)) by {
                    reveal(Threads::ok);
                }
                assert(s.gone(desk.graveyard[at].key));
                lemma_begin_miss(s, u, desk.graveyard[at].key);
            }
        },
        Op::RetrieveForged(raw) => {
            lemma_forged(s, raw);
            lemma_begin_miss(s, u, forged(raw));
        },
    }
}

/// Whether worker `u` is about to end what it is in the middle of.
spec fn through(s: Threads, u: int) -> bool {
    &&& s.ok()
    &&& 0 <= u < 4
    &&& !(s.tasks[u] is Idle)
    &&& s.agent_of(u).wants() is Stop
}

/// Everything that a worker checks holds.
#[verifier::rlimit(50)]
pub proof fn lemma_checks(s: Threads, u: int)
    requires
        s.ok(),
        s.may_turn(u),
    ensures
        s.checks(u),
{
    reveal(Threads::ok);
    let desk = s.desks[u];
    assert(s.task_ok(u));
    assert(s.kept_ok(u));
    match s.tasks[u] {
        Task::Idle => match desk.next()->0 {
            Op::ReadRetained(i) => {
                if desk.retained.len() > 0 {
                    lemma_mod_bound(i as int, desk.retained.len() as int);
                }
            },
            Op::RemoveRetained(i) => {
                if desk.retained.len() > 0 {
                    lemma_mod_bound(i as int, desk.retained.len() as int);
                }
            },
            Op::ReadRetainedArc(i) => {
                if desk.owning.len() > 0 {
                    lemma_mod_bound(i as int, desk.owning.len() as int);
                }
            },
            Op::RemoveRetainedArc(i) => {
                if desk.owning.len() > 0 {
                    lemma_mod_bound(i as int, desk.owning.len() as int);
                }
            },
            _ => {},
        },
        Task::Look { t: _, info, aim: _ } => {
            lemma_protected(s, u, info);
        },
        _ => {},
    }
}

/// A worker ends an insertion, and writes the key down.
#[verifier::rlimit(50)]
proof fn lemma_end_insert(s: Threads, u: int)
    requires
        through(s, u),
        s.tasks[u] is Insert,
    ensures
        s.ending(u).ok(),
{
    assert(s.task_ok(u) && s.known() && s.distinct() && s.shape()) by {
        reveal(Threads::ok);
    }
    let n = s.ending(u);
    assert(s.agent_of(u) is Inserted);
    assert(rests(s, n, u));
    lemma_rests_calm(s, n, u);
    lemma_rests_guards(s, n, u);
    lemma_keeps_all(s, n, u);
    lemma_other_lists(s, n, u);
    assert(n.pending(u) =~= s.pending(u));
    assert(n.fresh(u) =~= s.fresh(u).remove(0));
    assert(n.list(9 + u) == s.list(9 + u).remove(0));
    assert(n.list(u) == s.list(u).push(s.list(9 + u)[0]));
    assert forall|q: int| 0 <= q < 13 && q != u && q != 9 + u implies #[trigger] n.list(q) == s.list(
        q,
    ) by {}
    lemma_moved_entry(s, n, 9 + u, 0, u);
    lemma_calm(s, n, u);
}

/// A worker ends a removal, and may write the key down as gone.
#[verifier::rlimit(50)]
proof fn lemma_end_remove(s: Threads, u: int)
    requires
        through(s, u),
        s.tasks[u] is Remove,
    ensures
        s.ending(u).ok(),
{
    assert(s.task_ok(u) && s.shape() && s.kept_ok(u) && s.graves_ok(u)) by {
        reveal(Threads::ok);
    }
    let n = s.ending(u);
    assert(n.desks =~= s.desks.update(u, n.desks[u]));
    assert(rests(s, n, u));
    lemma_rests_calm(s, n, u);
    lemma_rests_guards(s, n, u);
    lemma_rests_lists(s, n, u);
    assert forall|j: int| 0 <= j < n.desks[u].graveyard.len() implies n.gone(
        (#[trigger] n.desks[u].graveyard[j]).key,
    ) && occupied(n.desks[u].graveyard[j].key.version) by {
        if j < s.desks[u].graveyard.len() {
            assert(s.gone(s.desks[u].graveyard[j].key));
        }
    }
    assert forall|j: int| 0 <= j < n.desks[u].retained.len() implies n.reads(
        #[trigger] n.desks[u].retained[j],
    ) by {
        assert(s.reads(s.desks[u].retained[j]));
    }
    assert forall|j: int| 0 <= j < n.desks[u].owning.len() implies n.reads(
        #[trigger] n.desks[u].owning[j],
    ) by {
        assert(s.reads(s.desks[u].owning[j]));
    }
    lemma_calm(s, n, u);
}

/// A worker has nothing to write down.
#[verifier::rlimit(50)]
proof fn lemma_end_idle(s: Threads, u: int)
    requires
        through(s, u),
        s.tasks[u] is Release || s.tasks[u] is Reserve || s.tasks[u] is Miss,
    ensures
        s.idling(u).ok(),
{
    assert(s.task_ok(u) && s.shape()) by {
        reveal(Threads::ok);
    }
    let n = s.idling(u);
    assert(n.desks =~= s.desks.update(u, n.desks[u]));
    assert(rests(s, n, u));
    lemma_rests_calm(s, n, u);
    lemma_rests_guards(s, n, u);
    lemma_rests_lists(s, n, u);
    lemma_keeps_all(s, n, u);
    lemma_calm(s, n, u);
}

/// A worker goes on to ask for the same key in another way.
#[verifier::rlimit(50)]
proof fn lemma_end_miss(s: Threads, u: int, key: KeyView, lookup: Lookup, ask: Ask)
    requires
        through(s, u),
        s.tasks[u] is Miss,
        s.tasks[u]->Miss_key == key,
        (lookup == Lookup::Contains && ask is Contains) || (lookup == Lookup::Remove
            && ask is Remove),
    ensures
        s.missing(u, key, lookup, ask).ok(),
{
    assert(s.task_ok(u) && s.shape()) by {
        reveal(Threads::ok);
    }
    let n = s.missing(u, key, lookup, ask);
    let agent = Agent::Locate { lookup, idx: key.idx, version: key.version };
    assert(n.desks =~= s.desks.update(u, n.desks[u]));
    assert(begins(s, n, u, agent));
    lemma_begins_calm(s, n, u, agent);
    lemma_begins(s, n, u, agent);
}

/// A worker gives the guard back that it took to compare the value.
#[verifier::rlimit(50)]
proof fn lemma_end_compare(s: Threads, u: int)
    requires
        through(s, u),
        s.tasks[u] is Look,
    ensures
        s.releasing(u, s.tasks[u]->Look_info.key.idx).ok(),
        s.world.guards[s.tasks[u]->Look_info.key.idx as int] > 0,
        s.tasks[u]->Look_info.key.idx < s.world.state.slots.len(),
{
    assert(s.task_ok(u) && s.shape() && s.world.inv() && s.known() && s.guards_ok()) by {
        reveal(Threads::ok);
    }
    let info = s.tasks[u]->Look_info;
    let idx = info.key.idx;
    let n = s.releasing(u, idx);
    lemma_protected(s, u, info);
    assert(n.desks =~= s.desks.update(u, n.desks[u]));
    assert(s.world.guards[idx as int] == s.held(idx as int));
    lemma_holds_nonnegative(s, idx as int);
    lemma_kept_nonnegative(s.desks[u].retained, idx as int);
    lemma_kept_nonnegative(s.desks[u].owning, idx as int);
    assert(s.holds(u, idx as int) > 0);
    assert(s.held(idx as int) >= s.holds(u, idx as int)) by {
        assert(s.holds(0, idx as int) >= 0 && s.holds(1, idx as int) >= 0 && s.holds(2, idx as int)
            >= 0 && s.holds(3, idx as int) >= 0);
    }
    assert(releases(s, n, u, idx));
    lemma_keeps_all(s, n, u);
    lemma_started_shape(s, n, u, Agent::RefDrop { idx, after: After::Release });
    lemma_releases(s, n, u, idx);
}

/// A worker keeps the guard that it took.
#[verifier::rlimit(50)]
proof fn lemma_end_keep(s: Threads, u: int, clonable: bool)
    requires
        through(s, u),
        s.tasks[u] is Look,
        s.tasks[u]->Look_aim == (if clonable {
            Aim::Own
        } else {
            Aim::Retain
        }),
    ensures
        s.ending(u).ok(),
{
    assert(s.task_ok(u) && s.shape() && s.world.inv() && s.known() && s.guards_ok() && s.kept_ok(u)
        && s.graves_ok(u)) by {
        reveal(Threads::ok);
    }
    let info = s.tasks[u]->Look_info;
    let n = s.ending(u);
    lemma_protected(s, u, info);
    lemma_kept_push(s.desks[u].retained, info);
    lemma_kept_push(s.desks[u].owning, info);
    assert(rests(s, n, u));
    lemma_rests_calm(s, n, u);
    lemma_rests_lists(s, n, u);
    lemma_sums(s, n, u);
    assert forall|i: int| 0 <= i < n.world.guards.len() implies #[trigger] n.world.guards[i]
        == n.held(i) by {
        assert(s.world.guards[i] == s.held(i));
        assert(n.held(i) - s.held(i) == n.holds(u, i) - s.holds(u, i));
        assert(n.holds(u, i) == s.holds(u, i));
    }
    assert forall|j: int| 0 <= j < n.desks[u].retained.len() implies n.reads(
        #[trigger] n.desks[u].retained[j],
    ) by {
        if j < s.desks[u].retained.len() {
            assert(s.reads(s.desks[u].retained[j]));
        }
    }
    assert forall|j: int| 0 <= j < n.desks[u].owning.len() implies n.reads(
        #[trigger] n.desks[u].owning[j],
    ) by {
        if j < s.desks[u].owning.len() {
            assert(s.reads(s.desks[u].owning[j]));
        }
    }
    assert forall|j: int| 0 <= j < n.desks[u].graveyard.len() implies n.gone(
        (#[trigger] n.desks[u].graveyard[j]).key,
    ) && occupied(n.desks[u].graveyard[j].key.version) by {
        assert(s.gone(s.desks[u].graveyard[j].key));
    }
    lemma_calm(s, n, u);
}

/// Everything that holds of the workers holds once one of them has ended what it was in the middle of.
#[verifier::rlimit(50)]
proof fn lemma_end(s: Threads, u: int)
    requires
        through(s, u),
    ensures
        s.ending(u).ok(),
{
    match s.tasks[u] {
        Task::Idle => {},
        Task::Insert { .. } => lemma_end_insert(s, u),
        Task::Remove { .. } => lemma_end_remove(s, u),
        Task::Look { t: _, info: _, aim } => match aim {
            Aim::Compare => lemma_end_compare(s, u),
            Aim::Retain => lemma_end_keep(s, u, false),
            Aim::Own => lemma_end_keep(s, u, true),
        },
        Task::Miss { t: _, key, ask } => match ask {
            Ask::Get => lemma_end_miss(s, u, key, Lookup::Contains, Ask::Contains),
            Ask::Contains => lemma_end_miss(s, u, key, Lookup::Remove, Ask::Remove),
            Ask::Remove => lemma_end_idle(s, u),
        },
        Task::Release { .. } => lemma_end_idle(s, u),
        Task::Reserve { .. } => lemma_end_idle(s, u),
    }
}

/// Whichever worker goes on, everything that holds of the workers holds afterwards.
pub proof fn lemma_turned(s: Threads, u: int, weak: bool)
    requires
        s.ok(),
        s.may_turn(u),
    ensures
        s.turned(u, weak).ok(),
{
    if s.tasks[u] is Idle {
        lemma_begin(s, u);
    } else if s.agent_of(u).wants() is Stop {
        lemma_end(s, u);
    } else {
        lemma_stride(s, u, weak);
    }
}

/// What one worker does is a move of the agents, or does not touch them.
#[verifier::rlimit(50)]
proof fn lemma_turned_world(s: Threads, u: int, weak: bool)
    requires
        s.ok(),
        s.may_turn(u),
    ensures
        s.turned(u, weak).world == s.world || exists|m: Move<Value>|
            #![trigger s.world.permits(m)]
            s.world.permits(m) && s.turned(u, weak).world == s.world.moved(m),
{
    let n = s.turned(u, weak);
    let desk = s.desks[u];
    assert(s.world.inv() && s.shape() && s.task_ok(u) && s.kept_ok(u) && s.graves_ok(u)
        && s.guards_ok() && s.known()) by {
        reveal(Threads::ok);
    }
    if !(s.tasks[u] is Idle) && !(s.agent_of(u).wants() is Stop) {
        lemma_permitted(s, u, weak);
        assert(s.world.permits(s.next_move(u, weak)));
    } else if s.tasks[u] is Idle {
        lemma_taking_up(s, u);
        match desk.next()->0 {
            Op::RemoveRetained(i) => {
                if desk.retained.len() > 0 {
                    let at = i as int % desk.retained.len() as int;
                    lemma_mod_bound(i as int, desk.retained.len() as int);
                    lemma_kept_guarded(s, u, at, false);
                    lemma_may_release(s, desk.retained[at].key.idx);
                    assert(s.world.permits(Move::Release { idx: desk.retained[at].key.idx }));
                }
            },
            Op::RemoveRetainedArc(i) => {
                if desk.owning.len() > 0 {
                    let at = i as int % desk.owning.len() as int;
                    lemma_mod_bound(i as int, desk.owning.len() as int);
                    lemma_kept_guarded(s, u, at, true);
                    lemma_may_release(s, desk.owning[at].key.idx);
                    assert(s.world.permits(Move::Release { idx: desk.owning[at].key.idx }));
                }
            },
            op => {
                lemma_begin_starts(s, u, op);
                if n.world != s.world {
                    assert(s.world.permits(Move::Start { agent: n.world.agents.last() }));
                }
            },
        }
    } else {
        match s.tasks[u] {
            Task::Look { t: _, info, aim: Aim::Compare } => {
                lemma_end_compare(s, u);
                lemma_may_release(s, info.key.idx);
                assert(s.world.permits(Move::Release { idx: info.key.idx }));
            },
            Task::Miss { t: _, key, ask } => {
                let lookup = if ask is Get {
                    Lookup::Contains
                } else {
                    Lookup::Remove
                };
                let agent = Agent::Locate { lookup, idx: key.idx, version: key.version };
                assert(s.world.permits(Move::Start { agent }));
            },
            _ => {},
        }
    }
}

/// An operation that does not give a guard back begins with an agent that may begin, or with none.
#[verifier::rlimit(50)]
proof fn lemma_begin_starts(s: Threads, u: int, op: Op)
    requires
        ready(s, u),
        s.desks[u].next() == Some(op),
        !(op is RemoveRetained),
        !(op is RemoveRetainedArc),
    ensures
        ({
            let n = s.taking_up(u).beginning(u, op);
            n.world == s.world || (World::<Value>::may_start(n.world.agents.last()) && n.world
                == s.world.started(n.world.agents.last()))
        }),
{
    let desk = s.desks[u];
    lemma_taking_up(s, u);
    assert(s.graves_ok(u) && s.known()) by {
        reveal(Threads::ok);
    }
    match op {
        Op::Remove(index) => lemma_chosen_occupied(s, u, index),
        Op::RemoveToGraveyard(index, _) => lemma_chosen_occupied(s, u, index),
        Op::Retrieve(index) => lemma_chosen_occupied(s, u, index),
        Op::AddRetained(index) => lemma_chosen_occupied(s, u, index),
        Op::AddRetainedArc(index) => lemma_chosen_occupied(s, u, index),
        Op::CheckGraveyard(i) => {
            if desk.graveyard.len() > 0 {
                lemma_mod_bound(i as int, desk.graveyard.len() as int);
                assert(s.gone(desk.graveyard[i as int % desk.graveyard.len() as int].key));
            }
        },
        Op::RetrieveForged(raw) => lemma_forged(s, raw),
        _ => {},
    }
}

/// The key of an entry is one that can be in a map.
proof fn lemma_chosen_occupied(s: Threads, u: int, index: Index)
    requires
        ready(s, u),
    ensures
        s.keys(u, index).len() > 0 ==> occupied(s.chosen(u, index).key.version)
            && s.taking_up(u).chosen(u, index) == s.chosen(u, index),
{
    lemma_taking_up(s, u);
    if s.keys(u, index).len() > 0 {
        lemma_place(s, u, index);
        let p = if index is Shared {
            4
        } else {
            u
        };
        assert(s.list(p)[s.place(u, index)] == s.chosen(u, index));
        assert(s.finds(s.chosen(u, index))) by {
            reveal(Threads::ok);
        }
    }
}

/// At the beginning everything holds.
#[verifier::rlimit(50)]
proof fn lemma_assembled(map: State<Value>, ops: Seq<Seq<Op>>)
    requires
        map.settled(),
        map == State::<Value>::empty(map.present),
        assembled(map, ops).todo() <= MAX_OPS,
    ensures
        assembled(map, ops).ok(),
{
    let s = assembled(map, ops);
    lemma_rest(map);
    assert(s.world.ops == 0) by {
        lemma_packed_head(0, SENTINEL);
    }
    assert(filled(map.slots) == 0);
    assert forall|u: int| 0 <= u < 4 implies #[trigger] s.task_ok(u) by {}
    assert forall|u: int| 0 <= u < 4 implies #[trigger] s.kept_ok(u) by {}
    assert forall|u: int| 0 <= u < 4 implies #[trigger] s.graves_ok(u) by {}
    assert forall|p: int| 0 <= p < 13 implies (#[trigger] s.list(p)).len() == 0 by {}
    assert(s.ok()) by {
        reveal(Threads::ok);
    }
}

/// Four workers use an empty map, and the single steps of their operations come in any order. Everything
/// that the workers check holds: what is inserted is there under its own key with its own value for
/// every worker that knows the key until it is removed, every removal of such a key takes it, every guard
/// leads to its value for as long as it is kept, and a removed key or one that was never given is found by
/// no lookup, no question and no removal. What the workers do is a run of the agents.
#[verifier::rlimit(50)]
pub proof fn lemma_every_interleaving_passes(
    map: State<Value>,
    ops: Seq<Seq<Op>>,
    order: Seq<(int, bool)>,
)
    requires
        map.settled(),
        map == State::<Value>::empty(map.present),
        assembled(map, ops).todo() <= MAX_OPS,
        assembled(map, ops).may_play(order),
    ensures
        assembled(map, ops).passes(order),
        assembled(map, ops).played(order).ok(),
        exists|moves: Seq<Move<Value>>|
            #![trigger World::at_rest(map).may_run(moves)]
            World::at_rest(map).may_run(moves) && assembled(map, ops).played(order).world
                == World::at_rest(map).run(moves),
    decreases order.len(),
{
    let first = assembled(map, ops);
    let w = World::at_rest(map);
    if order.len() == 0 {
        lemma_assembled(map, ops);
        let moves = Seq::<Move<Value>>::empty();
        assert(w.may_run(moves) && w.run(moves) == w);
    } else {
        let rest = order.drop_last();
        let (u, weak) = order.last();
        let before = first.played(rest);
        lemma_every_interleaving_passes(map, ops, rest);
        lemma_checks(before, u);
        lemma_turned(before, u, weak);
        lemma_turned_world(before, u, weak);
        let moves = choose|moves: Seq<Move<Value>>|
            #![trigger w.may_run(moves)]
            w.may_run(moves) && before.world == w.run(moves);
        if before.turned(u, weak).world != before.world {
            let m = choose|m: Move<Value>|
                #![trigger before.world.permits(m)]
                before.world.permits(m) && before.turned(u, weak).world == before.world.moved(m);
            let more = moves.push(m);
            assert(more.drop_last() =~= moves);
            assert(w.may_run(more));
        }
    }
}

/// How many values a list of operations makes.
pub open spec fn insertions(ops: Seq<Op>) -> nat
    decreases ops.len(),
{
    if ops.len() == 0 {
        0
    } else {
        insertions(ops.drop_first()) + (if makes_value(ops[0]) {
            1nat
        } else {
            0nat
        })
    }
}

/// How many values the operations make that are left.
pub open spec fn to_make(s: Threads) -> nat {
    insertions(s.desks[0].todo) + insertions(s.desks[1].todo) + insertions(s.desks[2].todo)
        + insertions(s.desks[3].todo)
}

/// Each insertion makes one value.
#[verifier::rlimit(50)]
proof fn lemma_making(s: Threads, u: int, weak: bool)
    requires
        s.ok(),
        s.may_turn(u),
    ensures
        s.turned(u, weak).made + to_make(s.turned(u, weak)) == s.made + to_make(s),
{
    let n = s.turned(u, weak);
    assert(s.desks.len() == 4) by {
        reveal(Threads::ok);
    }
    assert(n.desks.len() == 4);
    assert(forall|v: int| 0 <= v < 4 && v != u ==> #[trigger] n.desks[v] == s.desks[v]);
    assert(n.made + insertions(n.desks[u].todo) == s.made + insertions(s.desks[u].todo));
    assert(u == 0 || u == 1 || u == 2 || u == 3);
}

/// Each insertion that was begun made one value, whatever the order of the steps.
proof fn lemma_made(map: State<Value>, ops: Seq<Seq<Op>>, order: Seq<(int, bool)>)
    requires
        map.settled(),
        map == State::<Value>::empty(map.present),
        assembled(map, ops).todo() <= MAX_OPS,
        assembled(map, ops).may_play(order),
    ensures
        assembled(map, ops).played(order).made + to_make(assembled(map, ops).played(order))
            == to_make(assembled(map, ops)),
    decreases order.len(),
{
    if order.len() > 0 {
        let rest = order.drop_last();
        lemma_made(map, ops, rest);
        lemma_every_interleaving_passes(map, ops, rest);
        lemma_making(assembled(map, ops).played(rest), order.last().0, order.last().1);
    }
}

/// Once all workers are done, whatever the order of their single steps was, nothing is lost: the map is in
/// a state between two operations, nobody holds a value outside it, and of the values that the insertions
/// made each was dropped exactly once or is in the map still.
#[verifier::rlimit(50)]
pub proof fn lemma_every_interleaving_settles(
    map: State<Value>,
    ops: Seq<Seq<Op>>,
    order: Seq<(int, bool)>,
)
    requires
        map.settled(),
        map == State::<Value>::empty(map.present),
        assembled(map, ops).todo() <= MAX_OPS,
        assembled(map, ops).may_play(order),
        assembled(map, ops).played(order).all_done(),
    ensures
        ({
            let last = assembled(map, ops).played(order);
            let state = last.world.state;
            &&& state.settled()
            &&& state.stored().dom() == state.live().dom()
            &&& last.made == to_make(assembled(map, ops))
            &&& last.made == last.dropped + state.live().dom().len()
            &&& state.num_elems == state.live().dom().len()
        }),
{
    let last = assembled(map, ops).played(order);
    let w = last.world;
    let state = w.state;
    lemma_every_interleaving_passes(map, ops, order);
    lemma_made(map, ops, order);
    reveal(Threads::ok);
    assert forall|u: int| 0 <= u < 4 implies last.tasks[u] is Idle && last.desks[u].retained.len()
        == 0 && (#[trigger] last.desks[u]).owning.len() == 0 by {
        assert(last.desks[u].next() is None);
    }
    assert(w.quiescent()) by {
        assert(last.desks[0].next() is None && last.desks[1].next() is None
            && last.desks[2].next() is None && last.desks[3].next() is None);
    }
    lemma_quiescent(w);
    assert forall|i: int| 0 <= i < w.guards.len() implies #[trigger] w.guards[i] == 0 by {
        assert(w.guards[i] == last.held(i));
        assert(last.desks[0].owning.len() == 0 && last.desks[1].owning.len() == 0
            && last.desks[2].owning.len() == 0 && last.desks[3].owning.len() == 0);
    }
    assert forall|key: KeyView| #[trigger] state.stored().dom().contains(key)
        == state.live().dom().contains(key) by {
        if key.idx < state.slots.len() {
            assert(state.slot_ok(key.idx as int));
            assert(w.guards[key.idx as int] == 0);
        }
    }
    assert(state.stored().dom() =~= state.live().dom());
    lemma_filled_is_stored(state);
    lemma_live_len(state);
    assert(last.desks[0].next() is None && last.desks[1].next() is None
        && last.desks[2].next() is None && last.desks[3].next() is None);
}

/// The maps that a workload can begin with are such empty maps.
pub proof fn lemma_constructed(ctor: Constructor)
    ensures
        constructed(ctor).settled(),
        constructed(ctor) == State::<Value>::empty(constructed(ctor).present),
{
    reveal(prefix_closed);
    lemma_packed_head(0, SENTINEL);
    assert(State::<Value>::empty(no_chunks()).settled());
    match ctor {
        Constructor::New => {},
        Constructor::WithCapacity(n) => {
            lemma_reserved(State::<Value>::empty(no_chunks()), n as nat);
        },
    }
}

} // verus!
