//! What holds at every moment of four workers whose single steps come in any order.
#[allow(unused_imports)]
use crate::count::{has_role, lemma_count_nonnegative, one_if, Role};
#[allow(unused_imports)]
use crate::fuzz::Value;
#[allow(unused_imports)]
use crate::protocol::{After, Agent, Lookup};
#[allow(unused_imports)]
use crate::replay::{carries, returning};
#[allow(unused_imports)]
use crate::runs::{lemma_advance, Move};
#[allow(unused_imports)]
use crate::session::{Info, MAX_OPS};
#[allow(unused_imports)]
use crate::slot::occupied;
#[allow(unused_imports)]
use crate::threads::{Ask, Task, Threads};
#[allow(unused_imports)]
use crate::util::KeyView;
#[allow(unused_imports)]
use crate::values::filled;
#[allow(unused_imports)]
use vstd::prelude::*;

verus! {

/// Whether an agent is an insertion that has not taken a slot yet.
pub open spec fn is_claiming(agent: Agent) -> bool {
    agent is PopLoad || agent is PopNext || agent is PopCas || agent is GrowLen
}

/// Whether an agent is an insertion that has taken a slot and has not written its value yet.
pub open spec fn is_filling(agent: Agent) -> bool {
    agent is ChunkLoad || agent is ChunkInstall || agent is VersionLoad || agent is Claimed
        || agent is DataWrite
}

/// Whether an agent is an insertion that has written its value and has not published it yet.
pub open spec fn is_publishing(agent: Agent) -> bool {
    agent is RefStore || agent is VersionStore
}

/// Whether an agent is an insertion that has published its value.
pub open spec fn is_published(agent: Agent) -> bool {
    agent is NumAdd || agent is Inserted
}

/// Whether an agent looks up a key, and has no reference yet.
pub open spec fn is_seeking(agent: Agent, key: KeyView) -> bool {
    ||| agent == (Agent::Locate { lookup: Lookup::Get, idx: key.idx, version: key.version })
    ||| agent == (Agent::Await { lookup: Lookup::Get, idx: key.idx, version: key.version })
    ||| agent == (Agent::RefLoad { idx: key.idx, version: key.version })
    ||| agent matches Agent::RefCas { idx, version, count: _ } && idx == key.idx && version
        == key.version
}

/// Whether an agent looks up a key.
pub open spec fn is_getting(agent: Agent, key: KeyView) -> bool {
    is_seeking(agent, key) || agent == (Agent::RefCheck { idx: key.idx, version: key.version })
}

/// Whether an agent is to remove a key, and has not decided yet.
pub open spec fn is_removing(agent: Agent, key: KeyView) -> bool {
    ||| agent == (Agent::Locate { lookup: Lookup::Remove, idx: key.idx, version: key.version })
    ||| agent == (Agent::Await { lookup: Lookup::Remove, idx: key.idx, version: key.version })
    ||| agent == (Agent::RemoveLoad { idx: key.idx, version: key.version })
    ||| agent == (Agent::RemoveCas { idx: key.idx, version: key.version })
}

/// Whether an agent asks for a key, and has no answer yet.
pub open spec fn is_asking(agent: Agent, key: KeyView) -> bool {
    ||| agent == (Agent::Locate { lookup: Lookup::Contains, idx: key.idx, version: key.version })
    ||| agent == (Agent::Await { lookup: Lookup::Contains, idx: key.idx, version: key.version })
    ||| agent == (Agent::ContainsLoad { idx: key.idx, version: key.version })
}

/// Whether an agent gives a guard back.
pub open spec fn is_releasing(agent: Agent) -> bool {
    match agent {
        Agent::RefDrop { idx: _, after } => after == After::Release,
        Agent::ValueDrop { idx: _, after } => after == After::Release,
        Agent::FreeLoad { idx: _, after } => after == After::Release,
        Agent::FreeLink { idx: _, head: _, after } => after == After::Release,
        Agent::FreeCas { idx: _, head: _, after } => after == After::Release,
        Agent::Released => true,
        _ => false,
    }
}

/// Whether an agent makes a little room.
pub open spec fn is_reserving(agent: Agent) -> bool {
    match agent {
        Agent::ReserveLen { additional } => additional <= 255,
        Agent::ReserveScan { next: _, len: _, in_use: _, additional } => additional <= 255,
        Agent::ReserveCount { next: _, len: _, in_use: _, additional } => additional <= 255,
        Agent::ReserveLoad { .. } => true,
        Agent::ReserveInstall { .. } => true,
        Agent::Reserved => true,
        _ => false,
    }
}

/// How many of the entries have a key of slot `i`.
pub open spec fn kept(infos: Seq<Info>, i: int) -> int
    decreases infos.len(),
{
    if infos.len() == 0 {
        0
    } else {
        kept(infos.drop_last(), i) + one_if(infos.last().key.idx == i)
    }
}

impl Threads {
    /// The entry that worker `u` took out to remove it, until its key is gone.
    pub open spec fn pending(self, u: int) -> Seq<Info> {
        match self.tasks[u] {
            Task::Remove { t: _, info, bury: _ } => if is_removing(self.agent_of(u), info.key) {
                seq![info]
            } else {
                Seq::empty()
            },
            _ => Seq::empty(),
        }
    }

    /// The entry that worker `u` has inserted and not written down yet.
    pub open spec fn fresh(self, u: int) -> Seq<Info> {
        match (self.tasks[u], self.agent_of(u)) {
            (Task::Insert { t: _, value }, Agent::NumAdd { idx, version }) => seq![
                Info { key: KeyView { idx, version }, value },
            ],
            (Task::Insert { t: _, value }, Agent::Inserted { idx, version }) => seq![
                Info { key: KeyView { idx, version }, value },
            ],
            _ => Seq::empty(),
        }
    }

    /// All places where an entry can be: the lists of the workers, the shared list, and what the
    /// workers are in the middle of.
    pub open spec fn list(self, p: int) -> Seq<Info> {
        if p < 4 {
            self.desks[p].private
        } else if p == 4 {
            self.shared
        } else if p < 9 {
            self.pending(p - 5)
        } else {
            self.fresh(p - 9)
        }
    }

    /// Whether the map has a key with the expected value.
    pub open spec fn finds(self, info: Info) -> bool {
        self.world.state.live().contains_key(info.key)
            && self.world.state.live()[info.key].number() == info.value
    }

    /// The map has every key that is in a list.
    pub open spec fn known(self) -> bool {
        forall|p: int, i: int|
            0 <= p < 13 && 0 <= i < self.list(p).len() ==> self.finds(#[trigger] self.list(p)[i])
    }

    /// No key is in two places.
    pub open spec fn distinct(self) -> bool {
        forall|p: int, i: int, q: int, j: int|
            0 <= p < 13 && 0 <= i < self.list(p).len() && 0 <= q < 13 && 0 <= j < self.list(q).len()
                && (#[trigger] self.list(p)[i]).key == (#[trigger] self.list(q)[j]).key ==> p == q
                && i == j
    }

    /// Nobody but worker `u` can take an entry out of its list.
    pub open spec fn protects(self, u: int, info: Info) -> bool {
        ||| exists|j: int|
            0 <= j < self.desks[u].private.len() && #[trigger] self.desks[u].private[j] == info
        ||| self.lock == Some(u) && exists|j: int|
            0 <= j < self.shared.len() && #[trigger] self.shared[j] == info
    }

    /// A key that will not be in the map any more.
    pub open spec fn gone(self, key: KeyView) -> bool {
        ||| key.idx >= MAX_OPS
        ||| key.idx < self.world.state.slots.len() && key.version < self.world.state.slots[
            key.idx as int].version
    }

    /// What worker `u` is in the middle of goes as it should.
    pub open spec fn task_ok(self, u: int) -> bool {
        let agent = self.agent_of(u);
        match self.tasks[u] {
            Task::Idle => true,
            Task::Insert { t, value } => (is_claiming(agent) || is_filling(agent) || is_publishing(
                agent,
            ) || is_published(agent)) && (is_publishing(agent) || agent is DataWrite ==> carries(
                self.world,
                t,
                Value::of(value),
            )),
            Task::Remove { t: _, info, bury: _ } => occupied(info.key.version) && (is_removing(
                agent,
                info.key,
            ) || ((has_role(Role::Subtractor, agent, 0) || agent == (Agent::Removed {
                found: true,
            })) && self.gone(info.key))),
            Task::Look { t: _, info, aim: _ } => self.protects(u, info) && (is_getting(
                agent,
                info.key,
            ) || agent == (Agent::Guarding { idx: info.key.idx, version: info.key.version })),
            Task::Miss { t: _, key, ask } => occupied(key.version) && self.gone(key) && match ask {
                Ask::Get => is_getting(agent, key) || returning(agent) || agent == Agent::Missing,
                Ask::Contains => is_asking(agent, key) || agent == (Agent::Contained {
                    found: false,
                }),
                Ask::Remove => is_removing(agent, key) || agent == (Agent::Removed {
                    found: false,
                }),
            },
            Task::Release { t: _ } => is_releasing(agent),
            Task::Reserve { t: _ } => is_reserving(agent),
        }
    }

    /// Every worker has an agent of its own, and there are no others at work.
    pub open spec fn shape(self) -> bool {
        &&& self.desks.len() == 4
        &&& self.tasks.len() == 4
        &&& forall|u: int|
            0 <= u < 4 && !((#[trigger] self.tasks[u]) is Idle) ==> 0 <= self.tasks[u].agent()
                < self.world.agents.len()
        &&& forall|u: int, v: int|
            0 <= u < 4 && 0 <= v < 4 && u != v && !((#[trigger] self.tasks[u]) is Idle)
                ==> self.tasks[u].agent() != (#[trigger] self.tasks[v]).agent()
        &&& forall|t: int|
            0 <= t < self.world.agents.len() && !((#[trigger] self.world.agents[t]).wants() is Stop)
                ==> self.tasks[0].agent() == t || self.tasks[1].agent() == t
                || self.tasks[2].agent() == t || self.tasks[3].agent() == t
    }

    /// How many guards into slot `i` worker `u` holds.
    pub open spec fn holds(self, u: int, i: int) -> int {
        kept(self.desks[u].retained, i) + kept(self.desks[u].owning, i) + one_if(
            self.tasks[u] is Look && self.agent_of(u) is Guarding
                && self.tasks[u]->Look_info.key.idx == i,
        )
    }

    /// How many guards into slot `i` the workers hold.
    pub open spec fn held(self, i: int) -> int {
        self.holds(0, i) + self.holds(1, i) + self.holds(2, i) + self.holds(3, i)
    }

    /// Every guard is held by a worker.
    pub open spec fn guards_ok(self) -> bool {
        forall|i: int|
            0 <= i < self.world.guards.len() ==> #[trigger] self.world.guards[i] == self.held(i)
    }

    /// What worker `u` keeps guards of leads to the expected values.
    pub open spec fn kept_ok(self, u: int) -> bool {
        &&& forall|j: int|
            0 <= j < self.desks[u].retained.len() ==> self.reads(
                #[trigger] self.desks[u].retained[j],
            )
        &&& forall|j: int|
            0 <= j < self.desks[u].owning.len() ==> self.reads(#[trigger] self.desks[u].owning[j])
    }

    /// The keys that worker `u` buried are gone.
    pub open spec fn graves_ok(self, u: int) -> bool {
        forall|j: int|
            0 <= j < self.desks[u].graveyard.len() ==> self.gone(
                (#[trigger] self.desks[u].graveyard[j]).key,
            ) && occupied(self.desks[u].graveyard[j].key.version)
    }

    /// Whether the insertion of worker `u` may still make a slot.
    pub open spec fn may_grow(self, u: int) -> int {
        one_if(self.tasks[u] is Insert && is_claiming(self.agent_of(u)))
    }

    /// Whether the insertion of worker `u` has its value to write still.
    pub open spec fn may_write(self, u: int) -> int {
        one_if(
            self.tasks[u] is Insert && (is_claiming(self.agent_of(u)) || is_filling(
                self.agent_of(u),
            )),
        )
    }

    /// Whether the insertion of worker `u` has its value to publish still.
    pub open spec fn may_publish(self, u: int) -> int {
        one_if(self.tasks[u] is Insert && !is_published(self.agent_of(u)))
    }

    /// Whether the lookup of worker `u` may still take a reference.
    pub open spec fn may_refer(self, u: int) -> int {
        match self.tasks[u] {
            Task::Look { t: _, info, aim: _ } => one_if(is_seeking(self.agent_of(u), info.key)),
            Task::Miss { t: _, key, ask: _ } => one_if(is_seeking(self.agent_of(u), key)),
            _ => 0,
        }
    }

    /// Whether the agent of worker `u` is to put a slot on the free list.
    pub open spec fn may_free(self, u: int) -> int {
        one_if(
            !(self.tasks[u] is Idle) && (self.agent_of(u) is FreeLoad || self.agent_of(
                u,
            ) is FreeLink || self.agent_of(u) is FreeCas),
        )
    }

    /// How many insertions may still make a slot.
    pub open spec fn growing(self) -> int {
        self.may_grow(0) + self.may_grow(1) + self.may_grow(2) + self.may_grow(3)
    }

    /// How many insertions have their values to write still.
    pub open spec fn writing(self) -> int {
        self.may_write(0) + self.may_write(1) + self.may_write(2) + self.may_write(3)
    }

    /// How many insertions have their values to publish still.
    pub open spec fn publishing(self) -> int {
        self.may_publish(0) + self.may_publish(1) + self.may_publish(2) + self.may_publish(3)
    }

    /// How many lookups may still take a reference.
    pub open spec fn referring(self) -> int {
        self.may_refer(0) + self.may_refer(1) + self.may_refer(2) + self.may_refer(3)
    }

    /// How many slots are to be put on the free list.
    pub open spec fn freeing(self) -> int {
        self.may_free(0) + self.may_free(1) + self.may_free(2) + self.may_free(3)
    }

    /// There are no more slots, no later versions, no more references and no more changes of the free
    /// list than the operations make.
    pub open spec fn bounds(self) -> bool {
        &&& self.world.state.slots.len() + self.growing() <= self.begun
        &&& self.publishing() <= self.begun
        &&& self.referring() <= self.begun
        &&& forall|i: int|
            0 <= i < self.world.state.slots.len() ==> (
            #[trigger] self.world.state.slots[i]).version + one_if(
                occupied(self.world.state.slots[i].version),
            ) + 2 * self.publishing() <= 2 * self.begun
        &&& forall|i: int|
            0 <= i < self.world.state.slots.len() ==> (
            #[trigger] self.world.state.slots[i]).ref_count + self.referring() <= self.begun + 1
        &&& self.world.ops + self.growing() + self.writing() + filled(self.world.state.slots)
            + self.freeing() <= 2 * self.begun
    }

    /// How many operations are left.
    pub open spec fn todo(self) -> nat {
        self.desks[0].todo.len() + self.desks[1].todo.len() + self.desks[2].todo.len()
            + self.desks[3].todo.len()
    }

    /// Every value that was made is to be written, is in a slot or was dropped.
    pub open spec fn values_ok(self) -> bool {
        self.made == filled(self.world.state.slots) + self.dropped + self.writing()
    }

    /// What holds at every moment.
    #[verifier::opaque]
    pub open spec fn ok(self) -> bool {
        &&& self.world.inv()
        &&& self.shape()
        &&& forall|u: int| 0 <= u < 4 ==> #[trigger] self.task_ok(u)
        &&& self.known()
        &&& self.distinct()
        &&& self.guards_ok()
        &&& forall|u: int| 0 <= u < 4 ==> #[trigger] self.kept_ok(u)
        &&& forall|u: int| 0 <= u < 4 ==> #[trigger] self.graves_ok(u)
        &&& self.bounds()
        &&& self.values_ok()
        &&& self.begun + self.todo() <= MAX_OPS
    }
}

/// One entry more.
pub proof fn lemma_kept_push(infos: Seq<Info>, info: Info)
    ensures
        forall|i: int| #[trigger]
            kept(infos.push(info), i) == kept(infos, i) + one_if(info.key.idx == i),
{
    assert(infos.push(info).drop_last() =~= infos);
}

/// One entry fewer.
#[verifier::rlimit(50)]
pub proof fn lemma_kept_remove(infos: Seq<Info>, at: int)
    requires
        0 <= at < infos.len(),
    ensures
        forall|i: int| #[trigger]
            kept(infos, i) == kept(infos.remove(at), i) + one_if(infos[at].key.idx == i),
    decreases infos.len(),
{
    let rest = infos.drop_last();
    if at == infos.len() - 1 {
        assert(infos.remove(at) =~= rest);
    } else {
        lemma_kept_remove(rest, at);
        assert(infos.remove(at) =~= rest.remove(at).push(infos.last()));
        lemma_kept_push(rest.remove(at), infos.last());
        assert forall|i: int| #[trigger] kept(infos, i) == kept(infos.remove(at), i) + one_if(
            infos[at].key.idx == i,
        ) by {
            assert(kept(rest, i) == kept(rest.remove(at), i) + one_if(infos[at].key.idx == i));
        }
    }
}

/// There are never fewer than no entries.
pub proof fn lemma_kept_nonnegative(infos: Seq<Info>, i: int)
    ensures
        kept(infos, i) >= 0,
    decreases infos.len(),
{
    if infos.len() > 0 {
        lemma_kept_nonnegative(infos.drop_last(), i);
    }
}

/// An entry is counted.
pub proof fn lemma_kept_positive(infos: Seq<Info>, at: int)
    requires
        0 <= at < infos.len(),
    ensures
        kept(infos, infos[at].key.idx as int) > 0,
{
    lemma_kept_remove(infos, at);
    lemma_kept_nonnegative(infos.remove(at), infos[at].key.idx as int);
}

/// No worker holds fewer than no guards.
pub proof fn lemma_holds_nonnegative(s: Threads, i: int)
    ensures
        forall|u: int| #[trigger] s.holds(u, i) >= 0,
{
    assert forall|u: int| #[trigger] s.holds(u, i) >= 0 by {
        lemma_kept_nonnegative(s.desks[u].retained, i);
        lemma_kept_nonnegative(s.desks[u].owning, i);
    }
}

/// A slot with an entry that a worker keeps has a guard.
pub proof fn lemma_kept_guarded(s: Threads, u: int, at: int, clonable: bool)
    requires
        s.guards_ok(),
        s.world.guards.len() == s.world.state.slots.len(),
        0 <= u < 4,
        s.kept_ok(u),
        0 <= at,
        clonable ==> at < s.desks[u].owning.len(),
        !clonable ==> at < s.desks[u].retained.len(),
    ensures
        ({
            let info = if clonable {
                s.desks[u].owning[at]
            } else {
                s.desks[u].retained[at]
            };
            s.reads(info) && s.world.guards[info.key.idx as int] > 0
        }),
{
    let desk = s.desks[u];
    let info = if clonable {
        desk.owning[at]
    } else {
        desk.retained[at]
    };
    let i = info.key.idx as int;
    if clonable {
        assert(s.reads(desk.owning[at]));
        lemma_kept_positive(desk.owning, at);
    } else {
        assert(s.reads(desk.retained[at]));
        lemma_kept_positive(desk.retained, at);
    }
    lemma_kept_nonnegative(desk.owning, i);
    lemma_kept_nonnegative(desk.retained, i);
    lemma_holds_nonnegative(s, i);
    assert(s.holds(u, i) > 0);
    assert(s.world.guards[i] == s.held(i));
}

/// Whether only worker `u` has gone on.
pub open spec fn others_same(s: Threads, n: Threads, u: int) -> bool {
    &&& s.desks.len() == 4 && n.desks.len() == 4
    &&& s.tasks.len() == 4 && n.tasks.len() == 4
    &&& 0 <= u < 4
    &&& forall|v: int| 0 <= v < 4 && v != u ==> #[trigger] n.desks[v] == s.desks[v]
    &&& forall|v: int| 0 <= v < 4 && v != u ==> #[trigger] n.tasks[v] == s.tasks[v]
    &&& forall|v: int|
        0 <= v < 4 && v != u && !(s.tasks[v] is Idle) ==> #[trigger] n.agent_of(v) == s.agent_of(v)
}

/// What is counted of the workers changes by what is counted of the one that has gone on.
#[verifier::rlimit(50)]
pub proof fn lemma_sums(s: Threads, n: Threads, u: int)
    requires
        others_same(s, n, u),
    ensures
        n.growing() - s.growing() == n.may_grow(u) - s.may_grow(u),
        n.writing() - s.writing() == n.may_write(u) - s.may_write(u),
        n.publishing() - s.publishing() == n.may_publish(u) - s.may_publish(u),
        n.referring() - s.referring() == n.may_refer(u) - s.may_refer(u),
        n.freeing() - s.freeing() == n.may_free(u) - s.may_free(u),
        forall|i: int| #[trigger] n.held(i) - s.held(i) == n.holds(u, i) - s.holds(u, i),
{
    assert forall|v: int| 0 <= v < 4 && v != u implies n.may_grow(v) == s.may_grow(v)
        && n.may_write(v) == s.may_write(v) && n.may_publish(v) == s.may_publish(v) && n.may_refer(v)
        == s.may_refer(v) && n.may_free(v) == s.may_free(v) && (#[trigger] n.desks[v])
        == s.desks[v] by {
        if !(s.tasks[v] is Idle) {
            assert(n.agent_of(v) == s.agent_of(v));
        }
        assert(n.tasks[v] == s.tasks[v]);
    }
    assert forall|i: int| #[trigger] n.held(i) - s.held(i) == n.holds(u, i) - s.holds(u, i) by {
        assert forall|v: int| 0 <= v < 4 && v != u implies #[trigger] n.holds(v, i) == s.holds(
            v,
            i,
        ) by {
            if !(s.tasks[v] is Idle) {
                assert(n.agent_of(v) == s.agent_of(v));
            }
            assert(n.tasks[v] == s.tasks[v]);
            assert(n.desks[v] == s.desks[v]);
        }
        assert(u == 0 || u == 1 || u == 2 || u == 3);
    }
    assert(u == 0 || u == 1 || u == 2 || u == 3);
    assert(0 != u ==> n.desks[0] == s.desks[0]);
    assert(1 != u ==> n.desks[1] == s.desks[1]);
    assert(2 != u ==> n.desks[2] == s.desks[2]);
    assert(3 != u ==> n.desks[3] == s.desks[3]);
}

/// What the other workers are in the middle of stays where it is.
pub proof fn lemma_other_lists(s: Threads, n: Threads, u: int)
    requires
        others_same(s, n, u),
    ensures
        forall|p: int|
            0 <= p < 13 && p != u && p != 4 && p != 5 + u && p != 9 + u ==> #[trigger] n.list(p)
                == s.list(p),
{
    assert forall|p: int|
        0 <= p < 13 && p != u && p != 4 && p != 5 + u && p != 9 + u implies #[trigger] n.list(p)
        == s.list(p) by {
        let v = if p < 4 {
            p
        } else if p < 9 {
            p - 5
        } else {
            p - 9
        };
        assert(n.desks[v] == s.desks[v]);
        assert(n.tasks[v] == s.tasks[v]);
        if !(s.tasks[v] is Idle) {
            assert(n.agent_of(v) == s.agent_of(v));
        }
    }
}

/// A key that is gone stays so: versions do not come back to where they were.
#[verifier::rlimit(50)]
pub proof fn lemma_gone_move(s: Threads, n: Threads, m: Move<Value>, key: KeyView)
    requires
        s.world.inv(),
        s.bounds(),
        s.begun <= MAX_OPS,
        s.publishing() >= 0,
        s.world.permits(m),
        n.world == s.world.moved(m),
        s.gone(key),
    ensures
        n.gone(key),
{
    if key.idx < MAX_OPS {
        lemma_advance(s.world, m, key.idx as int);
        assert(s.world.state.slots[key.idx as int].version <= 2 * s.begun);
    }
}

/// A key that is gone is not in the map.
pub proof fn lemma_gone_absent(s: Threads, key: KeyView)
    requires
        s.bounds(),
        s.begun <= MAX_OPS,
        s.growing() >= 0,
        s.gone(key),
    ensures
        !s.world.state.live().contains_key(key),
{
}

/// No sum is negative.
pub proof fn lemma_sums_nonnegative(s: Threads)
    ensures
        s.growing() >= 0,
        s.writing() >= 0,
        s.publishing() >= 0,
        s.referring() >= 0,
        s.freeing() >= 0,
{
}

/// What a worker protects, it protects as long as the list is the same and the lock is its own.
pub proof fn lemma_still_protected(s: Threads, n: Threads, u: int, info: Info)
    requires
        s.protects(u, info),
        n.desks[u].private == s.desks[u].private,
        s.lock == Some(u) ==> n.lock == Some(u) && n.shared == s.shared,
    ensures
        n.protects(u, info),
{
    if exists|j: int| 0 <= j < s.desks[u].private.len() && #[trigger] s.desks[u].private[j] == info {
        let j = choose|j: int|
            0 <= j < s.desks[u].private.len() && #[trigger] s.desks[u].private[j] == info;
        assert(n.desks[u].private[j] == info);
    } else {
        let j = choose|j: int| 0 <= j < s.shared.len() && #[trigger] s.shared[j] == info;
        assert(n.shared[j] == info);
    }
}

/// An entry that a worker protects is in the map, and its slot has the value.
pub proof fn lemma_protected(s: Threads, u: int, info: Info)
    requires
        s.world.inv(),
        s.known(),
        0 <= u < 4,
        s.protects(u, info),
    ensures
        s.finds(info),
        s.reads(info),
{
    if exists|j: int| 0 <= j < s.desks[u].private.len() && #[trigger] s.desks[u].private[j] == info {
        let j = choose|j: int|
            0 <= j < s.desks[u].private.len() && #[trigger] s.desks[u].private[j] == info;
        assert(s.list(u)[j] == info);
    } else {
        let j = choose|j: int| 0 <= j < s.shared.len() && #[trigger] s.shared[j] == info;
        assert(s.list(4)[j] == info);
    }
    assert(s.world.slot_ok(info.key.idx as int));
    lemma_count_nonnegative(s.world.agents, Role::Holder, info.key.idx as int);
}

} // verus!
