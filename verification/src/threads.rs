//! Four workers on one map, each a thread of its own: the single steps of their operations come in any
//! order, and everything that the workers check holds all the same.
#[allow(unused_imports)]
use crate::crew::Desk;
#[allow(unused_imports)]
use crate::fuzz::{Index, Op, Value};
#[allow(unused_imports)]
use crate::protocol::{Agent, Lookup};
#[allow(unused_imports)]
use crate::runs::Move;
#[allow(unused_imports)]
use crate::session::{forged, Info};
#[allow(unused_imports)]
use crate::state::State;
#[allow(unused_imports)]
use crate::util::KeyView;
#[allow(unused_imports)]
use crate::world::World;
#[allow(unused_imports)]
use vstd::prelude::*;

verus! {

/// What a worker looks a key up for.
pub enum Aim {
    /// To compare the value.
    Compare,
    /// To keep the guard.
    Retain,
    /// To keep the guard, which can be cloned.
    Own,
}

/// How a worker asks for a key that is to be missing.
pub enum Ask {
    Get,
    Contains,
    Remove,
}

/// What a worker is in the middle of, with the agent that does it.
pub enum Task {
    /// Nothing.
    Idle,
    /// It inserts a value.
    Insert { t: int, value: u32 },
    /// It removes a key that it took out of a list.
    Remove { t: int, info: Info, bury: bool },
    /// It looks up a key.
    Look { t: int, info: Info, aim: Aim },
    /// It asks for a key that is to be missing.
    Miss { t: int, key: KeyView, ask: Ask },
    /// It gives a guard back.
    Release { t: int },
    /// It makes room.
    Reserve { t: int },
}

impl Task {
    /// The agent at work, or no index of one.
    pub open spec fn agent(self) -> int {
        match self {
            Task::Idle => -1,
            Task::Insert { t, value: _ } => t,
            Task::Remove { t, info: _, bury: _ } => t,
            Task::Look { t, info: _, aim: _ } => t,
            Task::Miss { t, key: _, ask: _ } => t,
            Task::Release { t } => t,
            Task::Reserve { t } => t,
        }
    }
}

/// The shared memory with its agents, the keys that all workers know, and the workers.
pub struct Threads {
    pub world: World<Value>,
    /// The keys that all workers know.
    pub shared: Seq<Info>,
    /// Which worker has the lock of the shared keys.
    pub lock: Option<int>,
    /// What each worker knows, holds and is to do.
    pub desks: Seq<Desk>,
    /// What each worker is in the middle of.
    pub tasks: Seq<Task>,
    /// How many operations were begun.
    pub begun: nat,
    /// How many values were made.
    pub made: nat,
    /// How many values were dropped.
    pub dropped: nat,
}

impl Threads {
    /// The list that an index of worker `u` means.
    pub open spec fn keys(self, u: int, index: Index) -> Seq<Info> {
        match index {
            Index::Shared(_) => self.shared,
            Index::Private(_) => self.desks[u].private,
        }
    }

    /// The place in the list that an index of worker `u` means, if the list is not empty.
    pub open spec fn place(self, u: int, index: Index) -> int {
        let raw = match index {
            Index::Shared(i) => i,
            Index::Private(i) => i,
        };
        raw as int % self.keys(u, index).len() as int
    }

    /// The entry that an index of worker `u` means, if the list is not empty.
    pub open spec fn chosen(self, u: int, index: Index) -> Info {
        self.keys(u, index)[self.place(u, index)]
    }

    /// Worker `u` sits at another desk.
    pub open spec fn with_desk(self, u: int, desk: Desk) -> Self {
        Threads { desks: self.desks.update(u, desk), ..self }
    }

    /// Worker `u` is in the middle of something else.
    pub open spec fn with_task(self, u: int, task: Task) -> Self {
        Threads { tasks: self.tasks.update(u, task), ..self }
    }

    /// One more agent begins, for a task of worker `u`. Its index is the number of agents before.
    pub open spec fn starting(self, u: int, agent: Agent, task: Task) -> Self {
        Threads { world: self.world.started(agent), ..self.with_task(u, task) }
    }

    /// Worker `u` begins to give back a guard into a slot.
    pub open spec fn releasing(self, u: int, idx: u32) -> Self {
        Threads {
            world: self.world.releasing(idx),
            ..self.with_task(u, Task::Release { t: self.world.agents.len() as int })
        }
    }

    /// The lists without the entry that an index of worker `u` means.
    pub open spec fn without(self, u: int, index: Index) -> Self {
        let at = self.place(u, index);
        match index {
            Index::Shared(_) => Threads { shared: self.shared.remove(at), ..self },
            Index::Private(_) => self.with_desk(
                u,
                Desk { private: self.desks[u].private.remove(at), ..self.desks[u] },
            ),
        }
    }

    /// Worker `u` takes the lock, if an index means a shared key.
    pub open spec fn locking(self, u: int, index: Index) -> Self {
        Threads {
            lock: if index is Shared {
                Some(u)
            } else {
                self.lock
            },
            ..self
        }
    }

    /// Worker `u` is through with its task, and gives the lock back if it has it.
    pub open spec fn idling(self, u: int) -> Self {
        Threads {
            lock: if self.lock == Some(u) {
                None
            } else {
                self.lock
            },
            ..self.with_task(u, Task::Idle)
        }
    }

    /// Worker `u` begins to remove the entry that an index means.
    pub open spec fn removing(self, u: int, index: Index, bury: bool) -> Self {
        if self.keys(u, index).len() == 0 {
            self
        } else {
            let info = self.chosen(u, index);
            self.without(u, index).starting(
                u,
                Agent::Locate {
                    lookup: Lookup::Remove,
                    idx: info.key.idx,
                    version: info.key.version,
                },
                Task::Remove { t: self.world.agents.len() as int, info, bury },
            ).locking(u, index)
        }
    }

    /// Worker `u` begins to look up the entry that an index means.
    pub open spec fn looking(self, u: int, index: Index, aim: Aim) -> Self {
        if self.keys(u, index).len() == 0 {
            self
        } else {
            let info = self.chosen(u, index);
            self.starting(
                u,
                Agent::Locate { lookup: Lookup::Get, idx: info.key.idx, version: info.key.version },
                Task::Look { t: self.world.agents.len() as int, info, aim },
            ).locking(u, index)
        }
    }

    /// Worker `u` begins to ask for a key that is to be missing.
    pub open spec fn missing(self, u: int, key: KeyView, lookup: Lookup, ask: Ask) -> Self {
        self.starting(
            u,
            Agent::Locate { lookup, idx: key.idx, version: key.version },
            Task::Miss { t: self.world.agents.len() as int, key, ask },
        )
    }

    /// Worker `u` takes its next operation off its list.
    pub open spec fn taking_up(self, u: int) -> Self {
        let desk = self.desks[u];
        if desk.todo.len() > 0 {
            Threads {
                begun: self.begun + 1,
                ..self.with_desk(u, Desk { todo: desk.todo.drop_first(), ..desk })
            }
        } else {
            self
        }
    }

    /// Worker `u` begins an operation.
    pub open spec fn beginning(self, u: int, op: Op) -> Self {
        let desk = self.desks[u];
        let t = self.world.agents.len() as int;
        match op {
            Op::Reserve(additional) => self.starting(
                u,
                Agent::ReserveLen { additional: additional as usize },
                Task::Reserve { t },
            ),
            Op::Insert(value) => Threads {
                made: self.made + 1,
                ..self.starting(u, Agent::PopLoad, Task::Insert { t, value })
            },
            Op::InsertWithKey(value) => Threads {
                made: self.made + 1,
                ..self.starting(u, Agent::PopLoad, Task::Insert { t, value })
            },
            Op::Publish(i) => if desk.private.len() == 0 {
                self
            } else {
                let at = i as int % desk.private.len() as int;
                Threads {
                    shared: self.shared.push(desk.private[at]),
                    ..self.with_desk(u, Desk { private: desk.private.remove(at), ..desk })
                }
            },
            Op::Remove(index) => self.removing(u, index, false),
            Op::RemoveToGraveyard(index, _) => self.removing(u, index, true),
            Op::Retrieve(index) => self.looking(u, index, Aim::Compare),
            Op::AddRetained(index) => self.looking(u, index, Aim::Retain),
            Op::AddRetainedArc(index) => self.looking(u, index, Aim::Own),
            Op::ReadRetained(_) => self,
            Op::ReadRetainedArc(_) => self,
            Op::RemoveRetained(i) => if desk.retained.len() == 0 {
                self
            } else {
                let at = i as int % desk.retained.len() as int;
                self.with_desk(u, Desk { retained: desk.retained.remove(at), ..desk }).releasing(
                    u,
                    desk.retained[at].key.idx,
                )
            },
            Op::RemoveRetainedArc(i) => if desk.owning.len() == 0 {
                self
            } else {
                let at = i as int % desk.owning.len() as int;
                self.with_desk(u, Desk { owning: desk.owning.remove(at), ..desk }).releasing(
                    u,
                    desk.owning[at].key.idx,
                )
            },
            Op::CheckGraveyard(i) => if desk.graveyard.len() == 0 {
                self
            } else {
                let at = i as int % desk.graveyard.len() as int;
                self.missing(u, desk.graveyard[at].key, Lookup::Get, Ask::Get)
            },
            Op::RetrieveForged(raw) => self.missing(u, forged(raw), Lookup::Get, Ask::Get),
        }
    }

    /// The agent of worker `u` is done, and the worker goes on with what it found.
    pub open spec fn ending(self, u: int) -> Self {
        let desk = self.desks[u];
        match self.tasks[u] {
            Task::Insert { t, value } => match self.world.agents[t] {
                Agent::Inserted { idx, version } => self.with_desk(
                    u,
                    Desk {
                        private: desk.private.push(
                            Info { key: KeyView { idx, version }, value },
                        ),
                        ..desk
                    },
                ).idling(u),
                _ => self.idling(u),
            },
            Task::Remove { t: _, info, bury } => if bury {
                self.with_desk(u, Desk { graveyard: desk.graveyard.push(info), ..desk }).idling(u)
            } else {
                self.idling(u)
            },
            Task::Look { t: _, info, aim } => match aim {
                Aim::Compare => self.releasing(u, info.key.idx),
                Aim::Retain => self.with_desk(
                    u,
                    Desk { retained: desk.retained.push(info), ..desk },
                ).idling(u),
                Aim::Own => self.with_desk(
                    u,
                    Desk { owning: desk.owning.push(info), ..desk },
                ).idling(u),
            },
            Task::Miss { t: _, key, ask } => match ask {
                Ask::Get => self.missing(u, key, Lookup::Contains, Ask::Contains),
                Ask::Contains => self.missing(u, key, Lookup::Remove, Ask::Remove),
                Ask::Remove => self.idling(u),
            },
            _ => self.idling(u),
        }
    }

    /// What the caller of an insertion gives when it is asked for its value.
    pub open spec fn reply(self, u: int) -> Option<Value> {
        match self.tasks[u] {
            Task::Insert { t: _, value } => Some(Value::of(value)),
            _ => None,
        }
    }

    /// The move that the agent of worker `u` makes next.
    pub open spec fn next_move(self, u: int, weak: bool) -> Move<Value> {
        Move::Step { t: self.tasks[u].agent(), weak, reply: self.reply(u) }
    }

    /// The agent of worker `u` performs its next action.
    pub open spec fn stepping(self, u: int, weak: bool) -> Self {
        Threads {
            world: self.world.moved(self.next_move(u, weak)),
            dropped: if self.agent_of(u) is ValueDrop {
                self.dropped + 1
            } else {
                self.dropped
            },
            ..self
        }
    }

    /// The agent at work for worker `u`.
    pub open spec fn agent_of(self, u: int) -> Agent {
        self.world.agents[self.tasks[u].agent()]
    }

    /// Worker `u` goes on. An exchange that may fail for no reason does so where `weak` says so.
    pub open spec fn turned(self, u: int, weak: bool) -> Self {
        if self.tasks[u] is Idle {
            self.taking_up(u).beginning(u, self.desks[u].next()->0)
        } else if self.agent_of(u).wants() is Stop {
            self.ending(u)
        } else {
            self.stepping(u, weak)
        }
    }

    /// Whether an operation of worker `u` needs the lock of the shared keys.
    pub open spec fn locks(self, u: int, op: Op) -> bool {
        match op {
            Op::Publish(_) => self.desks[u].private.len() > 0,
            Op::Remove(index) => index is Shared,
            Op::RemoveToGraveyard(index, _) => index is Shared,
            Op::Retrieve(index) => index is Shared,
            Op::AddRetained(index) => index is Shared,
            Op::AddRetainedArc(index) => index is Shared,
            _ => false,
        }
    }

    /// Whether worker `u` can go on: it is in the middle of something, or it has something to do and the
    /// lock that it needs is free.
    pub open spec fn may_turn(self, u: int) -> bool {
        &&& 0 <= u < 4
        &&& self.tasks[u] is Idle ==> self.desks[u].next() is Some && (self.locks(
            u,
            self.desks[u].next()->0,
        ) ==> self.lock is None)
    }

    /// Whether a slot has the value that is expected under a key.
    pub open spec fn reads(self, info: Info) -> bool {
        info.key.idx < self.world.state.slots.len() && self.world.state.slots[
            info.key.idx as int].data is Some && self.world.state.slots[
            info.key.idx as int].data->0.number() == info.value
    }

    /// Whether everything that worker `u` checks at this turn holds.
    pub open spec fn checks(self, u: int) -> bool {
        let desk = self.desks[u];
        let agent = self.agent_of(u);
        match self.tasks[u] {
            Task::Idle => match desk.next()->0 {
                Op::ReadRetained(i) => desk.retained.len() > 0 ==> self.reads(
                    desk.retained[i as int % desk.retained.len() as int],
                ),
                Op::RemoveRetained(i) => desk.retained.len() > 0 ==> self.reads(
                    desk.retained[i as int % desk.retained.len() as int],
                ),
                Op::ReadRetainedArc(i) => desk.owning.len() > 0 ==> self.reads(
                    desk.owning[i as int % desk.owning.len() as int],
                ),
                Op::RemoveRetainedArc(i) => desk.owning.len() > 0 ==> self.reads(
                    desk.owning[i as int % desk.owning.len() as int],
                ),
                _ => true,
            },
            task => agent.wants() is Stop ==> match task {
                Task::Insert { .. } => agent is Inserted,
                Task::Remove { .. } => agent == (Agent::Removed { found: true }),
                Task::Look { t: _, info, aim: _ } => agent == (Agent::Guarding {
                    idx: info.key.idx,
                    version: info.key.version,
                }) && self.reads(info),
                Task::Miss { t: _, key: _, ask } => match ask {
                    Ask::Get => agent == Agent::Missing,
                    Ask::Contains => agent == (Agent::Contained { found: false }),
                    Ask::Remove => agent == (Agent::Removed { found: false }),
                },
                Task::Release { .. } => agent == Agent::Released,
                Task::Reserve { .. } => agent == Agent::Reserved,
                Task::Idle => true,
            },
        }
    }

    /// The workers after some turns.
    pub open spec fn played(self, order: Seq<(int, bool)>) -> Self
        decreases order.len(),
    {
        if order.len() == 0 {
            self
        } else {
            self.played(order.drop_last()).turned(order.last().0, order.last().1)
        }
    }

    /// Whether the workers can take these turns.
    pub open spec fn may_play(self, order: Seq<(int, bool)>) -> bool
        decreases order.len(),
    {
        order.len() > 0 ==> self.may_play(order.drop_last()) && self.played(
            order.drop_last(),
        ).may_turn(order.last().0)
    }

    /// Whether everything that the workers check in these turns holds.
    pub open spec fn passes(self, order: Seq<(int, bool)>) -> bool
        decreases order.len(),
    {
        order.len() > 0 ==> self.passes(order.drop_last()) && self.played(
            order.drop_last(),
        ).checks(order.last().0)
    }

    /// Whether all workers are done: nobody is in the middle of anything, and nobody has anything to do.
    pub open spec fn all_done(self) -> bool {
        forall|u: int| 0 <= u < 4 ==> self.tasks[u] is Idle && (#[trigger] self.desks[u]).next() is None
    }
}

/// A map and the workers at the beginning.
pub open spec fn assembled(map: State<Value>, ops: Seq<Seq<Op>>) -> Threads {
    Threads {
        world: World::at_rest(map),
        shared: Seq::empty(),
        lock: None,
        desks: Seq::new(4, |u: int| Desk::fresh(ops[u])),
        tasks: Seq::new(4, |u: int| Task::Idle),
        begun: 0,
        made: 0,
        dropped: 0,
    }
}

} // verus!
