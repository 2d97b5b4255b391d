//! Every run of agents is explained by one operation after the other, each at a step of its own.
#[allow(unused_imports)]
use crate::count::{has_role, lemma_counted, Role};
#[allow(unused_imports)]
use crate::linear::{
    lemma_decided_step, lemma_guarding_step, lemma_live_step, lemma_lookup_step, lemma_values_step,
    sought,
};
#[allow(unused_imports)]
use crate::protocol::{After, Agent, Lookup};
#[allow(unused_imports)]
use crate::runs::{lemma_move, lemma_run, Move};
#[allow(unused_imports)]
use crate::steps::{lemma_no_owner, lemma_sole_owner};
#[allow(unused_imports)]
use crate::util::{odd_version_of, KeyView};
#[allow(unused_imports)]
use crate::world::World;
#[allow(unused_imports)]
use vstd::prelude::*;

verus! {

/// What an operation does to the contents of the map and learns of it, as a whole.
pub enum Mark<V> {
    /// An insertion puts a value under a new key.
    Insert { key: KeyView, value: V },
    /// A removal takes a key.
    Take { key: KeyView },
    /// A lookup finds a key, and gets a guard of its value.
    Find { key: KeyView, value: V },
    /// A question for a key is answered with yes.
    Confirm { key: KeyView },
    /// A removal, a lookup or a question finds no such key.
    Miss { key: KeyView },
    /// Nothing yet, or nothing any more.
    Pause,
}

impl<V> Mark<V> {
    /// Whether this can happen to a map with these contents.
    pub open spec fn fits(self, contents: Map<KeyView, V>) -> bool {
        match self {
            Mark::Insert { key, value: _ } => !contents.contains_key(key),
            Mark::Take { key } => contents.contains_key(key),
            Mark::Find { key, value } => contents.contains_key(key) && contents[key] == value,
            Mark::Confirm { key } => contents.contains_key(key),
            Mark::Miss { key } => !contents.contains_key(key),
            Mark::Pause => true,
        }
    }

    /// The contents after it.
    pub open spec fn leaves(self, contents: Map<KeyView, V>) -> Map<KeyView, V> {
        match self {
            Mark::Insert { key, value } => contents.insert(key, value),
            Mark::Take { key } => contents.remove(key),
            _ => contents,
        }
    }
}

/// What happens when agent `t` makes a step.
pub open spec fn mark<V>(w: World<V>, t: int, weak: bool, reply: Option<V>) -> Mark<V> {
    let next = w.step(t, weak, reply).agents[t];
    match w.agents[t] {
        Agent::VersionStore { idx, version } => Mark::Insert {
            key: KeyView { idx, version: odd_version_of(version) },
            value: w.state.slots[idx as int].data->0,
        },
        agent => match sought(agent) {
            None => Mark::Pause,
            Some(key) => match next {
                Agent::Guarding { .. } => Mark::Find { key, value: w.log[key] },
                Agent::Missing => Mark::Miss { key },
                Agent::RefDrop { idx: _, after: After::Lookup } => Mark::Miss { key },
                Agent::RefDrop { idx: _, after: After::Remove } => Mark::Take { key },
                Agent::Removed { .. } => Mark::Miss { key },
                Agent::Contained { found } => if found {
                    Mark::Confirm { key }
                } else {
                    Mark::Miss { key }
                },
                _ => Mark::Pause,
            },
        },
    }
}

/// A step fits the contents of the map at that moment, and leaves the contents that it says.
#[verifier::rlimit(50)]
pub proof fn lemma_mark<V>(w: World<V>, t: int, weak: bool, reply: Option<V>)
    requires
        w.inv(),
        w.can_step(t),
    ensures
        mark(w, t, weak, reply).fits(w.state.live()),
        w.step(t, weak, reply).state.live() == mark(w, t, weak, reply).leaves(w.state.live()),
{
    let next = w.step(t, weak, reply).agents[t];
    lemma_live_step(w, t, weak, reply);
    if sought(w.agents[t]) is Some {
        let key = sought(w.agents[t])->0;
        lemma_lookup_step(w, t, weak, reply);
        if next is Guarding {
            lemma_guarding_step(w, t, weak, reply);
        }
        if !w.state.live().contains_key(key) {
            assert(w.state.live().remove(key) =~= w.state.live());
        }
        lemma_remove_cas_outcome(w, t, weak, reply);
    }
}

/// A removal that finds its version takes the key.
#[verifier::rlimit(50)]
pub proof fn lemma_remove_cas_outcome<V>(w: World<V>, t: int, weak: bool, reply: Option<V>)
    requires
        w.inv(),
        w.can_step(t),
    ensures
        w.agents[t] matches Agent::RemoveCas { idx, version } ==> (w.state.live().contains_key(
            KeyView { idx, version },
        ) ==> w.step(t, weak, reply).agents[t] == (Agent::RefDrop { idx, after: After::Remove })),
{
    assert(w.agent_ok(t));
}

/// What happens at a move. Only steps of agents do anything to the contents of the map.
pub open spec fn mark_of<V>(w: World<V>, m: Move<V>) -> Mark<V> {
    match m {
        Move::Step { t, weak, reply } => mark(w, t, weak, reply),
        _ => Mark::Pause,
    }
}

/// What happens in a run.
pub open spec fn marks<V>(w: World<V>, moves: Seq<Move<V>>) -> Seq<Mark<V>>
    decreases moves.len(),
{
    if moves.len() == 0 {
        Seq::empty()
    } else {
        marks(w, moves.drop_last()).push(mark_of(w.run(moves.drop_last()), moves.last()))
    }
}

/// The contents of a map to which one thing after the other happened.
pub open spec fn replayed<V>(contents: Map<KeyView, V>, history: Seq<Mark<V>>) -> Map<KeyView, V>
    decreases history.len(),
{
    if history.len() == 0 {
        contents
    } else {
        history.last().leaves(replayed(contents, history.drop_last()))
    }
}

/// Whether one thing after the other can happen to a map.
pub open spec fn explained<V>(contents: Map<KeyView, V>, history: Seq<Mark<V>>) -> bool
    decreases history.len(),
{
    history.len() > 0 ==> explained(contents, history.drop_last()) && history.last().fits(
        replayed(contents, history.drop_last()),
    )
}

/// Every run is linear: what its operations did and learned could have happened one after the other,
/// each as a whole at one of its own steps, and would have left the same contents.
#[verifier::rlimit(50)]
pub proof fn lemma_run_is_linear<V>(w: World<V>, moves: Seq<Move<V>>)
    requires
        w.inv(),
        w.may_run(moves),
    ensures
        explained(w.state.live(), marks(w, moves)),
        w.run(moves).state.live() == replayed(w.state.live(), marks(w, moves)),
    decreases moves.len(),
{
    if moves.len() > 0 {
        let rest = moves.drop_last();
        let before = w.run(rest);
        lemma_run_is_linear(w, rest);
        lemma_run(w, rest);
        assert(marks(w, moves).drop_last() =~= marks(w, rest));
        match moves.last() {
            Move::Step { t, weak, reply } => lemma_mark(before, t, weak, reply),
            _ => {},
        }
    }
}

/// Whether an agent has yet to do or learn what it is for.
pub open spec fn undecided(agent: Agent) -> bool {
    match agent {
        Agent::PopLoad => true,
        Agent::PopNext { .. } => true,
        Agent::PopCas { .. } => true,
        Agent::GrowLen => true,
        Agent::ChunkLoad { .. } => true,
        Agent::ChunkInstall { .. } => true,
        Agent::VersionLoad { .. } => true,
        Agent::Claimed { .. } => true,
        Agent::DataWrite { .. } => true,
        Agent::RefStore { .. } => true,
        Agent::VersionStore { .. } => true,
        Agent::Locate { .. } => true,
        Agent::Await { .. } => true,
        Agent::ScanLoad { .. } => true,
        _ => sought(agent) is Some,
    }
}

/// An operation counts at one step at most: the step after which it is decided. An operation that is
/// decided stays so, and does nothing to the contents of the map any more.
#[verifier::rlimit(50)]
pub proof fn lemma_one_mark<V>(w: World<V>, t: int, weak: bool, reply: Option<V>)
    requires
        w.inv(),
        w.can_step(t),
    ensures
        ({
            let next = w.step(t, weak, reply).agents[t];
            &&& !(mark(w, t, weak, reply) is Pause) ==> undecided(w.agents[t]) && !undecided(next)
            &&& !undecided(w.agents[t]) ==> !undecided(next) && mark(w, t, weak, reply) is Pause
        }),
{
    assert(w.agent_ok(t));
    if sought(w.agents[t]) is Some {
        lemma_lookup_step(w, t, weak, reply);
    }
}

/// Whether an insertion was given a value and has not published it yet: it has the value with it, or has
/// written it into its slot.
pub open spec fn carries<V>(w: World<V>, t: int, value: V) -> bool {
    match w.agents[t] {
        Agent::DataWrite { .. } => w.payloads[t] == Some(value),
        Agent::RefStore { idx, version: _ } => w.state.slots[idx as int].data == Some(value),
        Agent::VersionStore { idx, version: _ } => w.state.slots[idx as int].data == Some(value),
        _ => false,
    }
}

/// A value that an insertion carries is not changed by a move, of whomever it is.
#[verifier::rlimit(50)]
pub proof fn lemma_carried_move<V>(w: World<V>, m: Move<V>, t: int, value: V)
    requires
        w.inv(),
        w.permits(m),
        0 <= t < w.agents.len(),
        carries(w, t, value),
    ensures
        carries(w.moved(m), t, value) || !undecided(w.moved(m).agents[t]),
{
    assert(w.agent_ok(t));
    let at = match w.agents[t] {
        Agent::DataWrite { idx, version: _ } => idx as int,
        Agent::RefStore { idx, version: _ } => idx as int,
        Agent::VersionStore { idx, version: _ } => idx as int,
        _ => 0,
    };
    match m {
        Move::Step { t: u, weak, reply } => {
            lemma_values_step(w, u, weak, reply, at);
            if u != t {
                assert(w.agent_ok(u));
                if w.agents[t] is VersionStore {
                    assert(w.slot_ok(at));
                    lemma_counted(w.agents, t, Role::Holder, at);
                    lemma_no_owner(w, at);
                } else {
                    lemma_sole_owner(w, t, at);
                }
                assert(!has_role(Role::Owner, w.agents[u], at));
            }
        },
        _ => {},
    }
}

/// A value that an insertion carries is carried through a run, until the insertion publishes it.
pub proof fn lemma_carried<V>(w: World<V>, moves: Seq<Move<V>>, t: int, value: V)
    requires
        w.inv(),
        w.may_run(moves),
        0 <= t < w.agents.len(),
        carries(w, t, value),
    ensures
        t < w.run(moves).agents.len(),
        carries(w.run(moves), t, value) || !undecided(w.run(moves).agents[t]),
    decreases moves.len(),
{
    if moves.len() > 0 {
        let rest = moves.drop_last();
        let before = w.run(rest);
        lemma_carried(w, rest, t, value);
        lemma_run(w, rest);
        if carries(before, t, value) {
            lemma_carried_move(before, moves.last(), t, value);
        } else {
            match moves.last() {
                Move::Step { t: u, weak, reply } => {
                    if u == t {
                        lemma_one_mark(before, t, weak, reply);
                    }
                },
                _ => {},
            }
        }
    }
}

/// What an insertion publishes is the value that its caller gave it, whatever happens in between: the
/// step that puts the key into the map puts it in with that value.
#[verifier::rlimit(50)]
pub proof fn lemma_insertion_publishes_its_value<V>(
    w: World<V>,
    t: int,
    value: V,
    moves: Seq<Move<V>>,
    weak: bool,
    reply: Option<V>,
)
    requires
        w.inv(),
        w.can_step(t),
        w.agents[t] is Claimed,
        w.step(t, weak, Some(value)).may_run(moves),
        w.step(t, weak, Some(value)).run(moves).agents[t] is VersionStore,
    ensures
        ({
            let n = w.step(t, weak, Some(value)).run(moves);
            let key = KeyView {
                idx: n.agents[t]->VersionStore_idx,
                version: odd_version_of(n.agents[t]->VersionStore_version),
            };
            &&& mark(n, t, weak, reply) == (Mark::Insert { key, value })
            &&& n.step(t, weak, reply).state.live() == n.state.live().insert(key, value)
        }),
{
    let given = w.step(t, weak, Some(value));
    let n = given.run(moves);
    lemma_move(w, Move::Step { t, weak, reply: Some(value) });
    assert(given.agents[t] is DataWrite);
    lemma_carried(given, moves, t, value);
    lemma_run(given, moves);
    lemma_mark(n, t, weak, reply);
}

/// How an operation ends is what it did or learned at its one step: an insertion ends with the key
/// that it put in, a removal says whether it took the key, a lookup gives a guard of what it found,
/// and a question is answered.
#[verifier::rlimit(50)]
pub proof fn lemma_outcome<V>(w: World<V>, t: int, weak: bool, reply: Option<V>)
    requires
        w.inv(),
        w.can_step(t),
    ensures
        ({
            let next = w.step(t, weak, reply).agents[t];
            match mark(w, t, weak, reply) {
                Mark::Insert { key, value: _ } => next == (Agent::NumAdd {
                    idx: key.idx,
                    version: key.version,
                }),
                Mark::Take { key } => has_role(Role::Subtractor, next, key.idx as int),
                Mark::Find { key, value: _ } => next == (Agent::Guarding {
                    idx: key.idx,
                    version: key.version,
                }),
                Mark::Confirm { key: _ } => next == (Agent::Contained { found: true }),
                Mark::Miss { key } => next == (Agent::Contained { found: false }) || next == (
                Agent::Removed { found: false }) || next == Agent::Missing || next
                    == (Agent::RefDrop { idx: key.idx, after: After::Lookup }),
                Mark::Pause => true,
            }
        }),
        ({
            let next = w.step(t, weak, reply).agents[t];
            &&& w.agents[t] matches Agent::NumAdd { idx, version } ==> next == (Agent::Inserted {
                idx,
                version,
            })
            &&& has_role(Role::Subtractor, w.agents[t], 0) ==> has_role(Role::Subtractor, next, 0)
                || next == (Agent::Removed { found: true })
            &&& returning(w.agents[t]) ==> returning(next) || next == Agent::Missing
            &&& w.agents[t].wants() is Stop ==> next == w.agents[t]
        }),
{
    assert(w.agent_ok(t));
    if sought(w.agents[t]) is Some {
        lemma_lookup_step(w, t, weak, reply);
    }
    lemma_decided_step(w, t, weak, reply);
}

/// Whether a lookup that missed is about to give a reference back.
pub open spec fn returning(agent: Agent) -> bool {
    match agent {
        Agent::RefDrop { idx: _, after } => after == After::Lookup,
        Agent::ValueDrop { idx: _, after } => after == After::Lookup,
        Agent::FreeLoad { idx: _, after } => after == After::Lookup,
        Agent::FreeLink { idx: _, head: _, after } => after == After::Lookup,
        Agent::FreeCas { idx: _, head: _, after } => after == After::Lookup,
        _ => false,
    }
}

} // verus!
