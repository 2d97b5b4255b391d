//! Runs of any number of agents, and what holds from their first moment to their last.
#[allow(unused_imports)]
use crate::count::one_if;
#[allow(unused_imports)]
use crate::linear::{lemma_guard_keeps_value, lemma_live_step};
#[allow(unused_imports)]
use crate::protocol::Agent;
#[allow(unused_imports)]
use crate::slot::lemma_sum_of_advances;
#[allow(unused_imports)]
use crate::state::{stored_version, State};
#[allow(unused_imports)]
use crate::steps::{
    lemma_clone, lemma_quiescent, lemma_release, lemma_rest, lemma_start, lemma_step,
};
#[allow(unused_imports)]
use crate::util::{odd_version_of, KeyView};
#[allow(unused_imports)]
use crate::world::World;
#[allow(unused_imports)]
use vstd::prelude::*;

verus! {

/// One thing that can happen next.
pub enum Move<V> {
    /// An agent performs its next action.
    Step { t: int, weak: bool, reply: Option<V> },
    /// An operation begins.
    Start { agent: Agent },
    /// The holder of a guard begins to give it back.
    Release { idx: u32 },
    /// The holder of a guard begins to clone it.
    Clone { idx: u32 },
}

impl<V> World<V> {
    /// Whether a move can happen. An agent that has read the head of the free list has to exchange
    /// it before all tags were used once more.
    pub open spec fn permits(self, m: Move<V>) -> bool {
        match m {
            Move::Step { t, weak: _, reply: _ } => self.can_step(t) && self.tag_is_fresh(t),
            Move::Start { agent } => World::<V>::may_start(agent),
            Move::Release { idx } => idx < self.state.slots.len() && self.may_release(idx),
            Move::Clone { idx } => idx < self.state.slots.len() && self.guards[idx as int] > 0,
        }
    }

    /// What a move leads to.
    pub open spec fn moved(self, m: Move<V>) -> Self {
        match m {
            Move::Step { t, weak, reply } => self.step(t, weak, reply),
            Move::Start { agent } => self.started(agent),
            Move::Release { idx } => self.releasing(idx),
            Move::Clone { idx } => self.cloning(idx),
        }
    }

    /// What a run leads to.
    pub open spec fn run(self, moves: Seq<Move<V>>) -> Self
        decreases moves.len(),
    {
        if moves.len() == 0 {
            self
        } else {
            self.run(moves.drop_last()).moved(moves.last())
        }
    }

    /// Whether a run can happen.
    pub open spec fn may_run(self, moves: Seq<Move<V>>) -> bool
        decreases moves.len(),
    {
        moves.len() > 0 ==> self.may_run(moves.drop_last()) && self.run(
            moves.drop_last(),
        ).permits(moves.last())
    }
}

/// What holds at every moment holds after every move.
pub proof fn lemma_move<V>(w: World<V>, m: Move<V>)
    requires
        w.inv(),
        w.permits(m),
    ensures
        w.moved(m).inv(),
{
    match m {
        Move::Step { t, weak, reply } => lemma_step(w, t, weak, reply),
        Move::Start { agent } => lemma_start(w, agent),
        Move::Release { idx } => lemma_release(w, idx),
        Move::Clone { idx } => lemma_clone(w, idx),
    }
}

/// What holds at every moment holds after every run.
pub proof fn lemma_run<V>(w: World<V>, moves: Seq<Move<V>>)
    requires
        w.inv(),
        w.may_run(moves),
    ensures
        w.run(moves).inv(),
    decreases moves.len(),
{
    if moves.len() > 0 {
        lemma_run(w, moves.drop_last());
        lemma_move(w.run(moves.drop_last()), moves.last());
    }
}

/// Operations that begin between two others, run beside each other in any order and end, leave a
/// state between two operations: nothing is lost, nothing is counted wrongly, and the free list is
/// whole.
pub proof fn lemma_run_settles<V>(s: State<V>, moves: Seq<Move<V>>)
    requires
        s.settled(),
        World::at_rest(s).may_run(moves),
        World::at_rest(s).run(moves).quiescent(),
    ensures
        World::at_rest(s).run(moves).state.settled(),
{
    lemma_rest(s);
    lemma_run(World::at_rest(s), moves);
    lemma_quiescent(World::at_rest(s).run(moves));
}

/// By how much a move advances the version of slot `i`.
pub open spec fn advance<V>(w: World<V>, m: Move<V>, i: int) -> int {
    one_if(w.moved(m).state.slots[i].version != w.state.slots[i].version)
}

/// By how much a run advances the version of slot `i`.
pub open spec fn advances<V>(w: World<V>, moves: Seq<Move<V>>, i: int) -> int
    decreases moves.len(),
{
    if moves.len() == 0 {
        0
    } else {
        advances(w, moves.drop_last(), i) + advance(w.run(moves.drop_last()), moves.last(), i)
    }
}

/// A move advances a version by one if it changes it, and no slot goes away.
#[verifier::rlimit(50)]
pub proof fn lemma_advance<V>(w: World<V>, m: Move<V>, i: int)
    requires
        w.inv(),
        w.permits(m),
        0 <= i < w.state.slots.len(),
    ensures
        i < w.moved(m).state.slots.len(),
        w.moved(m).state.slots[i].version == (w.state.slots[i].version + advance(w, m, i))
            % 0x1_0000_0000,
{
    match m {
        Move::Step { t, weak: _, reply: _ } => {
            assert(w.agent_ok(t));
        },
        _ => {},
    }
}

/// A run advances a version by no more than its length.
#[verifier::rlimit(50)]
proof fn lemma_advances<V>(w: World<V>, moves: Seq<Move<V>>, i: int)
    requires
        w.inv(),
        w.may_run(moves),
        0 <= i < w.state.slots.len(),
    ensures
        i < w.run(moves).state.slots.len(),
        0 <= advances(w, moves, i) <= moves.len(),
        w.run(moves).state.slots[i].version == (w.state.slots[i].version + advances(w, moves, i))
            % 0x1_0000_0000,
    decreases moves.len(),
{
    if moves.len() > 0 {
        let rest = moves.drop_last();
        lemma_advances(w, rest, i);
        lemma_run(w, rest);
        lemma_advance(w.run(rest), moves.last(), i);
        lemma_sum_of_advances(
            w.state.slots[i].version,
            advances(w, rest, i),
            w.run(rest).state.slots[i].version,
            advance(w.run(rest), moves.last(), i),
            w.run(moves).state.slots[i].version,
        );
    }
}

/// A key that was in the map and is not any more does not come back, as long as the version of its slot
/// does not go all the way round: that takes 2^31 removals from this one slot. The length of the run
/// does not matter.
#[verifier::rlimit(50)]
pub proof fn lemma_key_retired<V>(
    w: World<V>,
    first: Seq<Move<V>>,
    second: Seq<Move<V>>,
    key: KeyView,
)
    requires
        w.inv(),
        w.may_run(first),
        w.run(first).may_run(second),
        advances(w, first, key.idx as int) + advances(w.run(first), second, key.idx as int)
            < 0x1_0000_0000,
        w.state.live().contains_key(key),
        !w.run(first).state.live().contains_key(key),
    ensures
        !w.run(first).run(second).state.live().contains_key(key),
{
    let i = key.idx as int;
    lemma_run(w, first);
    lemma_advances(w, first, i);
    lemma_advances(w.run(first), second, i);
    let by = advances(w, first, i) + advances(w.run(first), second, i);
    assert(advances(w, first, i) > 0);
    lemma_sum_of_advances(
        key.version,
        advances(w, first, i),
        w.run(first).state.slots[i].version,
        advances(w.run(first), second, i),
        w.run(first).run(second).state.slots[i].version,
    );
    assert(w.run(first).run(second).state.slots[i].version == (key.version + by) % 0x1_0000_0000);
    assert(0 < by < 0x1_0000_0000);
}

/// Keys are unique: an insertion does not give a key that was in the map before, as long as the version
/// of its slot does not go all the way round.
#[verifier::rlimit(50)]
pub proof fn lemma_key_unique<V>(w: World<V>, moves: Seq<Move<V>>, t: int, key: KeyView)
    requires
        w.inv(),
        w.may_run(moves),
        advances(w, moves, key.idx as int) + 1 < 0x1_0000_0000,
        w.state.live().contains_key(key),
        w.run(moves).can_step(t),
        w.run(moves).agents[t] is VersionStore,
    ensures
        key != (KeyView {
            idx: w.run(moves).agents[t]->VersionStore_idx,
            version: odd_version_of(w.run(moves).agents[t]->VersionStore_version),
        }),
{
    let n = w.run(moves);
    lemma_run(w, moves);
    lemma_live_step(n, t, false, None);
    if n.state.live().contains_key(key) {
    } else {
        let step = Move::Step { t, weak: false, reply: None };
        let second = seq![step];
        assert(second.drop_last() =~= Seq::<Move<V>>::empty());
        reveal_with_fuel(World::run, 2);
        reveal_with_fuel(World::may_run, 2);
        reveal_with_fuel(advances, 2);
        assert(n.run(second) == n.step(t, false, None));
        lemma_key_retired(w, moves, second, key);
    }
}

/// Of all removals of a key only one takes it: once one did, every later removal, lookup and
/// question finds the key missing, as long as the version of its slot does not go all the way round.
#[verifier::rlimit(50)]
pub proof fn lemma_one_removal_takes<V>(
    w: World<V>,
    t: int,
    weak: bool,
    reply: Option<V>,
    moves: Seq<Move<V>>,
    key: KeyView,
)
    requires
        w.inv(),
        w.can_step(t),
        w.agents[t] == (Agent::RemoveCas { idx: key.idx, version: key.version }),
        w.state.live().contains_key(key),
        w.step(t, weak, reply).may_run(moves),
        advances(w.step(t, weak, reply), moves, key.idx as int) + 1 < 0x1_0000_0000,
    ensures
        !w.step(t, weak, reply).run(moves).state.live().contains_key(key),
{
    let step = Move::Step { t, weak, reply };
    let first = seq![step];
    lemma_live_step(w, t, weak, reply);
    assert(first.drop_last() =~= Seq::<Move<V>>::empty());
    reveal_with_fuel(World::run, 2);
    reveal_with_fuel(World::may_run, 2);
    reveal_with_fuel(advances, 2);
    assert(w.run(first) == w.step(t, weak, reply));
    lemma_key_retired(w, first, moves, key);
}

/// Whether a run has a step that takes a key out.
pub open spec fn takes_out<V>(w: World<V>, moves: Seq<Move<V>>, key: KeyView) -> bool
    decreases moves.len(),
{
    moves.len() > 0 && (takes_out(w, moves.drop_last(), key) || match moves.last() {
        Move::Step { t, weak: _, reply: _ } => w.run(moves.drop_last()).agents[t] == (
        Agent::RemoveCas { idx: key.idx, version: key.version }),
        _ => false,
    })
}

/// A key stays in the map, with its value, until a removal takes it out, whatever else happens in a
/// run.
#[verifier::rlimit(50)]
pub proof fn lemma_value_stays_until_taken<V>(w: World<V>, moves: Seq<Move<V>>, key: KeyView)
    requires
        w.inv(),
        w.may_run(moves),
        w.state.live().contains_key(key),
        !takes_out(w, moves, key),
    ensures
        w.run(moves).state.live().contains_key(key),
        w.run(moves).state.live()[key] == w.state.live()[key],
    decreases moves.len(),
{
    if moves.len() > 0 {
        let rest = moves.drop_last();
        let before = w.run(rest);
        lemma_value_stays_until_taken(w, rest, key);
        lemma_run(w, rest);
        match moves.last() {
            Move::Step { t, weak, reply } => {
                lemma_live_step(before, t, weak, reply);
            },
            _ => {},
        }
    }
}

/// How many guards into slot `idx` are given back in a run.
pub open spec fn releases<V>(moves: Seq<Move<V>>, idx: u32) -> nat
    decreases moves.len(),
{
    if moves.len() == 0 {
        0
    } else {
        releases(moves.drop_last(), idx) + (if moves.last() == (Move::<V>::Release { idx }) {
            1nat
        } else {
            0nat
        })
    }
}

/// A value stays where it is, under its key, while a guard is held, whatever else happens in a run.
#[verifier::rlimit(50)]
pub proof fn lemma_guard_run<V>(w: World<V>, moves: Seq<Move<V>>, idx: u32)
    requires
        w.inv(),
        w.may_run(moves),
        idx < w.state.slots.len(),
        w.guards[idx as int] > releases(moves, idx),
    ensures
        idx < w.run(moves).state.slots.len(),
        w.run(moves).guards[idx as int] >= w.guards[idx as int] - releases(moves, idx),
        w.run(moves).state.slots[idx as int].data == w.state.slots[idx as int].data,
        stored_version(w.run(moves).state.slots[idx as int].version) == stored_version(
            w.state.slots[idx as int].version,
        ),
        w.published(idx as int),
    decreases moves.len(),
{
    assert(w.slot_ok(idx as int));
    if moves.len() > 0 {
        let rest = moves.drop_last();
        lemma_guard_run(w, rest, idx);
        lemma_run(w, rest);
        lemma_guard_move(w.run(rest), moves.last(), idx);
    }
}

/// A move keeps a guarded value, and only giving a guard back takes one away.
#[verifier::rlimit(50)]
pub proof fn lemma_guard_move<V>(w: World<V>, m: Move<V>, idx: u32)
    requires
        w.inv(),
        w.permits(m),
        idx < w.state.slots.len(),
        w.guards[idx as int] > 0,
    ensures
        idx < w.moved(m).state.slots.len(),
        w.moved(m).guards[idx as int] >= w.guards[idx as int] - one_if(m == (Move::<V>::Release { idx })),
        w.moved(m).state.slots[idx as int].data == w.state.slots[idx as int].data,
        stored_version(w.moved(m).state.slots[idx as int].version) == stored_version(
            w.state.slots[idx as int].version,
        ),
{
    match m {
        Move::Step { t, weak, reply } => {
            assert(w.agent_ok(t));
            lemma_guard_keeps_value(w, t, weak, reply, idx);
        },
        _ => {},
    }
}

} // verus!
