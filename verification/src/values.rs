//! What becomes of the values that agents write: each is dropped once, or is in its slot still.
#[allow(unused_imports)]
use crate::count::one_if;
#[allow(unused_imports)]
use crate::linear::lemma_values_step;
#[allow(unused_imports)]
use crate::protocol::Agent;
#[allow(unused_imports)]
use crate::runs::{lemma_run, lemma_run_settles, Move};
#[allow(unused_imports)]
use crate::settled::lemma_stored_len;
#[allow(unused_imports)]
use crate::slot::Slot;
#[allow(unused_imports)]
use crate::state::{stored_count, State};
#[allow(unused_imports)]
use crate::steps::lemma_rest;
#[allow(unused_imports)]
use crate::world::World;
#[allow(unused_imports)]
use vstd::prelude::*;

verus! {

/// How many of the slots have a value in them.
pub open spec fn filled<V>(slots: Seq<Slot<V>>) -> int
    decreases slots.len(),
{
    if slots.len() == 0 {
        0
    } else {
        filled(slots.drop_last()) + one_if(slots.last().data is Some)
    }
}

/// Whether a move writes a value into a slot.
pub open spec fn writes<V>(w: World<V>, m: Move<V>) -> bool {
    match m {
        Move::Step { t, weak: _, reply: _ } => w.agents[t] is DataWrite,
        _ => false,
    }
}

/// Whether a move drops the value in a slot.
pub open spec fn drops<V>(w: World<V>, m: Move<V>) -> bool {
    match m {
        Move::Step { t, weak: _, reply: _ } => w.agents[t] is ValueDrop,
        _ => false,
    }
}

/// How many values are written in a run.
pub open spec fn written<V>(w: World<V>, moves: Seq<Move<V>>) -> int
    decreases moves.len(),
{
    if moves.len() == 0 {
        0
    } else {
        written(w, moves.drop_last()) + one_if(writes(w.run(moves.drop_last()), moves.last()))
    }
}

/// How many values are dropped in a run.
pub open spec fn dropped<V>(w: World<V>, moves: Seq<Move<V>>) -> int
    decreases moves.len(),
{
    if moves.len() == 0 {
        0
    } else {
        dropped(w, moves.drop_last()) + one_if(drops(w.run(moves.drop_last()), moves.last()))
    }
}

/// Replacing a slot changes the count by what the two slots count.
proof fn lemma_filled_update<V>(slots: Seq<Slot<V>>, i: int, slot: Slot<V>)
    requires
        0 <= i < slots.len(),
    ensures
        filled(slots.update(i, slot)) == filled(slots) - one_if(slots[i].data is Some) + one_if(
            slot.data is Some,
        ),
    decreases slots.len(),
{
    let changed = slots.update(i, slot);
    if i == slots.len() - 1 {
        assert(changed.drop_last() =~= slots.drop_last());
    } else {
        lemma_filled_update(slots.drop_last(), i, slot);
        assert(changed.drop_last() =~= slots.drop_last().update(i, slot));
    }
}

/// Slots with values in the same places count the same.
proof fn lemma_filled_same<V>(a: Seq<Slot<V>>, b: Seq<Slot<V>>)
    requires
        a.len() == b.len(),
        forall|i: int| 0 <= i < a.len() ==> (#[trigger] b[i]).data is Some == a[i].data is Some,
    ensures
        filled(b) == filled(a),
    decreases a.len(),
{
    if a.len() > 0 {
        assert forall|i: int| 0 <= i < a.len() - 1 implies (
        #[trigger] b.drop_last()[i]).data is Some == a.drop_last()[i].data is Some by {
            assert(b[i].data is Some == a[i].data is Some);
        }
        lemma_filled_same(a.drop_last(), b.drop_last());
        assert(b[b.len() - 1].data is Some == a[a.len() - 1].data is Some);
    }
}

/// A move fills a slot if it writes a value, empties one if it drops a value, and else leaves all as
/// they are.
#[verifier::rlimit(50)]
pub proof fn lemma_filled_move<V>(w: World<V>, m: Move<V>)
    requires
        w.inv(),
        w.permits(m),
    ensures
        filled(w.moved(m).state.slots) == filled(w.state.slots) + one_if(writes(w, m)) - one_if(
            drops(w, m),
        ),
{
    let a = w.state.slots;
    let b = w.moved(m).state.slots;
    match m {
        Move::Step { t, weak, reply } => {
            assert(w.agent_ok(t));
            assert forall|i: int| 0 <= i < a.len() implies ({
                let before = a[i].data;
                let after = (#[trigger] b[i]).data;
                match w.agents[t] {
                    Agent::DataWrite { idx, version: _ } if idx == i => before is None
                        && after is Some,
                    Agent::ValueDrop { idx, after: _ } if idx == i => before is Some
                        && after is None,
                    _ => after == before,
                }
            }) by {
                lemma_values_step(w, t, weak, reply, i);
            }
            match w.agents[t] {
                Agent::DataWrite { idx, version: _ } => {
                    assert(b == a.update(idx as int, b[idx as int]));
                    lemma_filled_update(a, idx as int, b[idx as int]);
                },
                Agent::ValueDrop { idx, after: _ } => {
                    assert(b == a.update(idx as int, b[idx as int]));
                    lemma_filled_update(a, idx as int, b[idx as int]);
                },
                Agent::GrowLen => {
                    assert(b.drop_last() =~= a);
                },
                _ => {
                    lemma_filled_same(a, b);
                },
            }
        },
        _ => {
            lemma_filled_same(a, b);
        },
    }
}

/// Of the values that are written in a run, each is dropped once or is in its slot still: none is
/// overwritten, none is dropped twice, and none is lost.
pub proof fn lemma_run_accounts_for_values<V>(w: World<V>, moves: Seq<Move<V>>)
    requires
        w.inv(),
        w.may_run(moves),
    ensures
        filled(w.run(moves).state.slots) + dropped(w, moves) == filled(w.state.slots) + written(
            w,
            moves,
        ),
    decreases moves.len(),
{
    if moves.len() > 0 {
        let rest = moves.drop_last();
        lemma_run_accounts_for_values(w, rest);
        lemma_run(w, rest);
        lemma_filled_move(w.run(rest), moves.last());
    }
}

/// Between two operations, the slots that have a value in them are those whose values are stored.
pub proof fn lemma_filled_is_stored<V>(s: State<V>)
    requires
        s.settled(),
    ensures
        filled(s.slots) == s.stored().dom().len(),
{
    lemma_stored_len(s);
    assert forall|i: int| 0 <= i < s.slots.len() implies (#[trigger] s.slots[i]).data is Some
        == (s.slots[i].ref_count > 0) by {
        assert(s.slot_ok(i));
    }
    lemma_filled_count(s.slots);
}

/// Where a value is in a slot exactly if somebody refers to it, the two counts are one.
proof fn lemma_filled_count<V>(slots: Seq<Slot<V>>)
    requires
        forall|i: int|
            0 <= i < slots.len() ==> (#[trigger] slots[i]).data is Some == (slots[i].ref_count > 0),
    ensures
        filled(slots) == stored_count(slots),
    decreases slots.len(),
{
    if slots.len() > 0 {
        let rest = slots.drop_last();
        assert(forall|i: int| 0 <= i < rest.len() ==> #[trigger] rest[i] == slots[i]);
        lemma_filled_count(rest);
        assert(slots[slots.len() - 1].data is Some == (slots[slots.len() - 1].ref_count > 0));
    }
}

/// Operations that begin between two others, run beside each other in any order and end, drop each value
/// that was stored or written exactly once, but for those that are in the map or held by a guard at the
/// end.
pub proof fn lemma_values_dropped_once<V>(s: State<V>, moves: Seq<Move<V>>)
    requires
        s.settled(),
        World::at_rest(s).may_run(moves),
        World::at_rest(s).run(moves).quiescent(),
    ensures
        World::at_rest(s).run(moves).state.stored().dom().len() + dropped(World::at_rest(s), moves)
            == s.stored().dom().len() + written(World::at_rest(s), moves),
{
    let w = World::at_rest(s);
    lemma_rest(s);
    lemma_run_settles(s, moves);
    lemma_run_accounts_for_values(w, moves);
    lemma_filled_is_stored(s);
    lemma_filled_is_stored(w.run(moves).state);
}

} // verus!
