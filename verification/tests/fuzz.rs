//! Workloads.
use atomic_slotmap::fuzz::{
    exercise, forge, fuzz, Constructor, Destructor, Index, KeyInfo, LocalWorker, Op, Target, Value, Worker,
};
use atomic_slotmap::{AtomicSlotMap, DefaultKey, Key, KeyDataRead};

fn target(ctor: Constructor, ops: [Vec<Op>; 4]) -> Target {
    Target { ctor, ops, dtor: Destructor::LetDrop }
}

#[test]
fn an_empty_workload_passes() {
    let outcome = fuzz(target(Constructor::New, [vec![], vec![], vec![], vec![]]), &vec![]);
    assert!(outcome.passed);
    assert_eq!((outcome.made, outcome.elements, outcome.left), (0, 0, 0));
}

#[test]
fn values_carry_their_numbers() {
    assert_eq!(Value::new(17).get(), 17);
}

#[test]
fn a_workload_with_every_operation_passes() {
    let every = vec![
        Op::Reserve(40),
        Op::Insert(1),
        Op::InsertWithKey(2),
        Op::Insert(3),
        Op::Insert(4),
        Op::Publish(0),
        Op::Retrieve(Index::Private(1)),
        Op::Retrieve(Index::Shared(5)),
        Op::AddRetained(Index::Private(0)),
        Op::AddRetained(Index::Shared(0)),
        Op::AddRetainedArc(Index::Private(2)),
        Op::ReadRetained(1),
        Op::ReadRetainedArc(0),
        Op::Remove(Index::Private(0)),
        Op::RemoveToGraveyard(Index::Shared(0), true),
        Op::RemoveToGraveyard(Index::Private(0), false),
        Op::CheckGraveyard(0),
        Op::CheckGraveyard(1),
        Op::ReadRetained(0),
        Op::RemoveRetained(0),
        Op::Insert(5),
        Op::CheckGraveyard(0),
        Op::RemoveRetainedArc(0),
        Op::RetrieveForged(123456789),
    ];
    let data = target(
        Constructor::WithCapacity(10),
        [every, vec![Op::Insert(6), Op::Publish(0)], vec![Op::Remove(Index::Shared(9))], vec![]],
    );
    let outcome = fuzz(data, &vec![]);
    assert!(outcome.passed);
    // of the first worker one of four and the later one are left, and nothing of the others
    assert_eq!((outcome.made, outcome.elements, outcome.left), (6, 2, 0));
    // one guard is left to give back when the operations are done
    assert_eq!(outcome.steps, 24 + 1 + 2 + 1);
}

#[test]
fn a_map_is_gone_after_its_workload() {
    let mut map: AtomicSlotMap<DefaultKey, Value> = AtomicSlotMap::with_capacity(40);
    let ops = [
        vec![Op::Insert(1), Op::Insert(2), Op::AddRetained(Index::Private(0))],
        vec![Op::InsertWithKey(3), Op::Remove(Index::Private(0))],
        vec![],
        vec![],
    ];
    let outcome = exercise(&mut map, &ops, &vec![1, 0, 1], Destructor::LetDrop);
    assert!(outcome.passed);
    assert_eq!((outcome.steps, outcome.made, outcome.elements, outcome.left), (6, 3, 2, 0));
    assert_eq!((map.lossy_len(), map.capacity()), (0, 0));
}

#[test]
fn operations_on_empty_lists_do_nothing() {
    let ops = vec![
        Op::Publish(1),
        Op::Remove(Index::Private(1)),
        Op::RemoveToGraveyard(Index::Shared(1), true),
        Op::Retrieve(Index::Private(0)),
        Op::AddRetained(Index::Shared(0)),
        Op::ReadRetained(0),
        Op::RemoveRetained(3),
        Op::AddRetainedArc(Index::Private(0)),
        Op::ReadRetainedArc(0),
        Op::RemoveRetainedArc(3),
        Op::CheckGraveyard(0),
    ];
    let outcome = fuzz(target(Constructor::New, [ops, vec![], vec![], vec![]]), &vec![]);
    assert!(outcome.passed);
    assert_eq!(outcome.elements, 0);
}

#[test]
fn the_order_decides_who_goes_on() {
    // the second worker removes the shared key only if it comes after the first published one
    let ops = || [
        vec![Op::Insert(1), Op::Publish(0)],
        vec![Op::Remove(Index::Shared(0))],
        vec![],
        vec![],
    ];
    let outcome = fuzz(target(Constructor::New, ops()), &vec![0, 0, 1]);
    assert_eq!((outcome.passed, outcome.steps, outcome.elements), (true, 3, 0));
    let outcome = fuzz(target(Constructor::New, ops()), &vec![0, 1, 0]);
    assert_eq!((outcome.passed, outcome.steps, outcome.elements), (true, 3, 1));
    // workers that have nothing to do are passed over
    let outcome = fuzz(target(Constructor::New, ops()), &vec![3, 2, 5]);
    assert_eq!((outcome.passed, outcome.steps, outcome.elements), (true, 3, 0));
}

#[test]
fn two_workers_take_turns() {
    let mut map: AtomicSlotMap<DefaultKey, Value> = AtomicSlotMap::new();
    let mut shared: Vec<KeyInfo> = Vec::new();
    let mut one = LocalWorker::new();
    let mut two = LocalWorker::new();
    assert!(one.apply(Op::Insert(11), &mut map, &mut shared));
    assert!(one.apply(Op::Publish(0), &mut map, &mut shared));
    assert!(two.apply(Op::AddRetained(Index::Shared(0)), &mut map, &mut shared));
    assert!(one.apply(Op::RemoveToGraveyard(Index::Shared(0), true), &mut map, &mut shared));
    assert!(two.apply(Op::ReadRetained(0), &mut map, &mut shared));
    assert!(one.apply(Op::CheckGraveyard(0), &mut map, &mut shared));
    assert!(shared.is_empty());
    assert_eq!(two.next_op(&vec![], 0).is_some(), true);
    assert!(two.apply(Op::RemoveRetained(0), &mut map, &mut shared));
    assert_eq!(two.next_op(&vec![], 0).is_some(), false);
    assert!(one.apply(Op::CheckGraveyard(0), &mut map, &mut shared));
    assert!(map.lossy_is_empty());
}

#[test]
fn a_check_that_does_not_hold_is_told() {
    let mut map: AtomicSlotMap<DefaultKey, Value> = AtomicSlotMap::new();
    let mut shared: Vec<KeyInfo> = Vec::new();
    let mut worker = LocalWorker::new();
    let key = map.insert(Value::new(1));
    // the value is another one
    worker.remember(key, 2);
    assert!(!worker.apply(Op::Retrieve(Index::Private(0)), &mut map, &mut shared));
    assert!(!worker.apply(Op::AddRetained(Index::Private(0)), &mut map, &mut shared));
    assert!(!worker.apply(Op::ReadRetained(0), &mut map, &mut shared));
    assert!(!worker.apply(Op::RemoveRetained(0), &mut map, &mut shared));
    // the key is gone
    map.remove(key);
    assert!(!worker.apply(Op::Retrieve(Index::Private(0)), &mut map, &mut shared));
    assert!(!worker.apply(Op::AddRetainedArc(Index::Private(0)), &mut map, &mut shared));
    assert!(!worker.apply(Op::Remove(Index::Private(0)), &mut map, &mut shared));
}

#[test]
fn forged_keys_have_large_indices() {
    let key = forge(123456789);
    assert_eq!((key.data().idx(), key.data().version()), (0x7000_0000 + 6789, 123456789));
    let key = forge(4);
    assert_eq!((key.data().idx(), key.data().version()), (0x7000_0004, 5));
}

#[test]
fn workers_keep_whatever_guards_they_are_given() {
    let mut worker: Worker<&str, u8> = Worker::new();
    let mut shared: Vec<KeyInfo> = Vec::new();
    worker.remember(forge(1), 10);
    worker.remember(forge(2), 20);
    let info = worker.choose_key(Index::Private(3), &shared).unwrap();
    assert_eq!((info.key(), info.value()), (forge(2), 20));
    worker.retain(info, "guard");
    worker.retain_owning(info, 7);
    assert_eq!(worker.retained_at(5).map(|(_, guard)| *guard), Some("guard"));
    assert_eq!(worker.owning_at(0).map(|(_, guard)| *guard), Some(7));
    assert_eq!(worker.release_at(1).map(|(info, guard)| (info.value(), guard)), Some((20, "guard")));
    assert_eq!(worker.release_owning_at(1).map(|(_, guard)| guard), Some(7));
    assert!(worker.release_at(0).is_none());
    worker.publish(0, &mut shared);
    assert_eq!(shared.len(), 1);
    let taken = worker.take_key(Index::Shared(9), &mut shared).unwrap();
    assert_eq!(taken.value(), 10);
    assert!(worker.grave(0).is_none());
    worker.bury(taken, true);
    assert_eq!(worker.grave(4), Some(forge(1)));
}

#[test]
fn scattered_workloads_pass() {
    let mut seed: u64 = 99;
    let mut next = move || {
        seed = seed.wrapping_mul(6364136223846793005).wrapping_add(1442695040888963407);
        (seed >> 33) as usize
    };
    for round in 0..40 {
        let mut ops = [vec![], vec![], vec![], vec![]];
        for list in ops.iter_mut() {
            for _ in 0..(round * 10) {
                let number = next();
                let index =
                    if number % 2 == 0 { Index::Shared(number / 2) } else { Index::Private(number) };
                list.push(match next() % 17 {
                    0 => Op::Reserve(number as u8),
                    1 | 2 => Op::Insert(number as u32),
                    3 => Op::InsertWithKey(number as u32),
                    4 => Op::Publish(number),
                    5 => Op::Remove(index),
                    6 => Op::RemoveToGraveyard(index, number % 3 == 0),
                    7 => Op::Retrieve(index),
                    8 => Op::AddRetained(index),
                    9 => Op::ReadRetained(number),
                    10 => Op::RemoveRetained(number),
                    11 => Op::AddRetainedArc(index),
                    12 => Op::ReadRetainedArc(number),
                    13 => Op::RemoveRetainedArc(number),
                    14 => Op::CheckGraveyard(number),
                    15 => Op::RetrieveForged(number),
                    _ => Op::Insert(7),
                });
            }
        }
        let order: Vec<usize> = (0..round * 60).map(|_| next()).collect();
        let outcome = fuzz(target(Constructor::WithCapacity(round as u8), ops), &order);
        assert!(outcome.passed);
        assert_eq!(outcome.left, 0);
    }
}
