use hermes::{Execution, Operation, OperationIterator, RawTask, Scheduler, Step, Task};
use std::collections::HashMap;

fn encode(ops: &[Operation]) -> Vec<u8> {
    ops.iter().flat_map(|op| op.to_vec()).collect()
}

#[test]
fn task_reading_stops_after_store_or_return() {
    let bytes = encode(&[
        Operation::Add(1, 2),
        Operation::Exp,
        Operation::Store(3),
        Operation::Mul(3, 1),
        Operation::Return,
    ]);
    let mut reader = OperationIterator::new(bytes);
    let first = Task::from_reader(&mut reader).unwrap();
    assert_eq!(
        &vec![Operation::Add(1, 2), Operation::Exp, Operation::Store(3)],
        first.ops()
    );
    assert_eq!(27, reader.position());
    let second = Task::from_reader(&mut reader).unwrap();
    assert_eq!(&vec![Operation::Mul(3, 1), Operation::Return], second.ops());
    assert!(Task::from_reader(&mut reader).is_none());
}

#[test]
fn task_reading_stops_at_the_end_of_the_bytes() {
    let mut bytes = encode(&[Operation::Add(1, 2), Operation::Exp]);
    bytes.extend([0x01, 0, 0]);
    let mut reader = OperationIterator::new(bytes);
    let task = Task::from_reader(&mut reader).unwrap();
    assert_eq!(&vec![Operation::Add(1, 2), Operation::Exp], task.ops());
    assert!(Task::from_reader(&mut reader).is_none());
}

#[test]
fn raw_task_roundtrip() {
    let ops = vec![Operation::Div(2, 2), Operation::Pow(3.0f64.to_bits()), Operation::Store(9)];
    let raw: RawTask = Task::new(ops.clone()).into();
    assert_eq!(encode(&ops), raw.as_slice().to_vec());
    let task: Task = raw.clone().into();
    assert_eq!(&ops, task.ops());
    let mut reader = OperationIterator::new(raw.into_vec());
    let again = RawTask::from_reader(&mut reader).unwrap();
    assert_eq!(encode(&ops), again.into_vec());
}

#[test]
fn raw_task_reencodes_what_it_read() {
    let bytes = vec![0x03, 1, 1, 1, 1, 1, 1, 1, 1, 0x01, 0, 0, 0, 0, 0, 0, 0, 0];
    let mut reader = OperationIterator::new(bytes);
    let raw = RawTask::from_reader(&mut reader).unwrap();
    assert_eq!(encode(&[Operation::Abs, Operation::Return]), raw.into_vec());
}

#[test]
fn undecodable_raw_task_gives_an_empty_task() {
    let task: Task = RawTask::from_vec(vec![1, 2, 3]).into();
    assert!(task.ops().is_empty());
    assert!(!task.is_executable());
}

fn scheduler_with(lanes: &[(u32, &[u64])]) -> Scheduler {
    let mut hm = HashMap::new();
    for (idx, items) in lanes {
        hm.insert(*idx, items.to_vec());
    }
    Scheduler::new(hm)
}

#[test]
fn executing_a_ready_task_fetches_its_lanes() {
    let mut scheduler = scheduler_with(&[(1, &[10, 20, 30]), (2, &[5, 6])]);
    let task = Task::new(vec![
        Operation::Add(1, 2),
        Operation::Exp,
        Operation::Mul(2, 2),
        Operation::Store(4),
    ]);
    assert!(task.is_executable());
    match task.execute(&mut scheduler) {
        Execution::Ready { first, input, steps, last } => {
            assert_eq!(Operation::Add(1, 2), first);
            assert_eq!(vec![10, 20], input);
            assert_eq!(2, steps.len());
            assert!(matches!(steps[0], Step::Single(Operation::Exp)));
            match &steps[1] {
                Step::Multiple(op, data) => {
                    assert_eq!(Operation::Mul(2, 2), *op);
                    assert_eq!(&vec![5, 6], data);
                }
                _ => panic!("expected a fetch"),
            }
            assert_eq!(Operation::Store(4), last);
        }
        other => panic!("unexpected {:?}", other),
    }
    assert!(scheduler.lanes.is_empty());
}

#[test]
fn executing_with_a_missing_lane_is_not_ready() {
    let mut scheduler = scheduler_with(&[(1, &[10, 20, 30])]);
    let ops = vec![Operation::Add(1, 3), Operation::Sub(2, 1), Operation::Return];
    let raw: RawTask = Task::new(ops.clone()).into();
    match raw.clone().execute(&mut scheduler) {
        Execution::NotReady(back) => assert_eq!(encode(&ops), back.into_vec()),
        other => panic!("unexpected {:?}", other),
    }
    // the lane fetched before the missing one stays consumed
    assert!(scheduler.lanes.get(&1).is_none());
}

#[test]
fn executing_with_a_short_lane_keeps_it() {
    let mut scheduler = scheduler_with(&[(1, &[10])]);
    let task = Task::new(vec![Operation::Add(1, 3), Operation::Return]);
    assert!(matches!(task.execute(&mut scheduler), Execution::NotReady(_)));
    assert_eq!(Some(&vec![10]), scheduler.lanes.get(&1));
}


#[test]
fn tasks_that_cannot_run() {
    assert!(!Task::new(vec![]).is_executable());
    assert!(!Task::new(vec![Operation::Undefined, Operation::Return]).is_executable());
    assert!(!Task::new(vec![Operation::Exp, Operation::Return]).is_executable());
    assert!(!Task::new(vec![Operation::Add(1, 0), Operation::Return]).is_executable());
    assert!(!Task::new(vec![Operation::Add(1, 1)]).is_executable());
    assert!(!Task::new(vec![Operation::Return]).is_executable());
    assert!(!Task::new(vec![Operation::Return, Operation::Add(1, 1)]).is_executable());
    assert!(!Task::new(vec![Operation::Add(1, 3), Operation::Exp]).is_executable());
    assert!(Task::new(vec![Operation::Add(1, 1), Operation::Return]).is_executable());
    assert!(Task::new(vec![Operation::Add(1, 1), Operation::Exp, Operation::Store(2)]).is_executable());
}

#[test]
fn finished_tasks_report_their_last_operation() {
    assert!(matches!(hermes::execution::finished_variant(Operation::Return, 7), hermes::EvaluationVariant::Return(7)));
    assert!(matches!(hermes::execution::finished_variant(Operation::Store(3), 9), hermes::EvaluationVariant::Store(3, 9)));
}
