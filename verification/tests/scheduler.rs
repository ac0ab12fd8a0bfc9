use hermes::lanes::PreludeError;
use hermes::{
    Dispatch, Evaluation, EvaluationVariant, Operation, OperationIterator, RawTask, Scheduler,
    Task, FIFO_CAPACITY,
};
use std::collections::HashMap;

fn raw(ops: &[Operation]) -> RawTask {
    Task::new(ops.to_vec()).into()
}

#[test]
fn push_task_buffers_when_the_queue_is_full() {
    let mut scheduler = Scheduler::new(HashMap::new());
    for i in 0..FIFO_CAPACITY {
        scheduler.push_task(raw(&[Operation::Add(i as u32, 1), Operation::Return]));
    }
    assert!(scheduler.buffered_tasks.is_empty());
    scheduler.push_task(raw(&[Operation::Add(999, 1), Operation::Return]));
    assert_eq!(1, scheduler.buffered_tasks.len());
    assert_eq!(FIFO_CAPACITY, scheduler.fifo.len());
    let first: Task = scheduler.pop_task().unwrap().into();
    assert_eq!(Operation::Add(0, 1), first.ops()[0]);
}

#[test]
fn reschedule_moves_at_most_five_newest_first() {
    let mut scheduler = Scheduler::new(HashMap::new());
    for i in 0..7u32 {
        scheduler.buffered_tasks.push(raw(&[Operation::Add(i, 1), Operation::Return]));
    }
    scheduler.reschedule_buffered_tasks();
    assert_eq!(2, scheduler.buffered_tasks.len());
    assert_eq!(5, scheduler.fifo.len());
    let order: Vec<u32> = std::iter::from_fn(|| scheduler.pop_task())
        .map(|t| Task::from(t).ops()[0].fetch_size().0)
        .collect();
    assert_eq!(vec![6, 5, 4, 3, 2], order);
}

#[test]
fn reschedule_stops_when_the_queue_is_full() {
    let mut scheduler = Scheduler::new(HashMap::new());
    for _ in 0..FIFO_CAPACITY - 2 {
        scheduler.push_task(raw(&[Operation::Return]));
    }
    for i in 0..4u32 {
        scheduler.buffered_tasks.push(raw(&[Operation::Add(i, 1), Operation::Return]));
    }
    scheduler.reschedule_buffered_tasks();
    assert!(scheduler.fifo.is_full());
    assert_eq!(2, scheduler.buffered_tasks.len());
}

#[test]
fn wake_workers_only_when_there_is_work() {
    let mut scheduler = Scheduler::new(HashMap::new());
    scheduler.sleeping_worker.extend([0, 1, 2, 3, 4, 5, 6]);
    assert!(scheduler.wake_sleeping_workers().is_empty());
    assert_eq!(7, scheduler.sleeping_worker.len());
    scheduler.push_task(raw(&[Operation::Return]));
    assert_eq!(vec![6, 5, 4, 3, 2], scheduler.wake_sleeping_workers());
    assert_eq!(vec![0, 1], scheduler.sleeping_worker);
    assert_eq!(vec![1, 0], scheduler.wake_sleeping_workers());
    assert!(scheduler.sleeping_worker.is_empty());
}

#[test]
fn stored_values_come_back_from_the_lane() {
    let mut scheduler = Scheduler::new(HashMap::new());
    scheduler.push_lane(5, 11);
    scheduler.push_lane(5, 12);
    assert_eq!(None, scheduler.fetch_from_lane(5, 3));
    assert_eq!(Some(vec![11, 12]), scheduler.fetch_from_lane(5, 2));
    assert_eq!(None, scheduler.fetch_from_lane(5, 1));
}

#[test]
fn fetching_part_of_a_lane_removes_the_whole_lane() {
    let mut hm = HashMap::new();
    hm.insert(1u32, vec![1u64, 2, 3]);
    let mut scheduler = Scheduler::new(hm);
    assert_eq!(Some(vec![1]), scheduler.fetch_from_lane(1, 1));
    assert!(scheduler.lanes.is_empty());
}

#[test]
fn dispatch_each_variant() {
    let mut scheduler = Scheduler::new(HashMap::new());
    let task = raw(&[Operation::Add(1, 1), Operation::Store(2)]);

    let d = Evaluation::new(EvaluationVariant::NewRawTask(task.clone()), 0).dispatch(&mut scheduler);
    assert!(matches!(d, Dispatch::Continue));
    assert_eq!(1, scheduler.fifo.len());

    let d = Evaluation::new(EvaluationVariant::NotReady(task.clone()), 1).dispatch(&mut scheduler);
    assert!(matches!(d, Dispatch::Continue));
    assert_eq!(2, scheduler.fifo.len());

    let d = Evaluation::new(EvaluationVariant::Sleep(3), 3).dispatch(&mut scheduler);
    assert!(matches!(d, Dispatch::Continue));
    assert_eq!(vec![3], scheduler.sleeping_worker);

    let stored = Evaluation::new(EvaluationVariant::Store(2, 7.5f64.to_bits()), 1)
        .finish(100, 250, task.clone());
    match stored.dispatch(&mut scheduler) {
        Dispatch::Stored { task, start, end } => {
            assert_eq!(&vec![Operation::Add(1, 1), Operation::Store(2)], task.ops());
            assert_eq!((100, 250), (start, end));
        }
        other => panic!("unexpected {:?}", other),
    }
    assert_eq!(Some(&vec![7.5f64.to_bits()]), scheduler.lanes.get(&2));

    let returned = Evaluation::new(EvaluationVariant::Return(42), 2);
    match returned.dispatch(&mut scheduler) {
        Dispatch::Finished { task, start, end, result } => {
            assert!(task.ops().is_empty());
            assert_eq!((0, 0, 42), (start, end, result));
        }
        other => panic!("unexpected {:?}", other),
    }
}

#[test]
fn lane_section_roundtrip() {
    let lanes = vec![(1u32, vec![1u64, 2, 3]), (7, vec![9]), (1, vec![4, 5])];
    let bytes = Scheduler::lane_initializer(lanes);
    assert_eq!(8 + 24 + 8 + 8 + 8 + 16 + 4, bytes.len());
    assert_eq!(&[3, 0, 0, 0, 1, 0, 0, 0], &bytes[0..8]);
    let (hm, used) = Scheduler::initialize_lanes_from_reader(&bytes);
    assert_eq!(bytes.len(), used);
    assert_eq!(2, hm.len());
    assert_eq!(Some(&vec![4, 5]), hm.get(&1));
    assert_eq!(Some(&vec![9]), hm.get(&7));
}

#[test]
fn lane_section_errors() {
    assert_eq!(PreludeError::MissingSize, Scheduler::read_lane_prelude(&[1, 0]).unwrap_err());
    assert_eq!(
        PreludeError::MissingLane,
        Scheduler::read_lane_prelude(&[1, 0, 0, 0, 5]).unwrap_err()
    );
    assert_eq!(
        PreludeError::MissingItems,
        Scheduler::read_lane_prelude(&[2, 0, 0, 0, 5, 0, 0, 0, 1, 2, 3, 4, 5, 6, 7, 8]).unwrap_err()
    );
    let (hm, used) = Scheduler::read_lane_prelude(&[0, 0, 0, 0, 0xAA]).unwrap();
    assert!(hm.is_empty());
    assert_eq!(4, used);
}

#[test]
fn parser_loop_reads_every_task() {
    let mut bytes = Task::new(vec![Operation::Add(1, 1), Operation::Store(2)]).to_bytes();
    bytes.extend(Task::new(vec![Operation::Mul(2, 1), Operation::Neg, Operation::Return]).to_bytes());
    let mut reader = OperationIterator::new(bytes);
    let tasks = Scheduler::parser_loop(&mut reader);
    assert_eq!(2, tasks.len());
    let second: Task = tasks[1].clone().into();
    assert_eq!(&vec![Operation::Mul(2, 1), Operation::Neg, Operation::Return], second.ops());
}

#[test]
fn a_lane_without_items_ends_the_lane_section() {
    let bytes = Scheduler::lane_initializer(vec![(1, vec![]), (2, vec![5])]);
    assert_eq!(4 + 4 + 4 + 4 + 8 + 4, bytes.len());
    let (hm, used) = Scheduler::read_lane_prelude(&bytes).unwrap();
    assert!(hm.is_empty());
    assert_eq!(4, used);
}

#[test]
fn lane_initializer_of_no_lanes_is_the_end_marker() {
    assert_eq!(vec![0, 0, 0, 0], Scheduler::lane_initializer(vec![]));
}

#[test]
fn parser_loop_ends_at_the_end_of_the_bytes() {
    let mut bytes = Task::new(vec![Operation::Add(1, 1), Operation::Store(2)]).to_bytes();
    bytes.extend([1, 2, 3]);
    let len = bytes.len();
    let mut reader = OperationIterator::new(bytes);
    assert_eq!(1, Scheduler::parser_loop(&mut reader).len());
    assert_eq!(len, reader.position());
}
