use hermes::generator::{
    flip_frequency, generate_example_program, generate_lane_sizes, generate_program_from_lanes,
    generate_serial, end_task, flip_outcome, TaskEnd, F64_FIVE, F64_THREE, F64_TWO,
};
use hermes::{Operation, OperationIterator, Scheduler, Task};

#[test]
fn float_bits_constants() {
    assert_eq!(2.0f64.to_bits(), F64_TWO);
    assert_eq!(3.0f64.to_bits(), F64_THREE);
    assert_eq!(5.0f64.to_bits(), F64_FIVE);
}

#[test]
fn example_program_reads_back() {
    let bytes = generate_example_program();
    let (lanes, used) = Scheduler::initialize_lanes_from_reader(&bytes);
    assert_eq!(4, lanes.len());
    assert_eq!(Some(&vec![F64_TWO, F64_THREE, F64_FIVE]), lanes.get(&3));
    assert_eq!(Some(&vec![F64_TWO]), lanes.get(&4));
    let mut reader = OperationIterator::starting_at(bytes.clone(), used);
    let tasks: Vec<Task> = Scheduler::parser_loop(&mut reader)
        .into_iter()
        .map(Task::from)
        .collect();
    assert_eq!(4, tasks.len());
    assert_eq!(&vec![Operation::Add(1, 3), Operation::Exp, Operation::Store(5)], tasks[0].ops());
    assert_eq!(
        &vec![Operation::Add(3, 3), Operation::Pow(2.0f64.to_bits()), Operation::Store(5)],
        tasks[2].ops()
    );
    assert_eq!(&vec![Operation::Mul(5, 3), Operation::Return], tasks[3].ops());
    assert_eq!(used + 10 * 9, bytes.len());
}

#[test]
fn flips_with_one_sided_odds() {
    for _ in 0..50 {
        assert!(flip_frequency(1, 0));
        assert!(!flip_frequency(0, 1));
    }
}

#[test]
fn serial_part_starts_with_a_fetch() {
    for _ in 0..20 {
        let ops = generate_serial(3, 4, 1, 1);
        assert_eq!((3, 4), ops[0].fetch_size());
        for op in &ops[1..] {
            assert_eq!((0, 0), op.fetch_size());
            assert!(!op.is_terminal());
            assert_ne!(Operation::Undefined, *op);
        }
    }
    assert_eq!(1, generate_serial(1, 1, 0, 1).len());
}

#[test]
fn lane_sizes_are_in_range() {
    let sizes = generate_lane_sizes(6, 2, 3);
    assert_eq!(6, sizes.len());
    for (i, (idx, qty)) in sizes.iter().enumerate() {
        assert_eq!((i + 1) as u32, *idx);
        assert!(2 <= *qty && *qty < 5);
    }
}

#[test]
fn generated_program_reads_back_into_tasks() {
    for _ in 0..10 {
        let base = vec![(1u32, vec![1u64, 2]), (2, vec![3]), (3, vec![4, 5, 6])];
        let bytes = generate_program_from_lanes(base, 7, 2, 2, 2);
        let (lanes, used) = Scheduler::initialize_lanes_from_reader(&bytes);
        assert_eq!(3, lanes.len());
        let mut reader = OperationIterator::starting_at(bytes.clone(), used);
        let tasks: Vec<Task> = Scheduler::parser_loop(&mut reader)
            .into_iter()
            .map(Task::from)
            .collect();
        assert!(!tasks.is_empty());
        for (i, task) in tasks.iter().enumerate() {
            let ops = task.ops();
            assert!(ops.len() >= 2);
            assert_ne!((0, 0), ops[0].fetch_size());
            let last = ops[ops.len() - 1];
            if i + 1 == tasks.len() {
                assert_eq!(Operation::Return, last);
            } else {
                assert!(matches!(last, Operation::Store(_)));
            }
        }
    }
}

#[test]
fn no_lanes_no_tasks() {
    let bytes = generate_program_from_lanes(vec![], 1, 1, 1, 1);
    assert_eq!(vec![0, 0, 0, 0], bytes);
}

#[test]
fn ending_tasks_updates_the_frontier() {
    let mut frontier = vec![(1u32, 2u32), (2, 1)];
    let mut lane_idx = 5u32;
    assert_eq!(Operation::Return, end_task(&mut frontier, &mut lane_idx, TaskEnd::Return));
    assert_eq!(vec![(1, 2), (2, 1)], frontier);
    assert_eq!(Operation::Store(6), end_task(&mut frontier, &mut lane_idx, TaskEnd::NewLane));
    assert_eq!(6, lane_idx);
    assert_eq!(vec![(1, 2), (2, 1), (6, 1)], frontier);
    assert_eq!(
        Operation::Store(1),
        end_task(&mut frontier, &mut lane_idx, TaskEnd::ExistingLane(0))
    );
    assert_eq!(vec![(1, 3), (2, 1), (6, 1)], frontier);
    let mut top = u32::MAX;
    assert_eq!(Operation::Store(0), end_task(&mut frontier, &mut top, TaskEnd::NewLane));
}

#[test]
fn operations_by_kind() {
    assert_eq!(Operation::Add(4, 2), Operation::parallel_operation(0, 4, 2));
    assert_eq!(Operation::Sub(4, 2), Operation::parallel_operation(10, 4, 2));
    assert_eq!(Operation::Abs, Operation::serial_operation(0));
    assert_eq!(Operation::Log10, Operation::serial_operation(18));
    assert_eq!(Operation::Trunc, Operation::serial_operation(30));
    for _ in 0..50 {
        assert_eq!((7, 3), Operation::random_parallel(7, 3).fetch_size());
        let op = Operation::random_serial();
        assert_eq!((0, 0), op.fetch_size());
        assert!(!op.is_terminal());
    }
}

#[test]
fn even_odds_give_both_outcomes() {
    let flips: Vec<bool> = (0..400).map(|_| flip_frequency(1, 1)).collect();
    assert!(flips.iter().any(|f| *f));
    assert!(flips.iter().any(|f| !*f));
    let kinds: std::collections::HashSet<u8> =
        (0..400).map(|_| Operation::random_serial().byte_code()).collect();
    assert!(kinds.len() > 1);
}

#[test]
fn flip_outcome_compares_the_draw() {
    assert!(flip_outcome(0, 1));
    assert!(!flip_outcome(1, 1));
    assert!(!flip_outcome(5, 0));
}

#[test]
fn generated_tasks_fetch_what_was_stored() {
    for _ in 0..20 {
        let base = vec![(1u32, vec![1u64, 2]), (2, vec![3]), (3, vec![4, 5, 6])];
        let bytes = generate_program_from_lanes(base, 3, 2, 1, 1);
        let (lanes, used) = Scheduler::initialize_lanes_from_reader(&bytes);
        let mut counts: std::collections::HashMap<u32, u32> =
            lanes.iter().map(|(l, v)| (*l, v.len() as u32)).collect();
        let mut fetched = std::collections::HashSet::new();
        let mut reader = OperationIterator::starting_at(bytes.clone(), used);
        for raw in Scheduler::parser_loop(&mut reader) {
            let task = Task::from(raw);
            let ops = task.ops();
            let (lane, count) = ops[0].fetch_size();
            assert_eq!(Some(&count), counts.get(&lane));
            assert!(fetched.insert(lane));
            counts.remove(&lane);
            if let Operation::Store(target) = ops[ops.len() - 1] {
                assert!(!fetched.contains(&target));
                *counts.entry(target).or_insert(0) += 1;
            }
        }
    }
}

#[test]
fn no_lanes_need_no_frequencies() {
    assert_eq!(vec![0, 0, 0, 0], generate_program_from_lanes(vec![], 0, 0, 0, 0));
    assert_eq!(
        vec![0, 0, 0, 0],
        generate_program_from_lanes(vec![], usize::MAX, 1, usize::MAX, 1)
    );
    assert!(generate_lane_sizes(0, usize::MAX, 1).is_empty());
}

fn generated_tasks(base: Vec<(u32, Vec<u64>)>, new_lane: usize, existing: usize) -> Vec<Task> {
    let bytes = generate_program_from_lanes(base, 1, 1, new_lane, existing);
    let (_, used) = Scheduler::initialize_lanes_from_reader(&bytes);
    let mut reader = OperationIterator::starting_at(bytes, used);
    Scheduler::parser_loop(&mut reader).into_iter().map(Task::from).collect()
}

#[test]
fn a_single_lane_gives_a_single_returning_task() {
    let tasks = generated_tasks(vec![(1u32, vec![1u64, 2])], 1, 0);
    assert_eq!(1, tasks.len());
    let ops = tasks[0].ops();
    assert_eq!((1, 2), ops[0].fetch_size());
    assert_eq!(Operation::Return, ops[ops.len() - 1]);
}

#[test]
fn only_existing_lanes_when_new_odds_are_zero() {
    let base = vec![(1u32, vec![1u64]), (2, vec![2]), (3, vec![3])];
    let tasks = generated_tasks(base, 0, 1);
    assert_eq!(3, tasks.len());
    for task in &tasks[..tasks.len() - 1] {
        let ops = task.ops();
        match ops[ops.len() - 1] {
            Operation::Store(lane) => assert!(lane <= 3),
            other => panic!("unexpected {:?}", other),
        }
    }
}

#[test]
fn serial_part_has_no_single_operations_without_serial_odds() {
    for _ in 0..20 {
        assert_eq!(1, generate_serial(2, 2, 0, 5).len());
    }
    let ops = hermes::generator::serial_task(4, 2, 7, &vec![0, 30]);
    assert_eq!(vec![Operation::Mul(4, 2), Operation::Abs, Operation::Trunc], ops);
}
