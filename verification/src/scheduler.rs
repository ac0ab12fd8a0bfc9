use vstd::prelude::*;
use std::collections::HashMap;

use crate::fifo::{Fifo, FIFO_CAPACITY};
use crate::task::{encode_ops, lemma_read_task_progress, read_task, RawTask, Task};
use crate::operation::{read_op, OperationIterator};
use crate::operation::Operation;

verus! {

broadcast use vstd::std_specs::hash::group_hash_axioms;

/// Number of moves the event loop makes, per round, from the task buffer to
/// the work queue, and number of sleeping workers it wakes per round.
pub const MAX_ATTEMPTS: usize = 5;

/// The data lanes: each lane index maps to the items stored in that lane.
pub open spec fn lanes_view(lanes: Map<u32, Vec<u64>>) -> Map<u32, Seq<u64>> {
    lanes.map_values(|v: Vec<u64>| v@)
}

/// Fetching `items` items from lane `idx`: when the lane holds at least that
/// many, the first `items` of them are handed out and the whole lane is
/// removed; otherwise nothing is handed out and the lanes stay as they are.
pub open spec fn fetch_spec(lanes: Map<u32, Seq<u64>>, idx: u32, items: int) -> (
    Option<Seq<u64>>,
    Map<u32, Seq<u64>>,
) {
    if lanes.contains_key(idx) && lanes[idx].len() >= items {
        (Some(lanes[idx].take(items)), lanes.remove(idx))
    } else {
        (None, lanes)
    }
}

/// Storing `value` to lane `idx` appends it to the lane, creating the lane
/// when it does not exist.
pub open spec fn push_lane_spec(lanes: Map<u32, Seq<u64>>, idx: u32, value: u64) -> Map<
    u32,
    Seq<u64>,
> {
    let before = if lanes.contains_key(idx) {
        lanes[idx]
    } else {
        Seq::empty()
    };
    lanes.insert(idx, before.push(value))
}

/// What is stored to a lane comes back, after what the lane held, when the
/// whole lane is fetched; fetching removes the lane.
pub proof fn lemma_fetch_after_push_lane(lanes: Map<u32, Seq<u64>>, idx: u32, value: u64)
    ensures
        ({
            let before = if lanes.contains_key(idx) {
                lanes[idx]
            } else {
                Seq::<u64>::empty()
            };
            fetch_spec(push_lane_spec(lanes, idx, value), idx, before.len() + 1 as int) == (
                Some(before.push(value)),
                lanes.remove(idx),
            )
        }),
{
    let before = if lanes.contains_key(idx) {
        lanes[idx]
    } else {
        Seq::<u64>::empty()
    };
    assert(before.push(value).take(before.len() + 1 as int) =~= before.push(value));
    assert(push_lane_spec(lanes, idx, value).remove(idx) =~= lanes.remove(idx));
}

/// A fetch that asks for more items than the lane holds hands out nothing
/// and leaves every lane as it was.
pub proof fn lemma_short_fetch_keeps_lanes(lanes: Map<u32, Seq<u64>>, idx: u32, items: int)
    requires
        !lanes.contains_key(idx) || lanes[idx].len() < items,
    ensures
        fetch_spec(lanes, idx, items) == (None::<Seq<u64>>, lanes),
{
}

/// Number of buffered tasks that one round of the event loop moves into the
/// work queue.
pub open spec fn rescheduled_count(buffered: int, queued: int) -> int {
    let free = FIFO_CAPACITY - queued;
    if buffered <= free && buffered <= MAX_ATTEMPTS {
        buffered
    } else if free <= MAX_ATTEMPTS {
        free
    } else {
        MAX_ATTEMPTS as int
    }
}

/// One round of rescheduling moves as many buffered tasks as it can: the
/// smallest of the number buffered, the free slots of the queue and
/// `MAX_ATTEMPTS`. In particular, a buffer of at most `MAX_ATTEMPTS` tasks
/// that fit in the queue is emptied.
pub proof fn lemma_rescheduled_count_is_least(buffered: int, queued: int)
    requires
        0 <= buffered,
        0 <= queued <= FIFO_CAPACITY,
    ensures
        ({
            let k = rescheduled_count(buffered, queued);
            &&& 0 <= k
            &&& k <= buffered
            &&& k <= FIFO_CAPACITY - queued
            &&& k <= MAX_ATTEMPTS
            &&& (k == buffered || k == FIFO_CAPACITY - queued || k == MAX_ATTEMPTS)
        }),
        buffered <= MAX_ATTEMPTS && buffered <= FIFO_CAPACITY - queued ==> rescheduled_count(
            buffered,
            queued,
        ) == buffered,
{
}

/// The state that the event loop owns: the work queue, the workers that went
/// to sleep, the tasks that did not fit in the queue, and the data lanes.
pub struct Scheduler {
    pub fifo: Fifo<RawTask>,
    pub sleeping_worker: Vec<usize>,
    pub buffered_tasks: Vec<RawTask>,
    pub lanes: HashMap<u32, Vec<u64>>,
}

impl Scheduler {
    /// The scheduler is consistent when its work queue is.
    pub open spec fn wf(&self) -> bool {
        self.fifo.wf()
    }

    /// The data lanes, each as the sequence of its items.
    pub open spec fn lanes_spec(&self) -> Map<u32, Seq<u64>> {
        lanes_view(self.lanes@)
    }

    /// A scheduler with an empty work queue, no sleeping worker, no buffered
    /// task, and the given lanes.
    pub fn new(lanes: HashMap<u32, Vec<u64>>) -> (s: Scheduler)
        ensures
            s.wf(),
            s.fifo@ == Seq::<RawTask>::empty(),
            s.sleeping_worker@ == Seq::<usize>::empty(),
            s.buffered_tasks@ == Seq::<RawTask>::empty(),
            s.lanes@ == lanes@,
    {
        Scheduler {
            fifo: Fifo::new(),
            sleeping_worker: Vec::new(),
            buffered_tasks: Vec::new(),
            lanes,
        }
    }

    /// Queues a task; when the work queue is full the task goes to the
    /// buffer instead, to be rescheduled later.
    pub fn push_task(&mut self, task: RawTask)
        requires
            old(self).wf(),
        ensures
            final(self).wf(),
            final(self).sleeping_worker@ == old(self).sleeping_worker@,
            final(self).lanes@ == old(self).lanes@,
            if old(self).fifo@.len() == FIFO_CAPACITY {
                &&& final(self).fifo@ == old(self).fifo@
                &&& final(self).buffered_tasks@ == old(self).buffered_tasks@.push(task)
            } else {
                &&& final(self).fifo@ == old(self).fifo@.push(task)
                &&& final(self).buffered_tasks@ == old(self).buffered_tasks@
            },
    {
        if let Some(task) = self.fifo.push(task) {
            self.buffered_tasks.push(task);
        }
    }

    /// Takes the oldest task out of the work queue.
    pub fn pop_task(&mut self) -> (t: Option<RawTask>)
        requires
            old(self).wf(),
        ensures
            final(self).wf(),
            (final(self).fifo@, t) == crate::fifo::pop_model(old(self).fifo@),
            final(self).sleeping_worker@ == old(self).sleeping_worker@,
            final(self).buffered_tasks@ == old(self).buffered_tasks@,
            final(self).lanes@ == old(self).lanes@,
    {
        self.fifo.pop()
    }

    /// Appends `value` to lane `idx`, creating the lane if needed.
    pub fn push_lane(&mut self, idx: u32, value: u64)
        requires
            old(self).wf(),
        ensures
            final(self).wf(),
            final(self).lanes_spec() == push_lane_spec(old(self).lanes_spec(), idx, value),
            final(self).fifo@ == old(self).fifo@,
            final(self).sleeping_worker@ == old(self).sleeping_worker@,
            final(self).buffered_tasks@ == old(self).buffered_tasks@,
    {
        let ghost old_lanes = self.lanes@;
        if !self.lanes.contains_key(&idx) {
            let mut v: Vec<u64> = Vec::new();
            v.push(value);
            self.lanes.insert(idx, v);
            proof {
                assert(v@ =~= Seq::<u64>::empty().push(value));
            }
        } else {
            let removed = self.lanes.remove(&idx);
            match removed {
                Some(mut v) => {
                    v.push(value);
                    self.lanes.insert(idx, v);
                },
                None => {},
            }
        }
        proof {
            assert(lanes_view(self.lanes@) =~= push_lane_spec(lanes_view(old_lanes), idx, value));
        }
    }

    /// Fetches `items` items from lane `idx`: when the lane holds at least
    /// that many, the first `items` are returned and the lane is removed;
    /// otherwise `None` is returned and the lanes stay as they are.
    pub fn fetch_from_lane(&mut self, idx: u32, items: usize) -> (r: Option<Vec<u64>>)
        requires
            old(self).wf(),
        ensures
            final(self).wf(),
            (match r {
                Some(v) => Some(v@),
                None => None,
            }, final(self).lanes_spec()) == fetch_spec(old(self).lanes_spec(), idx, items as int),
            final(self).fifo@ == old(self).fifo@,
            final(self).sleeping_worker@ == old(self).sleeping_worker@,
            final(self).buffered_tasks@ == old(self).buffered_tasks@,
    {
        let ghost old_lanes = self.lanes@;
        let data = match self.lanes.get(&idx) {
            None => None,
            Some(v) => {
                if v.len() >= items {
                    let mut r: Vec<u64> = Vec::with_capacity(items);
                    let mut i: usize = 0;
                    while i < items
                        invariant
                            i <= items <= v@.len(),
                            r@ == v@.take(i as int),
                        decreases items - i,
                    {
                        r.push(v[i]);
                        i = i + 1;
                        assert(r@ =~= v@.take(i as int));
                    }
                    Some(r)
                } else {
                    None
                }
            },
        };
        if data.is_some() {
            self.lanes.remove(&idx);
            proof {
                assert(lanes_view(self.lanes@) =~= lanes_view(old_lanes).remove(idx));
            }
        }
        data
    }

    /// One round of rescheduling: moves up to `MAX_ATTEMPTS` tasks, the most
    /// recently buffered first, from the buffer into the work queue, stopping
    /// when the buffer is empty or the queue is full.
    pub fn reschedule_buffered_tasks(&mut self)
        requires
            old(self).wf(),
        ensures
            final(self).wf(),
            ({
                let b = old(self).buffered_tasks@;
                let k = rescheduled_count(b.len() as int, old(self).fifo@.len() as int);
                &&& final(self).buffered_tasks@ == b.take(b.len() - k)
                &&& final(self).fifo@ == old(self).fifo@ + b.skip(b.len() - k).reverse()
            }),
            final(self).sleeping_worker@ == old(self).sleeping_worker@,
            final(self).lanes@ == old(self).lanes@,
    {
        let ghost b = self.buffered_tasks@;
        let ghost q = self.fifo@;
        let ghost k = rescheduled_count(b.len() as int, q.len() as int);
        proof {
            self.fifo.lemma_len_bound();
        }
        let mut n: usize = 0;
        while n < MAX_ATTEMPTS
            invariant
                self.wf(),
                n <= MAX_ATTEMPTS,
                n <= b.len(),
                q.len() + n <= FIFO_CAPACITY,
                n <= k,
                self.buffered_tasks@ == b.take(b.len() - n),
                self.fifo@ == q + b.skip(b.len() - n).reverse(),
                self.sleeping_worker@ == old(self).sleeping_worker@,
                self.lanes@ == old(self).lanes@,
                k == rescheduled_count(b.len() as int, q.len() as int),
                q.len() <= FIFO_CAPACITY,
            ensures
                self.wf(),
                self.buffered_tasks@ == b.take(b.len() - k),
                self.fifo@ == q + b.skip(b.len() - k).reverse(),
                self.sleeping_worker@ == old(self).sleeping_worker@,
                self.lanes@ == old(self).lanes@,
            decreases MAX_ATTEMPTS - n,
        {
            if self.buffered_tasks.len() == 0 || self.fifo.is_full() {
                break ;
            }
            let popped = self.buffered_tasks.pop();
            match popped {
                Some(task) => {
                    let ghost before = self.fifo@;
                    self.push_task(task);
                    proof {
                        let m = b.len() - n;
                        assert(b.take(m).drop_last() =~= b.take(m - 1));
                        assert(task == b[m - 1]);
                        assert(b.skip(m - 1).reverse() =~= b.skip(m).reverse().push(b[m - 1]));
                        assert(self.fifo@ =~= q + b.skip(m - 1).reverse());
                    }
                    n = n + 1;
                },
                None => {},
            }
        }
        proof {
            assert(q.len() == old(self).fifo@.len());
        }
    }

    /// One round of waking: when the work queue holds tasks, hands out up to
    /// `MAX_ATTEMPTS` sleeping workers to wake, the most recently asleep
    /// first, and forgets them as sleeping.
    pub fn wake_sleeping_workers(&mut self) -> (woken: Vec<usize>)
        requires
            old(self).wf(),
        ensures
            final(self).wf(),
            ({
                let s = old(self).sleeping_worker@;
                let k = if old(self).fifo@.len() == 0 {
                    0
                } else if s.len() <= MAX_ATTEMPTS {
                    s.len() as int
                } else {
                    MAX_ATTEMPTS as int
                };
                &&& final(self).sleeping_worker@ == s.take(s.len() - k)
                &&& woken@ == s.skip(s.len() - k).reverse()
            }),
            final(self).fifo@ == old(self).fifo@,
            final(self).buffered_tasks@ == old(self).buffered_tasks@,
            final(self).lanes@ == old(self).lanes@,
    {
        let ghost s = self.sleeping_worker@;
        let mut woken: Vec<usize> = Vec::new();
        let mut n: usize = 0;
        while n < MAX_ATTEMPTS
            invariant
                n <= MAX_ATTEMPTS,
                n <= s.len(),
                self.fifo@.len() > 0 || n == 0,
                self.sleeping_worker@ == s.take(s.len() - n),
                woken@ == s.skip(s.len() - n).reverse(),
                self.fifo == old(self).fifo,
                self.buffered_tasks@ == old(self).buffered_tasks@,
                self.lanes@ == old(self).lanes@,
                s == old(self).sleeping_worker@,
            ensures
                self.fifo == old(self).fifo,
                self.buffered_tasks@ == old(self).buffered_tasks@,
                self.lanes@ == old(self).lanes@,
                n <= s.len(),
                self.fifo@.len() > 0 || n == 0,
                self.sleeping_worker@ == s.take(s.len() - n),
                woken@ == s.skip(s.len() - n).reverse(),
                n == MAX_ATTEMPTS || n == s.len() || self.fifo@.len() == 0,
            decreases MAX_ATTEMPTS - n,
        {
            if self.sleeping_worker.len() == 0 || self.fifo.is_empty() {
                break ;
            }
            let popped = self.sleeping_worker.pop();
            match popped {
                Some(w) => {
                    proof {
                        let m = s.len() - n;
                        assert(s.take(m).drop_last() =~= s.take(m - 1));
                        assert(w == s[m - 1]);
                        assert(s.skip(m - 1).reverse() =~= s.skip(m).reverse().push(s[m - 1]));
                    }
                    woken.push(w);
                    n = n + 1;
                },
                None => {},
            }
        }
        woken
    }
}

/// What a worker or the parser reports to the scheduler.
///
/// Results of the floating-point computations (`Store` and `Return`) are held
/// as the bits of their IEEE 754 representation.
#[derive(Debug, Clone)]
pub enum EvaluationVariant {
    NewRawTask(RawTask),
    NotReady(RawTask),
    Store(u32, u64),
    Return(u64),
    Sleep(usize),
}

/// A report to the scheduler: what happened, on which worker thread, when
/// the task started and ended (in nanoseconds since the scheduler started),
/// and the task it concerns.
#[derive(Debug, Clone)]
pub struct Evaluation {
    pub variant: EvaluationVariant,
    pub thread: usize,
    pub start: u64,
    pub end: u64,
    pub task: Option<RawTask>,
}

/// What the event loop does after dispatching an evaluation.
#[derive(Debug)]
pub enum Dispatch {
    /// Nothing more: the evaluation was queued or recorded.
    Continue,
    /// A task stored its result to a lane: its history entry is recorded,
    /// followed by a line break.
    Stored { task: Task, start: u64, end: u64 },
    /// A task returned the final result: its history entry is recorded and
    /// the program is over.
    Finished { task: Task, start: u64, end: u64, result: u64 },
}

/// The operations that the history records for the task of an evaluation:
/// those of the task it carries, or none.
pub open spec fn history_ops(task: Option<RawTask>) -> Seq<Operation> {
    match task {
        Some(t) => read_task(t@, 0).0,
        None => Seq::empty(),
    }
}

impl Evaluation {
    /// A report of `variant` from `thread`, with no recorded time and no task.
    pub fn new(variant: EvaluationVariant, thread: usize) -> (e: Evaluation)
        ensures
            e.variant == variant,
            e.thread == thread,
            e.start == 0,
            e.end == 0,
            e.task is None,
    {
        Evaluation { variant, thread, start: 0, end: 0, task: None }
    }

    /// The report once its task is done: the start and end times and the task.
    pub fn finish(self, start: u64, end: u64, task: RawTask) -> (e: Evaluation)
        ensures
            e.variant == self.variant,
            e.thread == self.thread,
            e.start == start,
            e.end == end,
            e.task == Some(task),
    {
        let mut e = self;
        e.start = start;
        e.end = end;
        e.task = Some(task);
        e
    }

    /// Applies the report to the scheduler: new and not-ready tasks are
    /// queued, stored results go to their lane, sleeping workers are noted,
    /// and a returned result ends the program.
    pub fn dispatch(self, scheduler: &mut Scheduler) -> (d: Dispatch)
        requires
            old(scheduler).wf(),
        ensures
            final(scheduler).wf(),
            match self.variant {
                EvaluationVariant::NewRawTask(t) | EvaluationVariant::NotReady(t) => {
                    &&& d is Continue
                    &&& final(scheduler).sleeping_worker@ == old(scheduler).sleeping_worker@
                    &&& final(scheduler).lanes@ == old(scheduler).lanes@
                    &&& if old(scheduler).fifo@.len() == FIFO_CAPACITY {
                        &&& final(scheduler).fifo@ == old(scheduler).fifo@
                        &&& final(scheduler).buffered_tasks@
                            == old(scheduler).buffered_tasks@.push(t)
                    } else {
                        &&& final(scheduler).fifo@ == old(scheduler).fifo@.push(t)
                        &&& final(scheduler).buffered_tasks@ == old(scheduler).buffered_tasks@
                    }
                },
                EvaluationVariant::Store(idx, value) => {
                    &&& d matches Dispatch::Stored { task, start, end } && task@ == history_ops(
                        self.task,
                    ) && start == self.start && end == self.end
                    &&& final(scheduler).lanes_spec() == push_lane_spec(
                        old(scheduler).lanes_spec(),
                        idx,
                        value,
                    )
                    &&& final(scheduler).fifo@ == old(scheduler).fifo@
                    &&& final(scheduler).sleeping_worker@ == old(scheduler).sleeping_worker@
                    &&& final(scheduler).buffered_tasks@ == old(scheduler).buffered_tasks@
                },
                EvaluationVariant::Sleep(w) => {
                    &&& d is Continue
                    &&& final(scheduler).sleeping_worker@ == old(scheduler).sleeping_worker@.push(w)
                    &&& final(scheduler).fifo@ == old(scheduler).fifo@
                    &&& final(scheduler).buffered_tasks@ == old(scheduler).buffered_tasks@
                    &&& final(scheduler).lanes@ == old(scheduler).lanes@
                },
                EvaluationVariant::Return(result) => {
                    &&& d matches Dispatch::Finished { task, start, end, result: r } && task@
                        == history_ops(self.task) && start == self.start && end == self.end && r
                        == result
                    &&& final(scheduler).fifo@ == old(scheduler).fifo@
                    &&& final(scheduler).sleeping_worker@ == old(scheduler).sleeping_worker@
                    &&& final(scheduler).buffered_tasks@ == old(scheduler).buffered_tasks@
                    &&& final(scheduler).lanes@ == old(scheduler).lanes@
                },
            },
    {
        match self.variant {
            EvaluationVariant::NewRawTask(task) => {
                scheduler.push_task(task);
                Dispatch::Continue
            },
            EvaluationVariant::NotReady(task) => {
                scheduler.push_task(task);
                Dispatch::Continue
            },
            EvaluationVariant::Store(idx, value) => {
                let task = history_task(&self.task);
                scheduler.push_lane(idx, value);
                Dispatch::Stored { task, start: self.start, end: self.end }
            },
            EvaluationVariant::Sleep(w) => {
                scheduler.sleeping_worker.push(w);
                Dispatch::Continue
            },
            EvaluationVariant::Return(result) => {
                let task = history_task(&self.task);
                Dispatch::Finished { task, start: self.start, end: self.end, result }
            },
        }
    }
}

/// The tasks read one after the other from `bytes` at `pos`, until no
/// operation can be read.
pub open spec fn read_tasks(bytes: Seq<u8>, pos: int) -> Seq<Seq<Operation>>
    decreases bytes.len() - pos,
{
    let (ops, next) = read_task(bytes, pos);
    if ops.len() == 0 || next <= pos || pos < 0 || next > bytes.len() {
        Seq::empty()
    } else {
        seq![ops] + read_tasks(bytes, next)
    }
}

impl Scheduler {
    /// Reads every task of a program, in order, each encoded for the work
    /// queue, until no operation is left to read.
    pub fn parser_loop(program: &mut OperationIterator) -> (tasks: Vec<RawTask>)
        requires
            old(program).wf(),
        ensures
            final(program).wf(),
            final(program).bytes() == old(program).bytes(),
            final(program).pos() == old(program).bytes().len(),
            tasks@.len() == read_tasks(old(program).bytes(), old(program).pos()).len(),
            forall|i: int|
                0 <= i < tasks@.len() ==> (#[trigger] tasks@[i])@ == encode_ops(
                    read_tasks(old(program).bytes(), old(program).pos())[i],
                ),
    {
        let ghost b = program.bytes();
        let ghost all = read_tasks(b, program.pos());
        proof {
            program.lemma_wf();
        }
        let mut tasks: Vec<RawTask> = Vec::new();
        loop
            invariant
                program.wf(),
                program.bytes() == b,
                0 <= program.pos() <= b.len(),
                tasks@.len() + read_tasks(b, program.pos()).len() == all.len(),
                forall|i: int|
                    0 <= i < tasks@.len() ==> (#[trigger] tasks@[i])@ == encode_ops(all[i]),
                forall|i: int|
                    0 <= i < read_tasks(b, program.pos()).len() ==> #[trigger] read_tasks(
                        b,
                        program.pos(),
                    )[i] == all[tasks@.len() + i],
            ensures
                program.wf(),
                program.bytes() == b,
                program.pos() == b.len(),
                tasks@.len() == all.len(),
                forall|i: int|
                    0 <= i < tasks@.len() ==> (#[trigger] tasks@[i])@ == encode_ops(all[i]),
            decreases b.len() - program.pos(),
        {
            let ghost p = program.pos();
            proof {
                program.lemma_wf();
                lemma_read_task_progress(b, p);
            }
            match RawTask::from_reader(program) {
                None => {
                    assert(read_tasks(b, p).len() == 0);
                    assert(read_op(b, p).0 is None);
                    break ;
                },
                Some(t) => {
                    let ghost rest = read_tasks(b, p);
                    assert(rest[0] == read_task(b, p).0);
                    tasks.push(t);
                    assert forall|i: int|
                        0 <= i < read_tasks(b, program.pos()).len() implies #[trigger] read_tasks(
                        b,
                        program.pos(),
                    )[i] == all[tasks@.len() + i] by {
                        assert(read_tasks(b, program.pos())[i] == rest[i + 1]);
                    }
                },
            }
        }
        tasks
    }
}

/// The task that the history records for an evaluation.
fn history_task(task: &Option<RawTask>) -> (t: Task)
    ensures
        t@ == history_ops(*task),
{
    match task {
        Some(raw) => raw.to_task(),
        None => Task::default(),
    }
}

} // verus!
