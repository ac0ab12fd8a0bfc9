use vstd::prelude::*;

use crate::operation::{fetch_size_of, is_terminal, Operation};
use crate::scheduler::{fetch_spec, EvaluationVariant, Scheduler};
use crate::task::{encode_ops, read_task, RawTask, Task};

verus! {

/// One operation after the first and before the last of a task, with the
/// lane items it fetched when it is a multiple-argument operation.
///
/// A single-argument operation applies to the running result; a
/// multiple-argument operation folds the items it fetched into a new result.
#[derive(Debug)]
pub enum Step {
    Single(Operation),
    Multiple(Operation, Vec<u64>),
}

impl View for Step {
    type V = (Operation, Option<Seq<u64>>);

    open spec fn view(&self) -> (Operation, Option<Seq<u64>>) {
        match self {
            Step::Single(op) => (*op, None),
            Step::Multiple(op, data) => (*op, Some(data@)),
        }
    }
}

/// The steps as operations with the items they fetched.
pub open spec fn steps_view(steps: Seq<Step>) -> Seq<(Operation, Option<Seq<u64>>)> {
    steps.map_values(|s: Step| s@)
}

/// What running a task against the lanes comes to, before any arithmetic.
#[derive(Debug)]
pub enum Execution {
    /// A lane the task fetches from was not ready: the task, encoded, is to
    /// be queued again.
    NotReady(RawTask),
    /// Every fetch succeeded: the first operation folds `input`, the steps
    /// follow in order, and `last` says what becomes of the result.
    Ready { first: Operation, input: Vec<u64>, steps: Vec<Step>, last: Operation },
}

/// The outcome of running a task, as the mathematical values it holds.
pub enum ExecutionView {
    NotReady(Seq<u8>),
    Ready(Operation, Seq<u64>, Seq<(Operation, Option<Seq<u64>>)>, Operation),
}

impl View for Execution {
    type V = ExecutionView;

    open spec fn view(&self) -> ExecutionView {
        match self {
            Execution::NotReady(t) => ExecutionView::NotReady(t@),
            Execution::Ready { first, input, steps, last } => ExecutionView::Ready(
                *first,
                input@,
                steps_view(steps@),
                *last,
            ),
        }
    }
}

/// The steps of the operations from index `i` up to, not including, the last
/// one, fetching in order from the lanes; `None` as soon as a fetch finds
/// its lane not ready. Gives the lanes after the fetches made.
pub open spec fn plan_steps(ops: Seq<Operation>, i: int, lanes: Map<u32, Seq<u64>>) -> (
    Option<Seq<(Operation, Option<Seq<u64>>)>>,
    Map<u32, Seq<u64>>,
)
    decreases ops.len() - i,
{
    if i < 0 || i >= ops.len() - 1 {
        (Some(Seq::empty()), lanes)
    } else {
        let (lane, size) = fetch_size_of(ops[i]);
        if size == 0 {
            let (rest, m) = plan_steps(ops, i + 1, lanes);
            (
                match rest {
                    Some(r) => Some(seq![(ops[i], None::<Seq<u64>>)] + r),
                    None => None,
                },
                m,
            )
        } else {
            let (d, m1) = fetch_spec(lanes, lane, size as int);
            match d {
                None => (None, m1),
                Some(data) => {
                    let (rest, m2) = plan_steps(ops, i + 1, m1);
                    (
                        match rest {
                            Some(r) => Some(seq![(ops[i], Some(data))] + r),
                            None => None,
                        },
                        m2,
                    )
                },
            }
        }
    }
}

/// The steps planned from index `i` follow the operations in order: when
/// every fetch succeeds there is one step per operation from `i` up to, not
/// including, the last one, each carrying its operation, and fetched items
/// exactly when the operation fetches, as many as it asks for; otherwise some
/// operation in that range fetches.
pub proof fn lemma_plan_steps_follow_ops(ops: Seq<Operation>, i: int, lanes: Map<u32, Seq<u64>>)
    requires
        1 <= i <= ops.len() - 1,
    ensures
        match plan_steps(ops, i, lanes).0 {
            Some(st) => {
                &&& st.len() == ops.len() - 1 - i
                &&& forall|j: int|
                    0 <= j < st.len() ==> {
                        &&& (#[trigger] st[j]).0 == ops[i + j]
                        &&& (st[j].1 is Some <==> fetch_size_of(ops[i + j]).1 != 0)
                        &&& (st[j].1 is Some ==> st[j].1->0.len() == fetch_size_of(ops[i + j]).1)
                    }
            },
            None => exists|j: int| i <= j < ops.len() - 1 && fetch_size_of(#[trigger] ops[j]).1 != 0,
        },
    decreases ops.len() - i,
{
    if i < ops.len() - 1 {
        let (lane, size) = fetch_size_of(ops[i]);
        if size == 0 {
            lemma_plan_steps_follow_ops(ops, i + 1, lanes);
            match plan_steps(ops, i + 1, lanes).0 {
                Some(r) => {
                    let st = seq![(ops[i], None::<Seq<u64>>)] + r;
                    assert forall|j: int| 0 <= j < st.len() implies {
                        &&& (#[trigger] st[j]).0 == ops[i + j]
                        &&& (st[j].1 is Some <==> fetch_size_of(ops[i + j]).1 != 0)
                        &&& (st[j].1 is Some ==> st[j].1->0.len() == fetch_size_of(
                            ops[i + j],
                        ).1)
                    } by {
                        if j > 0 {
                            assert(st[j] == r[j - 1]);
                            assert(i + 1 + (j - 1) == i + j);
                        }
                    }
                },
                None => {},
            }
        } else {
            let (d, m1) = fetch_spec(lanes, lane, size as int);
            match d {
                None => {
                    assert(fetch_size_of(ops[i]).1 != 0);
                },
                Some(data) => {
                    lemma_plan_steps_follow_ops(ops, i + 1, m1);
                    match plan_steps(ops, i + 1, m1).0 {
                        Some(r) => {
                            let st = seq![(ops[i], Some(data))] + r;
                            assert forall|j: int| 0 <= j < st.len() implies {
                                &&& (#[trigger] st[j]).0 == ops[i + j]
                                &&& (st[j].1 is Some <==> fetch_size_of(ops[i + j]).1 != 0)
                                &&& (st[j].1 is Some ==> st[j].1->0.len() == fetch_size_of(
                                    ops[i + j],
                                ).1)
                            } by {
                                if j > 0 {
                                    assert(st[j] == r[j - 1]);
                                    assert(i + 1 + (j - 1) == i + j);
                                }
                            }
                        },
                        None => {},
                    }
                },
            }
        }
    }
}

/// A task that runs to the end takes each of its operations in order: the
/// first one with exactly the items it asks for, then one step per
/// operation between the first and the last (with fetched items exactly for
/// those that fetch, as many as they ask for), then the last one; a task that
/// is not ready is handed back as its encoding.
pub proof fn lemma_execution_follows_ops(ops: Seq<Operation>, lanes: Map<u32, Seq<u64>>)
    requires
        is_executable(ops),
    ensures
        match execution_spec(ops, lanes).0 {
            ExecutionView::Ready(first, input, steps, last) => {
                &&& first == ops[0]
                &&& input.len() == fetch_size_of(ops[0]).1
                &&& last == ops.last()
                &&& steps.len() == ops.len() - 2
                &&& forall|j: int|
                    0 <= j < steps.len() ==> {
                        &&& (#[trigger] steps[j]).0 == ops[j + 1]
                        &&& (steps[j].1 is Some <==> fetch_size_of(ops[j + 1]).1 != 0)
                        &&& (steps[j].1 is Some ==> steps[j].1->0.len() == fetch_size_of(
                            ops[j + 1],
                        ).1)
                    }
            },
            ExecutionView::NotReady(b) => b == encode_ops(ops),
        },
{
    let (lane, size) = fetch_size_of(ops[0]);
    let (d, m1) = fetch_spec(lanes, lane, size as int);
    if let Some(data) = d {
        if ops.len() >= 2 {
            lemma_plan_steps_follow_ops(ops, 1, m1);
        } else {
            assert(fetch_size_of(ops.last()).1 == 0);
        }
    }
}

/// A task can run when its first operation fetches at least one item from a
/// lane (so it takes several arguments) and its last operation returns or
/// stores the result; on any other task running panics.
pub open spec fn is_executable(ops: Seq<Operation>) -> bool {
    &&& ops.len() > 0
    &&& fetch_size_of(ops[0]).1 != 0
    &&& is_terminal(ops.last())
}

/// Running a task against the lanes: the first operation and then each
/// multiple-argument operation fetch from their lane in turn, and the task is
/// not ready as soon as one fetch fails (the lanes fetched before stay
/// consumed). Gives the outcome and the lanes after it.
pub open spec fn execution_spec(ops: Seq<Operation>, lanes: Map<u32, Seq<u64>>) -> (
    ExecutionView,
    Map<u32, Seq<u64>>,
) {
    let (lane, size) = fetch_size_of(ops[0]);
    let (d, m1) = fetch_spec(lanes, lane, size as int);
    match d {
        None => (ExecutionView::NotReady(encode_ops(ops)), m1),
        Some(data) => {
            let (mid, m2) = plan_steps(ops, 1, m1);
            match mid {
                None => (ExecutionView::NotReady(encode_ops(ops)), m2),
                Some(steps) => (ExecutionView::Ready(ops[0], data, steps, ops.last()), m2),
            }
        },
    }
}

impl Task {
    /// Whether the task can run (see `is_executable`).
    pub fn is_executable(&self) -> (b: bool)
        ensures
            b == is_executable(self@),
    {
        let ops = self.ops();
        if ops.len() == 0 {
            return false;
        }
        ops[0].fetch_size().1 != 0 && ops[ops.len() - 1].is_terminal()
    }

    /// Runs the task against the lanes of the scheduler, fetching the items
    /// its operations need (see `execution_spec`).
    pub fn execute(self, scheduler: &mut Scheduler) -> (e: Execution)
        requires
            old(scheduler).wf(),
            is_executable(self@),
        ensures
            final(scheduler).wf(),
            (e@, final(scheduler).lanes_spec()) == execution_spec(
                self@,
                old(scheduler).lanes_spec(),
            ),
            final(scheduler).fifo@ == old(scheduler).fifo@,
            final(scheduler).sleeping_worker@ == old(scheduler).sleeping_worker@,
            final(scheduler).buffered_tasks@ == old(scheduler).buffered_tasks@,
    {
        let ghost ops = self@;
        let n = self.ops().len();
        let first = self.ops()[0];
        let (lane, size) = first.fetch_size();
        let input = match scheduler.fetch_from_lane(lane, size as usize) {
            Some(data) => data,
            None => {
                return Execution::NotReady(RawTask::from_task(self));
            },
        };
        let ghost lanes1 = scheduler.lanes_spec();
        let mut steps: Vec<Step> = Vec::new();
        let mut i: usize = 1;
        proof {
            let (mid, m) = plan_steps(ops, 1, lanes1);
            assert(steps_view(steps@) =~= Seq::<(Operation, Option<Seq<u64>>)>::empty());
            match mid {
                Some(r) => {
                    assert(steps_view(steps@) + r =~= r);
                },
                None => {},
            }
        }
        while i < n - 1
            invariant
                self@ == ops,
                n == ops.len(),
                1 <= i <= n,
                scheduler.wf(),
                (lane, size) == fetch_size_of(ops[0]),
                fetch_spec(old(scheduler).lanes_spec(), lane, size as int) == (
                    Some(input@),
                    lanes1,
                ),
                scheduler.fifo@ == old(scheduler).fifo@,
                scheduler.sleeping_worker@ == old(scheduler).sleeping_worker@,
                scheduler.buffered_tasks@ == old(scheduler).buffered_tasks@,
                ({
                    let (all, m_all) = plan_steps(ops, 1, lanes1);
                    let (rest, m_rest) = plan_steps(ops, i as int, scheduler.lanes_spec());
                    &&& m_all == m_rest
                    &&& all == match rest {
                        Some(r) => Some(steps_view(steps@) + r),
                        None => None::<Seq<(Operation, Option<Seq<u64>>)>>,
                    }
                }),
            decreases n - i,
        {
            let op = self.ops()[i];
            let (l, s) = op.fetch_size();
            let ghost before = steps@;
            if s == 0 {
                steps.push(Step::Single(op));
                proof {
                    assert(steps_view(steps@) =~= steps_view(before).push((op, None)));
                    let (rest, _m) = plan_steps(ops, i + 1, scheduler.lanes_spec());
                    match rest {
                        Some(r) => {
                            assert(steps_view(before) + (seq![(op, None::<Seq<u64>>)] + r)
                                =~= steps_view(steps@) + r);
                        },
                        None => {},
                    }
                }
            } else {
                match scheduler.fetch_from_lane(l, s as usize) {
                    Some(data) => {
                        let ghost dv = data@;
                        steps.push(Step::Multiple(op, data));
                        proof {
                            assert(steps_view(steps@) =~= steps_view(before).push((op, Some(dv))));
                            let (rest, _m) = plan_steps(ops, i + 1, scheduler.lanes_spec());
                            match rest {
                                Some(r) => {
                                    assert(steps_view(before) + (seq![(op, Some(dv))] + r)
                                        =~= steps_view(steps@) + r);
                                },
                                None => {},
                            }
                        }
                    },
                    None => {
                        return Execution::NotReady(RawTask::from_task(self));
                    },
                }
            }
            i = i + 1;
        }
        proof {
            let (rest, _m) = plan_steps(ops, i as int, scheduler.lanes_spec());
            assert(rest == Some(Seq::<(Operation, Option<Seq<u64>>)>::empty()));
            assert(steps_view(steps@) + Seq::<(Operation, Option<Seq<u64>>)>::empty()
                =~= steps_view(steps@));
        }
        let last = self.ops()[n - 1];
        Execution::Ready { first, input, steps, last }
    }
}

/// The report of a task that ran to its last operation with result `result`
/// (the bits of a double): `Return` returns the result, `Store(l)` stores it
/// to lane `l`.
pub fn finished_variant(last: Operation, result: u64) -> (v: EvaluationVariant)
    requires
        is_terminal(last),
    ensures
        last is Return ==> (v matches EvaluationVariant::Return(r) && r == result),
        last is Store ==> (v matches EvaluationVariant::Store(l, r) && l == last->Store_0 && r
            == result),
{
    match last {
        Operation::Store(l) => EvaluationVariant::Store(l, result),
        _ => EvaluationVariant::Return(result),
    }
}

impl RawTask {
    /// Decodes the task and runs it against the lanes of the scheduler (see
    /// `Task::execute`).
    pub fn execute(self, scheduler: &mut Scheduler) -> (e: Execution)
        requires
            old(scheduler).wf(),
            is_executable(read_task(self@, 0).0),
        ensures
            final(scheduler).wf(),
            (e@, final(scheduler).lanes_spec()) == execution_spec(
                read_task(self@, 0).0,
                old(scheduler).lanes_spec(),
            ),
            final(scheduler).fifo@ == old(scheduler).fifo@,
            final(scheduler).sleeping_worker@ == old(scheduler).sleeping_worker@,
            final(scheduler).buffered_tasks@ == old(scheduler).buffered_tasks@,
    {
        self.to_task().execute(scheduler)
    }
}

} // verus!
