use vstd::prelude::*;

use crate::lanes::{
    encode_lanes, lanes_map, lanes_seq, lemma_read_encoded_lanes, prelude_at, PreludeError,
};
use crate::operation::{fetch_size_of, is_multiple, is_terminal, read_op, Operation};
use crate::scheduler::{read_tasks, Scheduler};
use crate::task::{
    encode_ops, is_single_task, lemma_encode_ops_len, lemma_read_encoded_task, Task,
};

verus! {

/// Bits of the IEEE 754 double `2.0`.
pub const F64_TWO: u64 = 0x4000_0000_0000_0000;

/// Bits of the IEEE 754 double `3.0`.
pub const F64_THREE: u64 = 0x4008_0000_0000_0000;

/// Bits of the IEEE 754 double `5.0`.
pub const F64_FIVE: u64 = 0x4014_0000_0000_0000;

/// Number of multiple-argument operations the generator picks from.
pub const PARALLEL_KINDS: usize = 11;

/// Number of single-argument operations without a parameter the generator
/// picks from.
pub const SERIAL_KINDS: usize = 31;

/// Draws a value from `low..high` with `rand::Rng::gen_range` on the
/// thread-local generator `rand::thread_rng()`; `gen_range` panics unless
/// `low < high`, and otherwise returns a value in `[low, high)`.
#[verifier::external_body]
fn gen_range(low: usize, high: usize) -> (r: usize)
    requires
        low < high,
    ensures
        low <= r < high,
{
    rand::Rng::gen_range(&mut rand::thread_rng(), low, high)
}

/// Whether a flip comes out true for the value `draw`: it does when the draw
/// falls below `a`.
pub open spec fn flip_spec(draw: int, a: int) -> bool {
    draw < a
}

/// The outcome of a flip for a value drawn from `0..a + b`: whether the draw
/// falls below `a`.
pub fn flip_outcome(draw: usize, a: usize) -> (r: bool)
    ensures
        r == flip_spec(draw as int, a as int),
{
    draw < a
}

/// True with odds `a` against `b`: draws from `0..a + b` and tells whether
/// the draw is below `a`. Never true when `a` is zero, never false when `b`
/// is zero.
pub fn flip_frequency(a: usize, b: usize) -> (r: bool)
    requires
        0 < a + b <= usize::MAX,
    ensures
        exists|draw: int| 0 <= draw < a + b && r == #[trigger] flip_spec(draw, a as int),
        r ==> a > 0,
        !r ==> b > 0,
{
    let draw = gen_range(0, a + b);
    let r = flip_outcome(draw, a);
    assert(0 <= draw as int && (draw as int) < a + b && r == flip_spec(draw as int, a as int));
    r
}

/// The single-argument operations, which apply to the running result.
pub open spec fn is_serial(op: Operation) -> bool {
    &&& !is_multiple(op)
    &&& !is_terminal(op)
    &&& !(op is Undefined)
}

/// The shape of a generated task: a multiple-argument operation, then
/// single-argument operations, then an operation that returns or stores the
/// result.
pub open spec fn is_generated_task(t: Seq<Operation>) -> bool {
    &&& t.len() >= 2
    &&& is_multiple(t[0])
    &&& forall|i: int| 1 <= i < t.len() - 1 ==> is_serial(#[trigger] t[i])
    &&& is_terminal(t.last())
}

/// A generated program: the lane section for `lanes`, then the encoded
/// `tasks`, each of the generated shape, where only the last task may end
/// with `Return`; there are tasks exactly when there are lanes.
pub open spec fn is_generated_program(
    bytes: Seq<u8>,
    lanes: Seq<(u32, Seq<u64>)>,
    tasks: Seq<Seq<Operation>>,
) -> bool {
    &&& bytes == encode_lanes(lanes) + encode_tasks(tasks)
    &&& forall|i: int| 0 <= i < tasks.len() ==> is_generated_task(#[trigger] tasks[i])
    &&& forall|i: int| 0 <= i < tasks.len() - 1 ==> (#[trigger] tasks[i]).last() is Store
    &&& (tasks.len() > 0 <==> lanes.len() > 0)
}

/// The encodings of the tasks, one after the other.
pub open spec fn encode_tasks(tasks: Seq<Seq<Operation>>) -> Seq<u8> {
    tasks.map_values(|t: Seq<Operation>| encode_ops(t)).flatten()
}

proof fn lemma_encode_tasks_push(tasks: Seq<Seq<Operation>>, t: Seq<Operation>)
    ensures
        encode_tasks(tasks.push(t)) == encode_tasks(tasks) + encode_ops(t),
{
    let f = |t: Seq<Operation>| encode_ops(t);
    assert(tasks.push(t).map_values(f) =~= tasks.map_values(f).push(f(t)));
    tasks.map_values(f).lemma_flatten_push(f(t));
}

/// A generated task reads back as a single task.
pub proof fn lemma_generated_task_is_single(t: Seq<Operation>)
    requires
        is_generated_task(t),
    ensures
        is_single_task(t),
{
    assert forall|i: int| 0 <= i < t.len() - 1 implies !is_terminal(#[trigger] t[i]) by {
        if i == 0 {
            assert(is_multiple(t[0]));
        } else {
            assert(is_serial(t[i]));
        }
    }
}

proof fn lemma_read_encoded_tasks(b: Seq<u8>, pos: int, tasks: Seq<Seq<Operation>>)
    requires
        0 <= pos <= b.len(),
        b.subrange(pos, b.len() as int) == encode_tasks(tasks),
        forall|i: int|
            0 <= i < tasks.len() ==> is_single_task(#[trigger] tasks[i]) && is_terminal(
                tasks[i].last(),
            ),
    ensures
        read_tasks(b, pos) == tasks,
    decreases tasks.len(),
{
    let f = |t: Seq<Operation>| encode_ops(t);
    if tasks.len() == 0 {
        assert(tasks.map_values(f) =~= Seq::<Seq<u8>>::empty());
        assert(b.subrange(pos, b.len() as int).len() == 0);
        assert(read_op(b, pos).0 is None);
    } else {
        let t0 = tasks[0];
        let rest = tasks.drop_first();
        assert(tasks.map_values(f).drop_first() =~= rest.map_values(f));
        assert(encode_tasks(tasks) == encode_ops(t0) + encode_tasks(rest));
        let n = encode_ops(t0).len() as int;
        lemma_encode_ops_len(t0);
        assert(b.subrange(pos, pos + n) =~= encode_ops(t0)) by {
            assert forall|i: int| 0 <= i < n implies #[trigger] b.subrange(pos, pos + n)[i]
                == encode_ops(t0)[i] by {
                assert(b.subrange(pos, b.len() as int)[i] == encode_tasks(tasks)[i]);
            }
        }
        lemma_read_encoded_task(b, pos, t0);
        assert(b.subrange(pos + n, b.len() as int) =~= encode_tasks(rest)) by {
            assert forall|i: int| 0 <= i < b.len() - pos - n implies #[trigger] b.subrange(
                pos + n,
                b.len() as int,
            )[i] == encode_tasks(rest)[i] by {
                assert(b.subrange(pos, b.len() as int)[i + n] == encode_tasks(tasks)[i + n]);
            }
        }
        assert forall|i: int| 0 <= i < rest.len() implies is_single_task(#[trigger] rest[i])
            && is_terminal(rest[i].last()) by {
            assert(rest[i] == tasks[i + 1]);
        }
        lemma_read_encoded_tasks(b, pos + n, rest);
        assert(seq![t0] + rest =~= tasks);
    }
}

/// Reading the encodings of tasks, one after the other, gives back every
/// task in order, when each task reads back as a single task and ends by
/// returning or storing its result.
pub proof fn lemma_tasks_roundtrip(tasks: Seq<Seq<Operation>>)
    requires
        forall|i: int|
            0 <= i < tasks.len() ==> is_single_task(#[trigger] tasks[i]) && is_terminal(
                tasks[i].last(),
            ),
    ensures
        read_tasks(encode_tasks(tasks), 0) == tasks,
{
    let b = encode_tasks(tasks);
    assert(b.subrange(0, b.len() as int) =~= b);
    lemma_read_encoded_tasks(b, 0, tasks);
}

/// What the generator writes reads back: the lane section gives the lanes
/// and ends where the tasks begin, and the tasks read from there are the
/// generated tasks, provided that every lane has at least one item and fewer
/// than 2^32 of them.
pub proof fn lemma_generated_program_reads_back(
    bytes: Seq<u8>,
    lanes: Seq<(u32, Seq<u64>)>,
    tasks: Seq<Seq<Operation>>,
)
    requires
        is_generated_program(bytes, lanes, tasks),
        forall|i: int| 0 <= i < lanes.len() ==> 0 < (#[trigger] lanes[i]).1.len() <= u32::MAX,
    ensures
        prelude_at(bytes, 0) == Ok::<(Map<u32, Seq<u64>>, int), PreludeError>(
            (lanes_map(lanes), encode_lanes(lanes).len() as int),
        ),
        read_tasks(bytes, encode_lanes(lanes).len() as int) == tasks,
{
    let e = encode_lanes(lanes);
    let n = e.len() as int;
    assert(bytes.subrange(0, n) =~= e);
    lemma_read_encoded_lanes(bytes, 0, lanes);
    assert(bytes.subrange(n, bytes.len() as int) =~= encode_tasks(tasks));
    assert forall|i: int| 0 <= i < tasks.len() implies is_single_task(#[trigger] tasks[i])
        && is_terminal(tasks[i].last()) by {
        lemma_generated_task_is_single(tasks[i]);
    }
    lemma_read_encoded_tasks(bytes, n, tasks);
}

/// The single-argument operation without a parameter of each kind, in code
/// order; `Trunc` for the last kind.
pub open spec fn serial_kind(kind: int) -> Operation {
    if kind == 0 {
        Operation::Abs
    } else if kind == 1 {
        Operation::Acos
    } else if kind == 2 {
        Operation::Acosh
    } else if kind == 3 {
        Operation::Asin
    } else if kind == 4 {
        Operation::Asinh
    } else if kind == 5 {
        Operation::Atan
    } else if kind == 6 {
        Operation::Atanh
    } else if kind == 7 {
        Operation::Cbrt
    } else if kind == 8 {
        Operation::Ceil
    } else if kind == 9 {
        Operation::Cos
    } else if kind == 10 {
        Operation::Cosh
    } else if kind == 11 {
        Operation::Exp
    } else if kind == 12 {
        Operation::Exp2
    } else if kind == 13 {
        Operation::ExpM1
    } else if kind == 14 {
        Operation::Floor
    } else if kind == 15 {
        Operation::Fract
    } else if kind == 16 {
        Operation::Ln
    } else if kind == 17 {
        Operation::Ln1p
    } else if kind == 18 {
        Operation::Log10
    } else if kind == 19 {
        Operation::Log2
    } else if kind == 20 {
        Operation::Neg
    } else if kind == 21 {
        Operation::Recip
    } else if kind == 22 {
        Operation::Round
    } else if kind == 23 {
        Operation::Signum
    } else if kind == 24 {
        Operation::Sin
    } else if kind == 25 {
        Operation::Sinh
    } else if kind == 26 {
        Operation::Sqrt
    } else if kind == 27 {
        Operation::Tan
    } else if kind == 28 {
        Operation::Tanh
    } else if kind == 29 {
        Operation::ToRadians
    } else {
        Operation::Trunc
    }
}

/// The multiple-argument operation of each kind, fetching `size` items from
/// `lane`; `Sub` for the last kind.
pub open spec fn parallel_kind(kind: int, lane: u32, size: u32) -> Operation {
    if kind == 0 {
        Operation::Add(lane, size)
    } else if kind == 1 {
        Operation::Atan2(lane, size)
    } else if kind == 2 {
        Operation::Div(lane, size)
    } else if kind == 3 {
        Operation::DivEuclid(lane, size)
    } else if kind == 4 {
        Operation::Hypot(lane, size)
    } else if kind == 5 {
        Operation::Max(lane, size)
    } else if kind == 6 {
        Operation::Min(lane, size)
    } else if kind == 7 {
        Operation::Mul(lane, size)
    } else if kind == 8 {
        Operation::Rem(lane, size)
    } else if kind == 9 {
        Operation::RemEuclid(lane, size)
    } else {
        Operation::Sub(lane, size)
    }
}

/// The operations of a task before its last one, given the kind drawn for
/// its first operation and the kinds drawn for the single-argument
/// operations that follow it.
pub open spec fn serial_task_ops(lane: u32, size: u32, first: int, kinds: Seq<usize>) -> Seq<
    Operation,
> {
    seq![parallel_kind(first, lane, size)] + kinds.map_values(|k: usize| serial_kind(k as int))
}

impl Operation {
    /// The multiple-argument operation of the given kind, fetching `size`
    /// items from `lane`.
    pub fn parallel_operation(kind: usize, lane: u32, size: u32) -> (op: Operation)
        requires
            kind < PARALLEL_KINDS,
        ensures
            op == parallel_kind(kind as int, lane, size),
            is_multiple(op),
            fetch_size_of(op) == (lane, size),
    {
        match kind {
            0 => Operation::Add(lane, size),
            1 => Operation::Atan2(lane, size),
            2 => Operation::Div(lane, size),
            3 => Operation::DivEuclid(lane, size),
            4 => Operation::Hypot(lane, size),
            5 => Operation::Max(lane, size),
            6 => Operation::Min(lane, size),
            7 => Operation::Mul(lane, size),
            8 => Operation::Rem(lane, size),
            9 => Operation::RemEuclid(lane, size),
            _ => Operation::Sub(lane, size),
        }
    }

    /// The single-argument operation without a parameter of the given kind.
    pub fn serial_operation(kind: usize) -> (op: Operation)
        requires
            kind < SERIAL_KINDS,
        ensures
            op == serial_kind(kind as int),
            is_serial(op),
            fetch_size_of(op) == (0u32, 0u32),
    {
        match kind {
            0 => Operation::Abs,
            1 => Operation::Acos,
            2 => Operation::Acosh,
            3 => Operation::Asin,
            4 => Operation::Asinh,
            5 => Operation::Atan,
            6 => Operation::Atanh,
            7 => Operation::Cbrt,
            8 => Operation::Ceil,
            9 => Operation::Cos,
            10 => Operation::Cosh,
            11 => Operation::Exp,
            12 => Operation::Exp2,
            13 => Operation::ExpM1,
            14 => Operation::Floor,
            15 => Operation::Fract,
            16 => Operation::Ln,
            17 => Operation::Ln1p,
            18 => Operation::Log10,
            19 => Operation::Log2,
            20 => Operation::Neg,
            21 => Operation::Recip,
            22 => Operation::Round,
            23 => Operation::Signum,
            24 => Operation::Sin,
            25 => Operation::Sinh,
            26 => Operation::Sqrt,
            27 => Operation::Tan,
            28 => Operation::Tanh,
            29 => Operation::ToRadians,
            _ => Operation::Trunc,
        }
    }

    /// A multiple-argument operation drawn at random, fetching `size` items
    /// from `lane`.
    pub fn random_parallel(lane: u32, size: u32) -> (op: Operation)
        ensures
            exists|kind: int|
                0 <= kind < PARALLEL_KINDS && op == #[trigger] parallel_kind(kind, lane, size),
            is_multiple(op),
            fetch_size_of(op) == (lane, size),
    {
        let kind = gen_range(0, PARALLEL_KINDS);
        let op = Operation::parallel_operation(kind, lane, size);
        assert(op == parallel_kind(kind as int, lane, size));
        op
    }

    /// A single-argument operation without a parameter drawn at random: one
    /// of the `SERIAL_KINDS` kinds of `serial_kind`.
    pub fn random_serial() -> (op: Operation)
        ensures
            exists|kind: int| 0 <= kind < SERIAL_KINDS && op == #[trigger] serial_kind(kind),
            is_serial(op),
            fetch_size_of(op) == (0u32, 0u32),
    {
        let kind = gen_range(0, SERIAL_KINDS);
        let op = Operation::serial_operation(kind);
        assert(op == serial_kind(kind as int));
        op
    }
}

/// The operations of a task before its last one, from the drawn kinds: the
/// multiple-argument operation of kind `first` fetching `size` items from
/// `lane`, then the single-argument operation of each kind in `kinds`.
pub fn serial_task(lane: u32, size: u32, first: usize, kinds: &Vec<usize>) -> (ops: Vec<
    Operation,
>)
    requires
        first < PARALLEL_KINDS,
        forall|i: int| 0 <= i < kinds@.len() ==> #[trigger] kinds@[i] < SERIAL_KINDS,
    ensures
        ops@ == serial_task_ops(lane, size, first as int, kinds@),
{
    let mut ops: Vec<Operation> = Vec::new();
    ops.push(Operation::parallel_operation(first, lane, size));
    let mut i: usize = 0;
    while i < kinds.len()
        invariant
            i <= kinds@.len(),
            forall|j: int| 0 <= j < kinds@.len() ==> #[trigger] kinds@[j] < SERIAL_KINDS,
            ops@ == serial_task_ops(lane, size, first as int, kinds@.take(i as int)),
        decreases kinds@.len() - i,
    {
        ops.push(Operation::serial_operation(kinds[i]));
        i = i + 1;
        assert(ops@ =~= serial_task_ops(lane, size, first as int, kinds@.take(i as int)));
    }
    assert(kinds@.take(i as int) =~= kinds@);
    ops
}

/// The operations of a generated task before its last one: a random
/// multiple-argument operation fetching `size` items from `lane`, then random
/// single-argument operations, one more each time a flip with odds
/// `freq_serial` against `freq_parallel` comes out true: none when
/// `freq_serial` is zero, and as many as the cap allows when `freq_parallel`
/// is zero. The flips stop after `u64::MAX` of them, a bound that no run
/// reaches: every flip that comes out true grows the output, so memory runs
/// out long before.
pub fn generate_serial(lane: u32, size: u32, freq_serial: usize, freq_parallel: usize) -> (ops:
    Vec<Operation>)
    requires
        0 < freq_serial + freq_parallel <= usize::MAX,
    ensures
        exists|first: int, kinds: Seq<usize>|
            0 <= first < PARALLEL_KINDS && (forall|i: int|
                0 <= i < kinds.len() ==> #[trigger] kinds[i] < SERIAL_KINDS) && ops@
                == #[trigger] serial_task_ops(lane, size, first, kinds),
        freq_serial == 0 ==> ops@.len() == 1,
        freq_parallel == 0 ==> ops@.len() == u64::MAX + 1,
        ops@.len() >= 1,
        is_multiple(ops@[0]),
        fetch_size_of(ops@[0]) == (lane, size),
        forall|i: int| 1 <= i < ops@.len() ==> is_serial(#[trigger] ops@[i]),
{
    let first = gen_range(0, PARALLEL_KINDS);
    let mut kinds: Vec<usize> = Vec::new();
    let mut flips: u64 = 0;
    loop
        invariant
            0 < freq_serial + freq_parallel <= usize::MAX,
            kinds@.len() == flips,
            forall|i: int| 0 <= i < kinds@.len() ==> #[trigger] kinds@[i] < SERIAL_KINDS,
            freq_serial == 0 ==> flips == 0,
        ensures
            forall|i: int| 0 <= i < kinds@.len() ==> #[trigger] kinds@[i] < SERIAL_KINDS,
            freq_serial == 0 ==> kinds@.len() == 0,
            freq_parallel == 0 ==> kinds@.len() == u64::MAX,
        decreases u64::MAX - flips,
    {
        if flips == u64::MAX {
            break ;
        }
        if !flip_frequency(freq_serial, freq_parallel) {
            break ;
        }
        kinds.push(gen_range(0, SERIAL_KINDS));
        flips = flips + 1;
    }
    let ops = serial_task(lane, size, first, &kinds);
    proof {
        let s = serial_task_ops(lane, size, first as int, kinds@);
        assert forall|i: int| 1 <= i < ops@.len() implies is_serial(#[trigger] ops@[i]) by {
            assert(ops@[i] == serial_kind(kinds@[i - 1] as int));
        }
        assert(0 <= first as int && (first as int) < PARALLEL_KINDS && (forall|i: int|
            0 <= i < kinds@.len() ==> #[trigger] kinds@[i] < SERIAL_KINDS) && ops@ == s);
    }
    ops
}

/// Appends the encoding of the task to `bytes`.
pub fn write_task(bytes: &mut Vec<u8>, task: Task)
    ensures
        final(bytes)@ == old(bytes)@ + encode_ops(task@),
{
    let mut encoded = task.to_bytes();
    bytes.append(&mut encoded);
}

/// The lanes of the example program.
pub open spec fn example_lanes() -> Seq<(u32, Seq<u64>)> {
    seq![
        (1u32, seq![F64_TWO, F64_THREE, F64_FIVE]),
        (2u32, seq![F64_TWO, F64_THREE, F64_FIVE]),
        (3u32, seq![F64_TWO, F64_THREE, F64_FIVE]),
        (4u32, seq![F64_TWO]),
    ]
}

/// The operations of the example program.
pub open spec fn example_ops() -> Seq<Operation> {
    seq![
        Operation::Add(1, 3),
        Operation::Exp,
        Operation::Store(5),
        Operation::Add(2, 3),
        Operation::Store(5),
        Operation::Add(3, 3),
        Operation::Pow(F64_TWO),
        Operation::Store(5),
        Operation::Mul(5, 3),
        Operation::Return,
    ]
}

/// The items `2.0, 3.0, 5.0`.
fn lane_of_two_three_five() -> (items: Vec<u64>)
    ensures
        items@ == seq![F64_TWO, F64_THREE, F64_FIVE],
{
    let mut items: Vec<u64> = Vec::new();
    items.push(F64_TWO);
    items.push(F64_THREE);
    items.push(F64_FIVE);
    assert(items@ =~= seq![F64_TWO, F64_THREE, F64_FIVE]);
    items
}

/// The example program: three lanes of `2.0, 3.0, 5.0` and a lane of `2.0`;
/// three tasks each add up a lane (then take the exponential, nothing, or
/// the square) and store into lane 5, and a last task multiplies the three
/// results and returns the product.
pub fn generate_example_program() -> (bytes: Vec<u8>)
    ensures
        bytes@ == encode_lanes(example_lanes()) + encode_ops(example_ops()),
{
    let mut lanes: Vec<(u32, Vec<u64>)> = Vec::new();
    lanes.push((1, lane_of_two_three_five()));
    lanes.push((2, lane_of_two_three_five()));
    lanes.push((3, lane_of_two_three_five()));
    let mut last: Vec<u64> = Vec::new();
    last.push(F64_TWO);
    assert(last@ =~= seq![F64_TWO]);
    lanes.push((4, last));
    assert(lanes_seq(lanes@) =~= example_lanes()) by {
        assert(lanes_seq(lanes@)[0] == lanes_seq(lanes@)[0]);
        assert(lanes_seq(lanes@)[3] == lanes_seq(lanes@)[3]);
    }
    let mut bytes = Scheduler::lane_initializer(lanes);
    let mut ops: Vec<Operation> = Vec::new();
    ops.push(Operation::Add(1, 3));
    ops.push(Operation::Exp);
    ops.push(Operation::Store(5));
    ops.push(Operation::Add(2, 3));
    ops.push(Operation::Store(5));
    ops.push(Operation::Add(3, 3));
    ops.push(Operation::Pow(F64_TWO));
    ops.push(Operation::Store(5));
    ops.push(Operation::Mul(5, 3));
    ops.push(Operation::Return);
    assert(ops@ =~= example_ops());
    write_task(&mut bytes, Task::new(ops));
    bytes
}

/// Encoding two runs of operations one after the other gives the encoding of
/// both runs joined.
proof fn lemma_encode_ops_append(a: Seq<Operation>, b: Seq<Operation>)
    ensures
        encode_ops(a + b) == encode_ops(a) + encode_ops(b),
    decreases a.len(),
{
    if a.len() == 0 {
        assert(a + b =~= b);
        assert(encode_ops(a) + encode_ops(b) =~= encode_ops(b));
    } else {
        assert((a + b).drop_first() =~= a.drop_first() + b);
        assert((a + b)[0] == a[0]);
        lemma_encode_ops_append(a.drop_first(), b);
        assert(encode_ops(a + b) =~= encode_ops(a) + encode_ops(b));
    }
}

/// The example program reads back as lanes 1 to 3 holding `2.0, 3.0, 5.0`
/// and lane 4 holding `2.0`, followed by four tasks: three that each fetch
/// every item of lanes 1, 2 and 3 in turn and store into lane 5, and a last
/// one that fetches the three results stored in lane 5, multiplies them and
/// returns the product. Each task fetches exactly the items its lane holds
/// when it runs: those the lane started with and one for each earlier task
/// that stored into it.
pub proof fn lemma_example_program_reads_back()
    ensures
        ({
            let lanes = example_lanes();
            let n = encode_lanes(lanes).len() as int;
            let bytes = encode_lanes(lanes) + encode_ops(example_ops());
            let tasks = read_tasks(bytes, n);
            &&& prelude_at(bytes, 0) == Ok::<(Map<u32, Seq<u64>>, int), PreludeError>(
                (
                    map![
                        1u32 => seq![F64_TWO, F64_THREE, F64_FIVE],
                        2u32 => seq![F64_TWO, F64_THREE, F64_FIVE],
                        3u32 => seq![F64_TWO, F64_THREE, F64_FIVE],
                        4u32 => seq![F64_TWO],
                    ],
                    n,
                ),
            )
            &&& tasks == seq![
                seq![Operation::Add(1, 3), Operation::Exp, Operation::Store(5)],
                seq![Operation::Add(2, 3), Operation::Store(5)],
                seq![Operation::Add(3, 3), Operation::Pow(F64_TWO), Operation::Store(5)],
                seq![Operation::Mul(5, 3), Operation::Return],
            ]
            &&& forall|j: int|
                0 <= j < tasks.len() ==> fetch_count(#[trigger] tasks[j]) == lane_items(
                    lanes,
                    fetch_lane(tasks[j]),
                ) + stores_to(tasks.take(j), fetch_lane(tasks[j]))
        }),
{
    let lanes = example_lanes();
    let t0 = seq![Operation::Add(1, 3), Operation::Exp, Operation::Store(5)];
    let t1 = seq![Operation::Add(2, 3), Operation::Store(5)];
    let t2 = seq![Operation::Add(3, 3), Operation::Pow(F64_TWO), Operation::Store(5)];
    let t3 = seq![Operation::Mul(5, 3), Operation::Return];
    let ts = seq![t0, t1, t2, t3];
    let bytes = encode_lanes(lanes) + encode_ops(example_ops());
    assert(example_ops() =~= t0 + t1 + t2 + t3);
    lemma_encode_ops_append(t0, t1);
    lemma_encode_ops_append(t0 + t1, t2);
    lemma_encode_ops_append(t0 + t1 + t2, t3);
    let e: Seq<Seq<Operation>> = Seq::empty();
    assert(encode_tasks(e) =~= Seq::<u8>::empty()) by {
        let f = |t: Seq<Operation>| encode_ops(t);
        assert(e.map_values(f) =~= Seq::<Seq<u8>>::empty());
    }
    lemma_encode_tasks_push(e, t0);
    assert(e.push(t0) =~= seq![t0]);
    lemma_encode_tasks_push(seq![t0], t1);
    assert(seq![t0].push(t1) =~= seq![t0, t1]);
    lemma_encode_tasks_push(seq![t0, t1], t2);
    assert(seq![t0, t1].push(t2) =~= seq![t0, t1, t2]);
    lemma_encode_tasks_push(seq![t0, t1, t2], t3);
    assert(seq![t0, t1, t2].push(t3) =~= ts);
    assert(encode_tasks(ts) =~= encode_ops(example_ops()));
    assert(is_generated_task(t0));
    assert(is_generated_task(t1));
    assert(is_generated_task(t2));
    assert(is_generated_task(t3));
    assert(is_generated_program(bytes, lanes, ts));
    lemma_generated_program_reads_back(bytes, lanes, ts);
    assert(lanes_map(lanes) =~= map![
        1u32 => seq![F64_TWO, F64_THREE, F64_FIVE],
        2u32 => seq![F64_TWO, F64_THREE, F64_FIVE],
        3u32 => seq![F64_TWO, F64_THREE, F64_FIVE],
        4u32 => seq![F64_TWO],
    ]) by {
        reveal_with_fuel(lanes_map, 5);
        assert(lanes.drop_first().drop_first().drop_first().drop_first() =~= Seq::<
            (u32, Seq<u64>),
        >::empty());
    }
    assert(ts.take(0) =~= e);
    assert(ts.take(1) =~= seq![t0]);
    assert(ts.take(2) =~= seq![t0, t1]);
    assert(ts.take(3) =~= seq![t0, t1, t2]);
    reveal_with_fuel(stores_to, 4);
    assert(seq![t0].drop_last() =~= e);
    assert(seq![t0, t1].drop_last() =~= seq![t0]);
    assert(seq![t0, t1, t2].drop_last() =~= seq![t0, t1]);
}

/// The lanes of a random program before their items are drawn: lane `i + 1`
/// gets a quantity of items drawn from `qty_min..qty_min + qty_dif`.
pub fn generate_lane_sizes(initial_lanes: usize, qty_min: usize, qty_dif: usize) -> (sizes: Vec<
    (u32, usize),
>)
    requires
        initial_lanes > 0 ==> qty_dif > 0,
        initial_lanes > 0 ==> qty_min + qty_dif <= usize::MAX,
    ensures
        sizes@.len() == initial_lanes,
        forall|i: int|
            0 <= i < initial_lanes ==> (#[trigger] sizes@[i]).0 == (i + 1) as u32 && qty_min
                <= sizes@[i].1 < qty_min + qty_dif,
{
    let mut sizes: Vec<(u32, usize)> = Vec::new();
    let mut i: usize = 0;
    while i < initial_lanes
        invariant
            i <= initial_lanes,
            initial_lanes > 0 ==> qty_dif > 0,
            initial_lanes > 0 ==> qty_min + qty_dif <= usize::MAX,
            sizes@.len() == i,
            forall|j: int|
                0 <= j < i ==> (#[trigger] sizes@[j]).0 == (j + 1) as u32 && qty_min
                    <= sizes@[j].1 < qty_min + qty_dif,
        decreases initial_lanes - i,
    {
        let qty = gen_range(qty_min, qty_min + qty_dif);
        let idx = (i as u32).wrapping_add(1);
        proof {
            assert(idx == (i + 1) as u32) by (bit_vector)
                requires
                    idx == (i as u32).wrapping_add(1) as u32,
            ;
        }
        sizes.push((idx, qty));
        i = i + 1;
    }
    sizes
}

/// How a generated task ends.
#[derive(Debug, Clone, Copy, PartialEq, Eq, Structural)]
pub enum TaskEnd {
    /// The frontier is empty: the task returns the final result.
    Return,
    /// The task stores to a new lane, which joins the frontier.
    NewLane,
    /// The task stores to the lane at this position of the frontier.
    ExistingLane(usize),
}

/// Ends a task as `end` says and updates the frontier: `Return` changes
/// nothing; `NewLane` takes the next lane index (wrapping at 2^32), stores
/// to it and adds it to the frontier with one item; `ExistingLane(i)`
/// stores to the lane at position `i` of the frontier and counts one more
/// item for it (wrapping at 2^32).
pub fn end_task(frontier: &mut Vec<(u32, u32)>, lane_idx: &mut u32, end: TaskEnd) -> (op:
    Operation)
    requires
        end matches TaskEnd::ExistingLane(i) ==> i < old(frontier)@.len(),
    ensures
        match end {
            TaskEnd::Return => {
                &&& op == Operation::Return
                &&& final(frontier)@ == old(frontier)@
                &&& *final(lane_idx) == *old(lane_idx)
            },
            TaskEnd::NewLane => {
                &&& *final(lane_idx) == (*old(lane_idx)).wrapping_add(1)
                &&& op == Operation::Store(*final(lane_idx))
                &&& final(frontier)@ == old(frontier)@.push((*final(lane_idx), 1u32))
            },
            TaskEnd::ExistingLane(i) => {
                let (l, c) = old(frontier)@[i as int];
                &&& op == Operation::Store(l)
                &&& final(frontier)@ == old(frontier)@.update(i as int, (l, c.wrapping_add(1)))
                &&& *final(lane_idx) == *old(lane_idx)
            },
        },
{
    match end {
        TaskEnd::Return => Operation::Return,
        TaskEnd::NewLane => {
            *lane_idx = lane_idx.wrapping_add(1);
            frontier.push((*lane_idx, 1));
            Operation::Store(*lane_idx)
        },
        TaskEnd::ExistingLane(i) => {
            let (l, c) = frontier[i];
            frontier.set(i, (l, c.wrapping_add(1)));
            Operation::Store(l)
        },
    }
}

/// The frontier a program generation starts with: each lane with its
/// number of items, truncated to 32 bits.
pub open spec fn initial_frontier(lanes: Seq<(u32, Seq<u64>)>) -> Seq<(u32, u32)> {
    lanes.map_values(|l: (u32, Seq<u64>)| (l.0, l.1.len() as u32))
}

/// The lane index a program generation starts from: the number of lanes
/// plus one, in 32 bits.
pub open spec fn initial_lane_idx(lanes: Seq<(u32, Seq<u64>)>) -> u32 {
    (lanes.len() as u32).wrapping_add(1)
}

/// One round of program generation, from frontier `f` and lane index `idx`
/// to `next_f` and `next_idx`, writing `task`: the task fetches from the last
/// frontier pair, which leaves the frontier; it then returns if the frontier
/// is empty, and otherwise stores either to a new lane (the next index,
/// which joins the frontier with one item) or to a lane of the frontier
/// (whose item count grows by one).
pub open spec fn is_round(
    f: Seq<(u32, u32)>,
    idx: u32,
    task: Seq<Operation>,
    next_f: Seq<(u32, u32)>,
    next_idx: u32,
) -> bool {
    let rest = f.drop_last();
    &&& f.len() > 0
    &&& task.len() >= 2
    &&& is_multiple(task[0])
    &&& fetch_size_of(task[0]) == f.last()
    &&& forall|i: int| 1 <= i < task.len() - 1 ==> is_serial(#[trigger] task[i])
    &&& if rest.len() == 0 {
        &&& task.last() == Operation::Return
        &&& next_f == rest
        &&& next_idx == idx
    } else {
        ||| new_lane_round(f, idx, task, next_f, next_idx)
        ||| existing_lane_round(f, idx, task, next_f, next_idx)
    }
}

/// A round whose task stores to a new lane: the next lane index, which joins
/// the frontier with one item.
pub open spec fn new_lane_round(
    f: Seq<(u32, u32)>,
    idx: u32,
    task: Seq<Operation>,
    next_f: Seq<(u32, u32)>,
    next_idx: u32,
) -> bool {
    &&& next_idx == idx.wrapping_add(1)
    &&& task.last() == Operation::Store(next_idx)
    &&& next_f == f.drop_last().push((next_idx, 1u32))
}

/// A round whose task stores to a lane left in the frontier, whose item
/// count grows by one.
pub open spec fn existing_lane_round(
    f: Seq<(u32, u32)>,
    idx: u32,
    task: Seq<Operation>,
    next_f: Seq<(u32, u32)>,
    next_idx: u32,
) -> bool {
    let rest = f.drop_last();
    exists|i: int|
        0 <= i < rest.len() && task.last() == Operation::Store(#[trigger] rest[i].0) && next_f
            == rest.update(i, (rest[i].0, rest[i].1.wrapping_add(1))) && next_idx == idx
}

/// The fork flips of a generation, one per round: a flip that comes out true
/// needs odds `freq_new > 0`, a false one needs `freq_existing > 0`; a round
/// that does not end the program stores to a new lane exactly when its flip
/// came out true, and to a lane of the frontier otherwise. So with
/// `freq_existing` zero every such round stores to a new lane, and with
/// `freq_new` zero every such round stores to a lane of the frontier.
pub open spec fn forks_taken(
    tasks: Seq<Seq<Operation>>,
    states: Seq<(Seq<(u32, u32)>, u32)>,
    forks: Seq<bool>,
    freq_new: usize,
    freq_existing: usize,
) -> bool {
    &&& forks.len() == tasks.len()
    &&& forall|k: int| 0 <= k < forks.len() ==> (#[trigger] forks[k] ==> freq_new > 0)
    &&& forall|k: int| 0 <= k < forks.len() ==> (!#[trigger] forks[k] ==> freq_existing > 0)
    &&& forall|k: int|
        0 <= k < tasks.len() && states[k].0.len() > 1 ==> (#[trigger] forks[k] ==> new_lane_round(
            states[k].0,
            states[k].1,
            tasks[k],
            states[k + 1].0,
            states[k + 1].1,
        ))
    &&& forall|k: int|
        0 <= k < tasks.len() && states[k].0.len() > 1 ==> (!#[trigger] forks[k]
            ==> existing_lane_round(
            states[k].0,
            states[k].1,
            tasks[k],
            states[k + 1].0,
            states[k + 1].1,
        ))
    &&& freq_existing == 0 ==> forall|k: int|
        0 <= k < tasks.len() && states[k].0.len() > 1 ==> #[trigger] new_lane_round(
            states[k].0,
            states[k].1,
            tasks[k],
            states[k + 1].0,
            states[k + 1].1,
        )
    &&& freq_new == 0 ==> forall|k: int|
        0 <= k < tasks.len() && states[k].0.len() > 1 ==> #[trigger] existing_lane_round(
            states[k].0,
            states[k].1,
            tasks[k],
            states[k + 1].0,
            states[k + 1].1,
        )
}

/// The rounds of a program generation over `lanes` that wrote `tasks`:
/// `states` holds the frontier and lane index before each round and after
/// the last one; the generation stops when the frontier is empty, or after
/// `u64::MAX` rounds.
pub open spec fn is_generation(
    lanes: Seq<(u32, Seq<u64>)>,
    tasks: Seq<Seq<Operation>>,
    states: Seq<(Seq<(u32, u32)>, u32)>,
) -> bool {
    &&& states.len() == tasks.len() + 1
    &&& states[0] == (initial_frontier(lanes), initial_lane_idx(lanes))
    &&& forall|k: int|
        0 <= k < tasks.len() ==> is_round(
            states[k].0,
            states[k].1,
            #[trigger] tasks[k],
            states[k + 1].0,
            states[k + 1].1,
        )
    &&& (states.last().0.len() == 0 || tasks.len() == u64::MAX)
}

/// The lane a generated task fetches from.
pub open spec fn fetch_lane(t: Seq<Operation>) -> u32 {
    fetch_size_of(t[0]).0
}

/// The number of items a generated task fetches.
pub open spec fn fetch_count(t: Seq<Operation>) -> u32 {
    fetch_size_of(t[0]).1
}

/// The number of items lane `l` starts with, for lanes indexed from one.
pub open spec fn lane_items(lanes: Seq<(u32, Seq<u64>)>, l: u32) -> int {
    if 1 <= l <= lanes.len() {
        lanes[l - 1].1.len() as int
    } else {
        0
    }
}

/// The number of tasks that store to lane `l`.
pub open spec fn stores_to(tasks: Seq<Seq<Operation>>, l: u32) -> int
    decreases tasks.len(),
{
    if tasks.len() == 0 {
        0
    } else {
        stores_to(tasks.drop_last(), l) + if tasks.last().last() == Operation::Store(l) {
            1int
        } else {
            0int
        }
    }
}

proof fn lemma_stores_to_bound(tasks: Seq<Seq<Operation>>, l: u32)
    ensures
        0 <= stores_to(tasks, l) <= tasks.len(),
    decreases tasks.len(),
{
    if tasks.len() > 0 {
        lemma_stores_to_bound(tasks.drop_last(), l);
    }
}

/// What holds after `k` rounds of a generation, with frontier `f` and lane
/// index `idx`.
spec fn ready_inv(
    lanes: Seq<(u32, Seq<u64>)>,
    tasks: Seq<Seq<Operation>>,
    k: int,
    f: Seq<(u32, u32)>,
    idx: u32,
) -> bool {
    &&& lanes.len() + 1 <= idx <= lanes.len() + 1 + k
    &&& forall|i: int, j: int| 0 <= i < j < f.len() ==> #[trigger] f[i].0 != #[trigger] f[j].0
    &&& forall|i: int| 0 <= i < f.len() ==> 1 <= #[trigger] f[i].0 <= idx
    &&& forall|i: int|
        0 <= i < f.len() ==> #[trigger] f[i].1 == lane_items(lanes, f[i].0) + stores_to(
            tasks.take(k),
            f[i].0,
        )
    &&& forall|j: int|
        0 <= j < k ==> {
            &&& fetch_lane(#[trigger] tasks[j]) <= idx
            &&& fetch_count(tasks[j]) == lane_items(lanes, fetch_lane(tasks[j])) + stores_to(
                tasks.take(j),
                fetch_lane(tasks[j]),
            )
            &&& forall|i: int| 0 <= i < f.len() ==> #[trigger] f[i].0 != fetch_lane(tasks[j])
            &&& (tasks[j].last() is Store ==> tasks[j].last()->Store_0 <= idx)
        }
    &&& forall|j1: int, j2: int|
        0 <= j1 < j2 < k ==> fetch_lane(#[trigger] tasks[j1]) != fetch_lane(#[trigger] tasks[j2])
            && tasks[j2].last() != Operation::Store(fetch_lane(tasks[j1]))
}

proof fn lemma_ready_inv(
    lanes: Seq<(u32, Seq<u64>)>,
    tasks: Seq<Seq<Operation>>,
    states: Seq<(Seq<(u32, u32)>, u32)>,
    k: int,
)
    requires
        is_generation(lanes, tasks, states),
        0 <= k <= tasks.len(),
        forall|i: int| 0 <= i < lanes.len() ==> (#[trigger] lanes[i]).0 == i + 1,
        forall|i: int| 0 <= i < lanes.len() ==> (#[trigger] lanes[i]).1.len() + tasks.len() < u32::MAX,
        lanes.len() + tasks.len() + 2 < u32::MAX,
    ensures
        ready_inv(lanes, tasks, k, states[k].0, states[k].1),
    decreases k,
{
    if k == 0 {
        let f = states[0].0;
        assert(f == initial_frontier(lanes));
        assert(tasks.take(0) =~= Seq::<Seq<Operation>>::empty());
        assert forall|i: int| 0 <= i < f.len() implies #[trigger] f[i].1 == lane_items(
            lanes,
            f[i].0,
        ) + stores_to(tasks.take(0), f[i].0) by {
            assert(f[i] == (lanes[i].0, lanes[i].1.len() as u32));
            assert(lane_items(lanes, f[i].0) == lanes[i].1.len());
        }
        assert forall|i: int| 0 <= i < f.len() implies 1 <= #[trigger] f[i].0 <= states[0].1 by {
            assert(f[i].0 == lanes[i].0);
        }
        assert forall|i: int, j: int| 0 <= i < j < f.len() implies #[trigger] f[i].0
            != #[trigger] f[j].0 by {
            assert(f[i].0 == lanes[i].0);
            assert(f[j].0 == lanes[j].0);
        }
    } else {
        lemma_ready_inv(lanes, tasks, states, k - 1);
        let p = k - 1;
        let f = states[p].0;
        let idx = states[p].1;
        let t = tasks[p];
        let nf = states[k].0;
        let nidx = states[k].1;
        assert(is_round(f, idx, t, nf, nidx));
        let rest = f.drop_last();
        let l = f.last().0;
        let tp = tasks.take(p);
        let tk = tasks.take(k);
        assert(tk.drop_last() =~= tp);
        assert(tk.last() == t);
        assert forall|x: u32| #[trigger] stores_to(tk, x) == stores_to(tp, x) + if t.last()
            == Operation::Store(x) {
            1int
        } else {
            0int
        } by {}
        assert forall|j: int| 0 <= j < p implies #[trigger] tasks.take(k).take(j) == tasks.take(j)
            by {
            assert(tasks.take(k).take(j) =~= tasks.take(j));
        }
        // the fetched pair is the last of the frontier, and no other pair
        // has its lane
        assert(f[f.len() - 1] == f.last());
        assert forall|i: int| 0 <= i < rest.len() implies #[trigger] rest[i].0 != l by {
            assert(rest[i] == f[i]);
        }
        // new store targets
        let fresh = t.last() is Store && t.last()->Store_0 == nidx && nidx == idx.wrapping_add(1)
            && nf == rest.push((nidx, 1u32));
        if rest.len() == 0 {
            assert(nf.len() == 0);
        } else if fresh {
            assert(idx < u32::MAX);
            assert(nidx == idx + 1);
            assert forall|j: int| 0 <= j < p implies (#[trigger] tasks[j].last() is Store
                ==> tasks[j].last()->Store_0 <= idx) by {}
            lemma_stores_to_bound(tp, nidx);
            assert(stores_to(tp, nidx) == 0) by {
                lemma_no_store_above(tp, idx, nidx);
            }
        } else {
            let i = choose|i: int|
                0 <= i < rest.len() && t.last() == Operation::Store(#[trigger] rest[i].0) && nf
                    == rest.update(i, (rest[i].0, rest[i].1.wrapping_add(1))) && nidx == idx;
            assert(rest[i] == f[i]);
            lemma_stores_to_bound(tp, rest[i].0);
            assert(lane_items(lanes, rest[i].0) + p < u32::MAX) by {
                if 1 <= rest[i].0 <= lanes.len() {
                    assert(lanes[rest[i].0 - 1].1.len() + tasks.len() < u32::MAX);
                }
            }
            assert(rest[i].1 < u32::MAX);
            assert forall|a: int| 0 <= a < nf.len() implies #[trigger] nf[a].0 == rest[a].0 by {}
        }
        assert(ready_inv(lanes, tasks, k, nf, nidx)) by {
            assert forall|a: int| 0 <= a < nf.len() implies #[trigger] nf[a].1 == lane_items(
                lanes,
                nf[a].0,
            ) + stores_to(tk, nf[a].0) by {
                if a < rest.len() {
                    assert(rest[a] == f[a]);
                }
            }
            assert forall|j: int| 0 <= j < k implies {
                &&& fetch_lane(#[trigger] tasks[j]) <= nidx
                &&& fetch_count(tasks[j]) == lane_items(lanes, fetch_lane(tasks[j])) + stores_to(
                    tasks.take(j),
                    fetch_lane(tasks[j]),
                )
                &&& forall|a: int| 0 <= a < nf.len() ==> #[trigger] nf[a].0 != fetch_lane(tasks[j])
                &&& (tasks[j].last() is Store ==> tasks[j].last()->Store_0 <= nidx)
            } by {
                if j == p {
                    assert(fetch_lane(t) == l);
                    assert(fetch_count(t) == f.last().1);
                    assert(f.last().1 == lane_items(lanes, l) + stores_to(tp, l));
                    assert forall|a: int| 0 <= a < nf.len() implies #[trigger] nf[a].0 != l by {
                        if a < rest.len() {
                            assert(rest[a].0 != l);
                        }
                    }
                } else {
                    assert forall|a: int| 0 <= a < nf.len() implies #[trigger] nf[a].0
                        != fetch_lane(tasks[j]) by {
                        if a < rest.len() {
                            assert(rest[a] == f[a]);
                        }
                    }
                }
            }
            assert forall|j1: int, j2: int| 0 <= j1 < j2 < k implies fetch_lane(
                #[trigger] tasks[j1],
            ) != fetch_lane(#[trigger] tasks[j2]) && tasks[j2].last() != Operation::Store(
                fetch_lane(tasks[j1]),
            ) by {
                if j2 == p {
                    assert(f[f.len() - 1].0 != fetch_lane(tasks[j1]));
                    if t.last() is Store && !fresh && rest.len() > 0 {
                        let i = choose|i: int|
                            0 <= i < rest.len() && t.last() == Operation::Store(
                                #[trigger] rest[i].0,
                            ) && nf == rest.update(i, (rest[i].0, rest[i].1.wrapping_add(1)))
                                && nidx == idx;
                        assert(rest[i] == f[i]);
                    }
                }
            }
            assert forall|a: int, b: int| 0 <= a < b < nf.len() implies #[trigger] nf[a].0
                != #[trigger] nf[b].0 by {
                if b < rest.len() {
                    assert(rest[a] == f[a]);
                    assert(rest[b] == f[b]);
                }
            }
            assert forall|a: int| 0 <= a < nf.len() implies 1 <= #[trigger] nf[a].0 <= nidx by {
                if a < rest.len() {
                    assert(rest[a] == f[a]);
                }
            }
        }
    }
}

proof fn lemma_no_store_above(tasks: Seq<Seq<Operation>>, idx: u32, x: u32)
    requires
        idx < x,
        forall|j: int|
            0 <= j < tasks.len() ==> (#[trigger] tasks[j].last() is Store
                ==> tasks[j].last()->Store_0 <= idx),
    ensures
        stores_to(tasks, x) == 0,
    decreases tasks.len(),
{
    if tasks.len() > 0 {
        let d = tasks.drop_last();
        assert forall|j: int| 0 <= j < d.len() implies (#[trigger] d[j].last() is Store
            ==> d[j].last()->Store_0 <= idx) by {
            assert(d[j] == tasks[j]);
        }
        lemma_no_store_above(d, idx, x);
        assert(tasks.last() == tasks[tasks.len() - 1]);
    }
}

/// Every generated program can run to its end: each task fetches from a
/// lane exactly as many items as the lane starts with plus the stores made
/// to it by the tasks before; no two tasks fetch from the same lane; and no
/// task stores to a lane that an earlier task already fetched. This holds
/// for lanes indexed from one, each with fewer than `2^32` items counting
/// the stores, and fewer than `2^32` lanes and tasks together.
pub proof fn lemma_generated_tasks_fetch_what_was_stored(
    lanes: Seq<(u32, Seq<u64>)>,
    tasks: Seq<Seq<Operation>>,
    states: Seq<(Seq<(u32, u32)>, u32)>,
)
    requires
        is_generation(lanes, tasks, states),
        forall|i: int| 0 <= i < lanes.len() ==> (#[trigger] lanes[i]).0 == i + 1,
        forall|i: int| 0 <= i < lanes.len() ==> (#[trigger] lanes[i]).1.len() + tasks.len() < u32::MAX,
        lanes.len() + tasks.len() + 2 < u32::MAX,
    ensures
        forall|j: int|
            0 <= j < tasks.len() ==> fetch_count(#[trigger] tasks[j]) == lane_items(
                lanes,
                fetch_lane(tasks[j]),
            ) + stores_to(tasks.take(j), fetch_lane(tasks[j])),
        forall|j1: int, j2: int|
            0 <= j1 < j2 < tasks.len() ==> fetch_lane(#[trigger] tasks[j1]) != fetch_lane(
                #[trigger] tasks[j2],
            ) && tasks[j2].last() != Operation::Store(fetch_lane(tasks[j1])),
{
    lemma_ready_inv(lanes, tasks, states, tasks.len() as int);
}

/// A random program over the given lanes: the lane section, then the tasks
/// of a program generation (see `is_round`) that starts with the lanes as
/// frontier. Each task fetches from the last frontier pair and is generated
/// by `generate_serial`; whether it stores to a new lane is decided with odds
/// `freq_parallel_new_lane` against `freq_parallel_existing_lane` (see
/// `forks_taken`), and which
/// existing lane it stores to is drawn at random. The rounds stop after
/// `u64::MAX` of them, a bound that no run reaches: every round grows the
/// output, so memory runs out long before.
pub fn generate_program_from_lanes(
    base_lanes: Vec<(u32, Vec<u64>)>,
    freq_serial: usize,
    freq_parallel: usize,
    freq_parallel_new_lane: usize,
    freq_parallel_existing_lane: usize,
) -> (bytes: Vec<u8>)
    requires
        base_lanes@.len() > 0 ==> 0 < freq_serial + freq_parallel <= usize::MAX,
        base_lanes@.len() > 0 ==> 0 < freq_parallel_new_lane + freq_parallel_existing_lane
            <= usize::MAX,
    ensures
        exists|
            tasks: Seq<Seq<Operation>>,
            states: Seq<(Seq<(u32, u32)>, u32)>,
            forks: Seq<bool>,
        |
            #[trigger] is_generated_program(bytes@, lanes_seq(base_lanes@), tasks)
                && #[trigger] is_generation(lanes_seq(base_lanes@), tasks, states)
                && #[trigger] forks_taken(
                tasks,
                states,
                forks,
                freq_parallel_new_lane,
                freq_parallel_existing_lane,
            ),
{
    let ghost lanes = lanes_seq(base_lanes@);
    let mut frontier: Vec<(u32, u32)> = Vec::new();
    let mut i: usize = 0;
    while i < base_lanes.len()
        invariant
            i <= base_lanes@.len(),
            lanes == lanes_seq(base_lanes@),
            frontier@ == initial_frontier(lanes).take(i as int),
        decreases base_lanes@.len() - i,
    {
        frontier.push((base_lanes[i].0, #[verifier::truncate] (base_lanes[i].1.len() as u32)));
        i = i + 1;
        assert(frontier@ =~= initial_frontier(lanes).take(i as int));
    }
    assert(frontier@ =~= initial_frontier(lanes));
    let mut lane_idx: u32 = (#[verifier::truncate] (base_lanes.len() as u32)).wrapping_add(1);
    let mut bytes = Scheduler::lane_initializer(base_lanes);
    let ghost mut tasks: Seq<Seq<Operation>> = Seq::empty();
    let ghost mut states: Seq<(Seq<(u32, u32)>, u32)> = seq![(frontier@, lane_idx)];
    let ghost mut forks: Seq<bool> = Seq::empty();
    proof {
        assert(tasks.map_values(|t: Seq<Operation>| encode_ops(t)) =~= Seq::<Seq<u8>>::empty());
        assert(bytes@ =~= encode_lanes(lanes) + encode_tasks(tasks));
    }
    let mut rounds: u64 = 0;
    loop
        invariant
            lanes.len() > 0 ==> 0 < freq_serial + freq_parallel <= usize::MAX,
            lanes.len() > 0 ==> 0 < freq_parallel_new_lane + freq_parallel_existing_lane
                <= usize::MAX,
            forks_taken(tasks, states, forks, freq_parallel_new_lane, freq_parallel_existing_lane),
            bytes@ == encode_lanes(lanes) + encode_tasks(tasks),
            forall|j: int| 0 <= j < tasks.len() ==> is_generated_task(#[trigger] tasks[j]),
            forall|j: int| 0 <= j < tasks.len() - 1 ==> (#[trigger] tasks[j]).last() is Store,
            tasks.len() > 0 && tasks.last().last() is Return ==> frontier@.len() == 0,
            tasks.len() == 0 ==> frontier@.len() == lanes.len(),
            tasks.len() > 0 ==> lanes.len() > 0,
            tasks.len() == rounds,
            states.len() == tasks.len() + 1,
            states[0] == (initial_frontier(lanes), initial_lane_idx(lanes)),
            states.last() == (frontier@, lane_idx),
            forall|k: int|
                0 <= k < tasks.len() ==> is_round(
                    states[k].0,
                    states[k].1,
                    #[trigger] tasks[k],
                    states[k + 1].0,
                    states[k + 1].1,
                ),
        ensures
            is_generated_program(bytes@, lanes, tasks),
            is_generation(lanes, tasks, states),
            forks_taken(tasks, states, forks, freq_parallel_new_lane, freq_parallel_existing_lane),
        decreases u64::MAX - rounds,
    {
        if rounds == u64::MAX {
            break ;
        }
        let ghost f0 = frontier@;
        let ghost idx0 = lane_idx;
        let popped = frontier.pop();
        let (lane, size) = match popped {
            None => {
                break ;
            },
            Some(p) => p,
        };
        let mut task = generate_serial(lane, size, freq_serial, freq_parallel);
        let should_fork = flip_frequency(freq_parallel_new_lane, freq_parallel_existing_lane);
        let end = if frontier.len() == 0 {
            TaskEnd::Return
        } else if should_fork {
            TaskEnd::NewLane
        } else {
            TaskEnd::ExistingLane(gen_range(0, frontier.len()))
        };
        let ghost rest = frontier@;
        let last = end_task(&mut frontier, &mut lane_idx, end);
        task.push(last);
        let ghost t = task@;
        proof {
            assert(rest == f0.drop_last());
            assert(is_generated_task(t)) by {
                assert forall|j: int| 1 <= j < t.len() - 1 implies is_serial(#[trigger] t[j]) by {}
            }
            if let TaskEnd::ExistingLane(k) = end {
                let ki = k as int;
                assert(0 <= ki < rest.len() && t.last() == Operation::Store(rest[ki].0)
                    && frontier@ == rest.update(ki, (rest[ki].0, rest[ki].1.wrapping_add(1)))
                    && lane_idx == idx0);
            }
            assert(is_round(f0, idx0, t, frontier@, lane_idx));
            if f0.len() > 1 {
                if should_fork {
                    assert(new_lane_round(f0, idx0, t, frontier@, lane_idx));
                } else {
                    let ki = end->ExistingLane_0 as int;
                    assert(0 <= ki < rest.len() && t.last() == Operation::Store(rest[ki].0)
                        && frontier@ == rest.update(ki, (rest[ki].0, rest[ki].1.wrapping_add(1)))
                        && lane_idx == idx0);
                    assert(existing_lane_round(f0, idx0, t, frontier@, lane_idx));
                }
            }
        }
        write_task(&mut bytes, Task::new(task));
        proof {
            lemma_encode_tasks_push(tasks, t);
            let old_tasks = tasks;
            let old_states = states;
            let old_forks = forks;
            tasks = tasks.push(t);
            states = states.push((frontier@, lane_idx));
            forks = forks.push(should_fork);
            assert forall|k: int| 0 <= k < old_tasks.len() implies tasks[k] == old_tasks[k]
                && states[k] == old_states[k] && states[k + 1] == old_states[k + 1] && forks[k]
                == old_forks[k] by {}
            assert(forks_taken(
                tasks,
                states,
                forks,
                freq_parallel_new_lane,
                freq_parallel_existing_lane,
            )) by {
                assert forall|k: int|
                    0 <= k < tasks.len() && states[k].0.len() > 1 implies (#[trigger] forks[k]
                    ==> new_lane_round(
                    states[k].0,
                    states[k].1,
                    tasks[k],
                    states[k + 1].0,
                    states[k + 1].1,
                )) by {
                    if k < old_tasks.len() {
                        assert(forks[k] == old_forks[k]);
                    }
                }
                assert forall|k: int|
                    0 <= k < tasks.len() && states[k].0.len() > 1 implies (!#[trigger] forks[k]
                    ==> existing_lane_round(
                    states[k].0,
                    states[k].1,
                    tasks[k],
                    states[k + 1].0,
                    states[k + 1].1,
                )) by {
                    if k < old_tasks.len() {
                        assert(forks[k] == old_forks[k]);
                    }
                }
                assert forall|k: int| 0 <= k < forks.len() implies (#[trigger] forks[k]
                    ==> freq_parallel_new_lane > 0) by {
                    if k < old_tasks.len() {
                        assert(forks[k] == old_forks[k]);
                    }
                }
                assert forall|k: int| 0 <= k < forks.len() implies (!#[trigger] forks[k]
                    ==> freq_parallel_existing_lane > 0) by {
                    if k < old_tasks.len() {
                        assert(forks[k] == old_forks[k]);
                    }
                }
            }
            assert forall|k: int| 0 <= k < tasks.len() implies is_round(
                states[k].0,
                states[k].1,
                #[trigger] tasks[k],
                states[k + 1].0,
                states[k + 1].1,
            ) by {
                if k < old_tasks.len() {
                    assert(tasks[k] == old_tasks[k]);
                    assert(states[k] == old_states[k]);
                    assert(states[k + 1] == old_states[k + 1]);
                }
            }
        }
        rounds = rounds + 1;
    }
    bytes
}

} // verus!
