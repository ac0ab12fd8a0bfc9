use vstd::prelude::*;

use crate::operation::{
    decode, encode, is_terminal, lemma_decode_encode, lemma_encode_len, read_op, Operation,
    OperationIterator, OPERATION_SIZE,
};

verus! {

/// The operations of one task read from `bytes` at `pos`, and the position
/// after them: operations are read until one that ends a task (`Return` or
/// `Store`), which is kept, or until fewer than nine bytes are left.
pub open spec fn read_task(bytes: Seq<u8>, pos: int) -> (Seq<Operation>, int)
    decreases bytes.len() - pos,
{
    let (op, next) = read_op(bytes, pos);
    match op {
        None => (Seq::empty(), next),
        Some(o) => if is_terminal(o) {
            (seq![o], next)
        } else {
            let (rest, end) = read_task(bytes, next);
            (seq![o] + rest, end)
        },
    }
}

/// The bytes that encode a sequence of operations, one after the other.
pub open spec fn encode_ops(ops: Seq<Operation>) -> Seq<u8>
    decreases ops.len(),
{
    if ops.len() == 0 {
        Seq::empty()
    } else {
        encode(ops[0]) + encode_ops(ops.drop_first())
    }
}

/// A sequence of operations that reads back as one task: it is not empty and
/// only its last operation may end a task.
pub open spec fn is_single_task(ops: Seq<Operation>) -> bool {
    &&& ops.len() > 0
    &&& forall|i: int| 0 <= i < ops.len() - 1 ==> !is_terminal(#[trigger] ops[i])
}

/// The encoding of operations is nine bytes per operation.
pub proof fn lemma_encode_ops_len(ops: Seq<Operation>)
    ensures
        encode_ops(ops).len() == ops.len() * OPERATION_SIZE,
    decreases ops.len(),
{
    if ops.len() > 0 {
        lemma_encode_len(ops[0]);
        lemma_encode_ops_len(ops.drop_first());
    }
}

/// Encoding one more operation appends its nine bytes.
pub proof fn lemma_encode_ops_push(ops: Seq<Operation>, op: Operation)
    ensures
        encode_ops(ops.push(op)) == encode_ops(ops) + encode(op),
    decreases ops.len(),
{
    if ops.len() == 0 {
        assert(ops.push(op).drop_first() =~= Seq::<Operation>::empty());
        assert(ops.push(op)[0] == op);
        assert(encode_ops(Seq::<Operation>::empty()) == Seq::<u8>::empty());
        assert(encode_ops(ops) == Seq::<u8>::empty());
        assert(encode_ops(ops.push(op)) =~= encode(op) + Seq::<u8>::empty());
        assert(encode_ops(ops.push(op)) =~= encode_ops(ops) + encode(op));
    } else {
        assert(ops.push(op).drop_first() =~= ops.drop_first().push(op));
        lemma_encode_ops_push(ops.drop_first(), op);
        assert(encode_ops(ops.push(op)) =~= encode_ops(ops) + encode(op));
    }
}

/// Reading never moves backwards nor past the end, and it moves forward
/// whenever it yields an operation.
pub proof fn lemma_read_task_progress(bytes: Seq<u8>, pos: int)
    requires
        0 <= pos <= bytes.len(),
    ensures
        pos <= read_task(bytes, pos).1 <= bytes.len(),
        read_task(bytes, pos).0.len() > 0 ==> read_task(bytes, pos).1 > pos,
    decreases bytes.len() - pos,
{
    let (op, next) = read_op(bytes, pos);
    if let Some(o) = op {
        if !is_terminal(o) {
            lemma_read_task_progress(bytes, next);
        }
    }
}

/// Reading a task from bytes that hold the encoding of a single task at `pos`
/// gives back its operations and stops right after them, when the task ends
/// with `Return` or `Store` or its encoding runs to the end of the bytes.
pub proof fn lemma_read_encoded_task(bytes: Seq<u8>, pos: int, ops: Seq<Operation>)
    requires
        0 <= pos,
        pos + encode_ops(ops).len() <= bytes.len(),
        bytes.subrange(pos, pos + encode_ops(ops).len()) == encode_ops(ops),
        is_single_task(ops),
        is_terminal(ops.last()) || pos + encode_ops(ops).len() == bytes.len(),
    ensures
        read_task(bytes, pos) == (ops, pos + encode_ops(ops).len()),
    decreases ops.len(),
{
    lemma_encode_ops_len(ops);
    lemma_encode_ops_len(ops.drop_first());
    lemma_encode_len(ops[0]);
    let n = OPERATION_SIZE as int;
    let all_end = pos + encode_ops(ops).len();
    let tail = bytes.subrange(pos, all_end);
    assert(bytes.subrange(pos, pos + n) =~= encode(ops[0])) by {
        assert forall|i: int| 0 <= i < n implies #[trigger] bytes.subrange(pos, pos + n)[i]
            == encode(ops[0])[i] by {
            assert(tail[i] == encode_ops(ops)[i]);
        }
    }
    lemma_decode_encode(ops[0]);
    assert(read_op(bytes, pos) == (Some(ops[0]), pos + n));
    if ops.len() == 1 {
        if !is_terminal(ops[0]) {
            assert(read_op(bytes, pos + n).0 is None);
            assert(read_task(bytes, pos + n) == (Seq::<Operation>::empty(), bytes.len() as int));
        }
        assert(seq![ops[0]] + Seq::<Operation>::empty() =~= ops);
        assert(seq![ops[0]] =~= ops);
    } else {
        assert(!is_terminal(ops[0]));
        let rest = ops.drop_first();
        assert(bytes.subrange(pos + n, all_end) =~= encode_ops(rest)) by {
            assert forall|i: int| 0 <= i < all_end - pos - n implies #[trigger] bytes.subrange(
                pos + n,
                all_end,
            )[i] == encode_ops(rest)[i] by {
                assert(tail[i + n] == encode_ops(ops)[i + n]);
            }
        }
        assert(is_single_task(rest)) by {
            assert forall|i: int| 0 <= i < rest.len() - 1 implies !is_terminal(
                #[trigger] rest[i],
            ) by {
                assert(rest[i] == ops[i + 1]);
            }
        }
        assert(rest.last() == ops.last());
        lemma_read_encoded_task(bytes, pos + n, rest);
        assert(seq![ops[0]] + rest =~= ops);
    }
}

/// A unit of work: operations that start by fetching from a lane and end by
/// returning or storing their result.
#[derive(Debug, Clone)]
pub struct Task {
    ops: Vec<Operation>,
}

impl View for Task {
    type V = Seq<Operation>;

    closed spec fn view(&self) -> Seq<Operation> {
        self.ops@
    }
}

impl Default for Task {
    fn default() -> (t: Task)
        ensures
            t@ == Seq::<Operation>::empty(),
    {
        Task { ops: Vec::new() }
    }
}

impl Task {
    /// A task made of the given operations.
    pub fn new(ops: Vec<Operation>) -> (t: Task)
        ensures
            t@ == ops@,
    {
        Task { ops }
    }

    /// The operations of the task.
    pub fn ops(&self) -> (ops: &Vec<Operation>)
        ensures
            ops@ == self@,
    {
        &self.ops
    }

    /// Reads the operations of one task: operations are read until one that
    /// returns or stores the result, which is kept, or until the reader is
    /// exhausted. `None` when no operation could be read.
    pub fn from_reader(reader: &mut OperationIterator) -> (t: Option<Task>)
        requires
            old(reader).wf(),
        ensures
            final(reader).wf(),
            final(reader).bytes() == old(reader).bytes(),
            final(reader).pos() == read_task(old(reader).bytes(), old(reader).pos()).1,
            match t {
                None => read_task(old(reader).bytes(), old(reader).pos()).0.len() == 0,
                Some(t) => t@ == read_task(old(reader).bytes(), old(reader).pos()).0
                    && t@.len() > 0,
            },
    {
        let ghost b = reader.bytes();
        let ghost all = read_task(b, reader.pos());
        let mut ops: Vec<Operation> = Vec::new();
        loop
            invariant_except_break
                ops@ + read_task(b, reader.pos()).0 == all.0,
                read_task(b, reader.pos()).1 == all.1,
            invariant
                reader.wf(),
                reader.bytes() == b,
            ensures
                reader.wf(),
                reader.bytes() == b,
                ops@ == all.0,
                reader.pos() == all.1,
            decreases b.len() - reader.pos(),
        {
            let ghost before = reader.pos();
            let next = reader.next();
            match next {
                None => {
                    assert(ops@ + Seq::<Operation>::empty() =~= ops@);
                    break ;
                },
                Some(op) => {
                    ops.push(op);
                    if op.is_terminal() {
                        assert(ops@ =~= all.0);
                        break ;
                    }
                    assert(ops@ + read_task(b, reader.pos()).0 =~= all.0);
                },
            }
        }
        if ops.len() == 0 {
            None
        } else {
            Some(Task { ops })
        }
    }

    /// The bytes that encode the operations of the task.
    pub fn to_bytes(&self) -> (v: Vec<u8>)
        ensures
            v@ == encode_ops(self@),
    {
        let mut v: Vec<u8> = Vec::new();
        let mut i: usize = 0;
        while i < self.ops.len()
            invariant
                i <= self.ops@.len(),
                v@ == encode_ops(self.ops@.take(i as int)),
            decreases self.ops@.len() - i,
        {
            let mut b = self.ops[i].to_vec();
            proof {
                lemma_encode_ops_push(self.ops@.take(i as int), self.ops@[i as int]);
                assert(self.ops@.take(i as int).push(self.ops@[i as int]) =~= self.ops@.take(
                    i + 1,
                ));
            }
            v.append(&mut b);
            i = i + 1;
        }
        assert(self.ops@.take(i as int) =~= self.ops@);
        v
    }
}

/// A task in its encoded form, as it travels through the work queue.
#[derive(Debug, Clone)]
pub struct RawTask {
    bytes: Vec<u8>,
}

impl View for RawTask {
    type V = Seq<u8>;

    closed spec fn view(&self) -> Seq<u8> {
        self.bytes@
    }
}

impl RawTask {
    /// The encoded task made of the given bytes.
    pub fn from_vec(bytes: Vec<u8>) -> (r: RawTask)
        ensures
            r@ == bytes@,
    {
        RawTask { bytes }
    }

    /// The bytes of the encoded task.
    pub fn into_vec(self) -> (v: Vec<u8>)
        ensures
            v@ == self@,
    {
        self.bytes
    }

    /// The bytes of the encoded task.
    pub fn as_slice(&self) -> (s: &[u8])
        ensures
            s@ == self@,
    {
        self.bytes.as_slice()
    }

    /// Reads one task and encodes it; `None` when no operation could be read.
    pub fn from_reader(reader: &mut OperationIterator) -> (r: Option<RawTask>)
        requires
            old(reader).wf(),
        ensures
            final(reader).wf(),
            final(reader).bytes() == old(reader).bytes(),
            final(reader).pos() == read_task(old(reader).bytes(), old(reader).pos()).1,
            match r {
                None => read_task(old(reader).bytes(), old(reader).pos()).0.len() == 0,
                Some(r) => r@ == encode_ops(read_task(old(reader).bytes(), old(reader).pos()).0)
                    && read_task(old(reader).bytes(), old(reader).pos()).0.len() > 0,
            },
    {
        match Task::from_reader(reader) {
            None => None,
            Some(t) => Some(RawTask::from_task(t)),
        }
    }

    /// Encodes a task.
    pub fn from_task(task: Task) -> (r: RawTask)
        ensures
            r@ == encode_ops(task@),
    {
        RawTask { bytes: task.to_bytes() }
    }

    /// Decodes the task: the operations of one task read from the first
    /// byte on; an empty task when none could be read.
    pub fn to_task(&self) -> (t: Task)
        ensures
            t@ == read_task(self@, 0).0,
    {
        let mut reader = OperationIterator::new(self.bytes.clone());
        match Task::from_reader(&mut reader) {
            None => Task::default(),
            Some(t) => t,
        }
    }
}

impl From<Vec<u8>> for RawTask {
    fn from(bytes: Vec<u8>) -> (r: RawTask)
        ensures
            r@ == bytes@,
    {
        RawTask { bytes }
    }
}

impl vstd::std_specs::convert::FromSpecImpl<Vec<u8>> for RawTask {
    open spec fn obeys_from_spec() -> bool {
        true
    }

    closed spec fn from_spec(bytes: Vec<u8>) -> RawTask {
        RawTask { bytes }
    }
}

impl From<RawTask> for Vec<u8> {
    fn from(raw: RawTask) -> (v: Vec<u8>)
        ensures
            v@ == raw@,
    {
        raw.bytes
    }
}

impl vstd::std_specs::convert::FromSpecImpl<RawTask> for Vec<u8> {
    open spec fn obeys_from_spec() -> bool {
        true
    }

    closed spec fn from_spec(raw: RawTask) -> Vec<u8> {
        raw.bytes
    }
}

impl From<RawTask> for Task {
    fn from(raw: RawTask) -> (t: Task)
        ensures
            t@ == read_task(raw@, 0).0,
    {
        raw.to_task()
    }
}

impl vstd::std_specs::convert::FromSpecImpl<RawTask> for Task {
    open spec fn obeys_from_spec() -> bool {
        false
    }

    closed spec fn from_spec(raw: RawTask) -> Task {
        choose|t: Task| t@ == read_task(raw@, 0).0
    }
}

impl From<Task> for RawTask {
    fn from(task: Task) -> (r: RawTask)
        ensures
            r@ == encode_ops(task@),
    {
        RawTask::from_task(task)
    }
}

impl vstd::std_specs::convert::FromSpecImpl<Task> for RawTask {
    open spec fn obeys_from_spec() -> bool {
        false
    }

    closed spec fn from_spec(task: Task) -> RawTask {
        choose|r: RawTask| r@ == encode_ops(task@)
    }
}

/// Decoding the encoding of a task gives back its operations.
pub proof fn lemma_task_roundtrip(ops: Seq<Operation>)
    requires
        is_single_task(ops),
    ensures
        read_task(encode_ops(ops), 0).0 == ops,
{
    let b = encode_ops(ops);
    assert(b.subrange(0, b.len() as int) =~= b);
    lemma_read_encoded_task(b, 0, ops);
}

} // verus!
