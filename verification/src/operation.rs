use vstd::prelude::*;
use vstd::bytes::{
    spec_u32_from_le_bytes, spec_u32_to_le_bytes, spec_u64_from_le_bytes, spec_u64_to_le_bytes,
};

verus! {

/// Length in bytes of one encoded operation: a code byte and two
/// little-endian 32-bit arguments.
pub const OPERATION_SIZE: usize = 9;

/// One instruction of a task.
///
/// `Log` and `Pow` carry a floating-point argument; the library holds it as
/// the 64 bits of its IEEE 754 representation (`f64::to_bits`). The
/// multiple-argument operations (`Add` .. `Sub`) carry the lane they fetch
/// from and the number of items they fetch. Two operations are equal when
/// their fields are, so the double arguments compare bit for bit: a NaN
/// argument equals itself, and `0.0` differs from `-0.0`.
#[derive(Debug, Clone, Copy, PartialEq, Eq, Structural)]
pub enum Operation {
    Undefined,
    Return,
    Store(u32),
    Abs,
    Acos,
    Acosh,
    Asin,
    Asinh,
    Atan,
    Atanh,
    Cbrt,
    Ceil,
    Cos,
    Cosh,
    Exp,
    Exp2,
    ExpM1,
    Floor,
    Fract,
    Ln,
    Ln1p,
    Log(u64),
    Log10,
    Log2,
    Neg,
    Pow(u64),
    Recip,
    Round,
    Signum,
    Sin,
    Sinh,
    Sqrt,
    Tan,
    Tanh,
    ToRadians,
    Trunc,
    Add(u32, u32),
    Atan2(u32, u32),
    Div(u32, u32),
    DivEuclid(u32, u32),
    Hypot(u32, u32),
    Max(u32, u32),
    Min(u32, u32),
    Mul(u32, u32),
    Rem(u32, u32),
    RemEuclid(u32, u32),
    Sub(u32, u32),
}

/// The code byte of each operation.
pub open spec fn code_of(op: Operation) -> u8 {
    match op {
        Operation::Undefined => 0x00,
        Operation::Return => 0x01,
        Operation::Store(_) => 0x02,
        Operation::Abs => 0x03,
        Operation::Acos => 0x04,
        Operation::Acosh => 0x05,
        Operation::Asin => 0x07,
        Operation::Asinh => 0x08,
        Operation::Atan => 0x09,
        Operation::Atanh => 0x0A,
        Operation::Cbrt => 0x0B,
        Operation::Ceil => 0x0C,
        Operation::Cos => 0x0D,
        Operation::Cosh => 0x0E,
        Operation::Exp => 0x0F,
        Operation::Exp2 => 0x10,
        Operation::ExpM1 => 0x11,
        Operation::Floor => 0x12,
        Operation::Fract => 0x13,
        Operation::Ln => 0x14,
        Operation::Ln1p => 0x15,
        Operation::Log(_) => 0x27,
        Operation::Log10 => 0x16,
        Operation::Log2 => 0x17,
        Operation::Neg => 0x2C,
        Operation::Pow(_) => 0x2D,
        Operation::Recip => 0x18,
        Operation::Round => 0x19,
        Operation::Signum => 0x1A,
        Operation::Sin => 0x1B,
        Operation::Sinh => 0x1D,
        Operation::Sqrt => 0x1E,
        Operation::Tan => 0x1F,
        Operation::Tanh => 0x20,
        Operation::ToRadians => 0x21,
        Operation::Trunc => 0x22,
        Operation::Add(_, _) => 0x06,
        Operation::Atan2(_, _) => 0x23,
        Operation::Div(_, _) => 0x24,
        Operation::DivEuclid(_, _) => 0x25,
        Operation::Hypot(_, _) => 0x26,
        Operation::Max(_, _) => 0x28,
        Operation::Min(_, _) => 0x29,
        Operation::Mul(_, _) => 0x2A,
        Operation::Rem(_, _) => 0x2E,
        Operation::RemEuclid(_, _) => 0x2F,
        Operation::Sub(_, _) => 0x30,
    }
}

/// The lane and item count of a multiple-argument operation; `(0, 0)` for
/// every other operation.
pub open spec fn fetch_size_of(op: Operation) -> (u32, u32) {
    match op {
        Operation::Add(l, s) => (l, s),
        Operation::Atan2(l, s) => (l, s),
        Operation::Div(l, s) => (l, s),
        Operation::DivEuclid(l, s) => (l, s),
        Operation::Hypot(l, s) => (l, s),
        Operation::Max(l, s) => (l, s),
        Operation::Min(l, s) => (l, s),
        Operation::Mul(l, s) => (l, s),
        Operation::Rem(l, s) => (l, s),
        Operation::RemEuclid(l, s) => (l, s),
        Operation::Sub(l, s) => (l, s),
        _ => (0, 0),
    }
}

/// The multiple-argument operations, which fetch their input from a lane.
pub open spec fn is_multiple(op: Operation) -> bool {
    ||| op is Add
    ||| op is Atan2
    ||| op is Div
    ||| op is DivEuclid
    ||| op is Hypot
    ||| op is Max
    ||| op is Min
    ||| op is Mul
    ||| op is Rem
    ||| op is RemEuclid
    ||| op is Sub
}

/// Four zero bytes.
pub open spec fn zero_word() -> Seq<u8> {
    seq![0u8, 0u8, 0u8, 0u8]
}

/// The eight argument bytes of an encoded operation: the double of `Log`
/// and `Pow`; the lane of `Store` and a zero word; the lane and item count of
/// a multiple-argument operation; zeros for any other operation.
pub open spec fn args_of(op: Operation) -> Seq<u8> {
    match op {
        Operation::Log(f) => spec_u64_to_le_bytes(f),
        Operation::Pow(f) => spec_u64_to_le_bytes(f),
        Operation::Store(a) => spec_u32_to_le_bytes(a) + zero_word(),
        _ => if is_multiple(op) {
            spec_u32_to_le_bytes(fetch_size_of(op).0) + spec_u32_to_le_bytes(fetch_size_of(op).1)
        } else {
            zero_word() + zero_word()
        },
    }
}

/// The nine bytes that encode `op`.
pub open spec fn encode(op: Operation) -> Seq<u8> {
    seq![code_of(op)] + args_of(op)
}

/// The operation that a code byte stands for, given the two 32-bit arguments
/// `a` and `b` and the 64 bits `f` that the same eight argument bytes hold.
/// An unknown code stands for `Undefined`.
pub open spec fn op_from_parts(c: u8, a: u32, b: u32, f: u64) -> Operation {
    if c == 0x01 {
        Operation::Return
    } else if c == 0x02 {
        Operation::Store(a)
    } else if c == 0x03 {
        Operation::Abs
    } else if c == 0x04 {
        Operation::Acos
    } else if c == 0x05 {
        Operation::Acosh
    } else if c == 0x07 {
        Operation::Asin
    } else if c == 0x08 {
        Operation::Asinh
    } else if c == 0x09 {
        Operation::Atan
    } else if c == 0x0A {
        Operation::Atanh
    } else if c == 0x0B {
        Operation::Cbrt
    } else if c == 0x0C {
        Operation::Ceil
    } else if c == 0x0D {
        Operation::Cos
    } else if c == 0x0E {
        Operation::Cosh
    } else if c == 0x0F {
        Operation::Exp
    } else if c == 0x10 {
        Operation::Exp2
    } else if c == 0x11 {
        Operation::ExpM1
    } else if c == 0x12 {
        Operation::Floor
    } else if c == 0x13 {
        Operation::Fract
    } else if c == 0x14 {
        Operation::Ln
    } else if c == 0x15 {
        Operation::Ln1p
    } else if c == 0x27 {
        Operation::Log(f)
    } else if c == 0x16 {
        Operation::Log10
    } else if c == 0x17 {
        Operation::Log2
    } else if c == 0x2C {
        Operation::Neg
    } else if c == 0x2D {
        Operation::Pow(f)
    } else if c == 0x18 {
        Operation::Recip
    } else if c == 0x19 {
        Operation::Round
    } else if c == 0x1A {
        Operation::Signum
    } else if c == 0x1B {
        Operation::Sin
    } else if c == 0x1D {
        Operation::Sinh
    } else if c == 0x1E {
        Operation::Sqrt
    } else if c == 0x1F {
        Operation::Tan
    } else if c == 0x20 {
        Operation::Tanh
    } else if c == 0x21 {
        Operation::ToRadians
    } else if c == 0x22 {
        Operation::Trunc
    } else if c == 0x06 {
        Operation::Add(a, b)
    } else if c == 0x23 {
        Operation::Atan2(a, b)
    } else if c == 0x24 {
        Operation::Div(a, b)
    } else if c == 0x25 {
        Operation::DivEuclid(a, b)
    } else if c == 0x26 {
        Operation::Hypot(a, b)
    } else if c == 0x28 {
        Operation::Max(a, b)
    } else if c == 0x29 {
        Operation::Min(a, b)
    } else if c == 0x2A {
        Operation::Mul(a, b)
    } else if c == 0x2E {
        Operation::Rem(a, b)
    } else if c == 0x2F {
        Operation::RemEuclid(a, b)
    } else if c == 0x30 {
        Operation::Sub(a, b)
    } else {
        Operation::Undefined
    }
}

/// The operation that nine bytes encode.
pub open spec fn decode(s: Seq<u8>) -> Operation
    recommends
        s.len() == OPERATION_SIZE,
{
    op_from_parts(
        s[0],
        spec_u32_from_le_bytes(s.subrange(1, 5)),
        spec_u32_from_le_bytes(s.subrange(5, 9)),
        spec_u64_from_le_bytes(s.subrange(1, 9)),
    )
}

/// The operations that end a task: the result is either returned or
/// stored to a lane.
pub open spec fn is_terminal(op: Operation) -> bool {
    op is Return || op is Store
}

/// Every operation is encoded in nine bytes.
pub proof fn lemma_encode_len(op: Operation)
    ensures
        encode(op).len() == OPERATION_SIZE,
{
    vstd::bytes::lemma_auto_spec_u32_to_from_le_bytes();
    vstd::bytes::lemma_auto_spec_u64_to_from_le_bytes();
}

/// Decoding the encoding of an operation gives the operation back.
pub proof fn lemma_decode_encode(op: Operation)
    ensures
        decode(encode(op)) == op,
{
    vstd::bytes::lemma_auto_spec_u32_to_from_le_bytes();
    vstd::bytes::lemma_auto_spec_u64_to_from_le_bytes();
    let e = encode(op);
    let args = args_of(op);
    assert(e.subrange(1, 9) =~= args);
    match op {
        Operation::Log(f) => {
            assert(spec_u64_from_le_bytes(e.subrange(1, 9)) == f);
        },
        Operation::Pow(f) => {
            assert(spec_u64_from_le_bytes(e.subrange(1, 9)) == f);
        },
        Operation::Store(a) => {
            assert(e.subrange(1, 5) =~= spec_u32_to_le_bytes(a));
        },
        _ => {
            if is_multiple(op) {
                let (x, y) = fetch_size_of(op);
                assert(args == spec_u32_to_le_bytes(x) + spec_u32_to_le_bytes(y));
                assert(e.subrange(1, 5) =~= spec_u32_to_le_bytes(x));
                assert(e.subrange(5, 9) =~= spec_u32_to_le_bytes(y));
            }
        },
    }
}

/// Nine bytes in the form that `encode` writes: a known code, and zero in
/// every argument byte that the operation does not use.
pub open spec fn is_canonical(s: Seq<u8>) -> bool {
    &&& s.len() == OPERATION_SIZE
    &&& !(decode(s) is Undefined)
    &&& (decode(s) is Store ==> s.subrange(5, 9) == zero_word())
    &&& (!(decode(s) is Store) && !(decode(s) is Log) && !(decode(s) is Pow) && !is_multiple(
        decode(s),
    ) ==> s.subrange(1, 9) == zero_word() + zero_word())
}

/// Bytes in the form that `encode` writes decode and re-encode to themselves.
pub proof fn lemma_canonical_fixed_point(s: Seq<u8>)
    requires
        is_canonical(s),
    ensures
        encode(decode(s)) == s,
{
    vstd::bytes::lemma_auto_spec_u32_to_from_le_bytes();
    vstd::bytes::lemma_auto_spec_u64_to_from_le_bytes();
    let op = decode(s);
    assert(code_of(op) == s[0]);
    let a = s.subrange(1, 5);
    let b = s.subrange(5, 9);
    assert(s.subrange(1, 9) =~= a + b);
    assert(spec_u32_to_le_bytes(spec_u32_from_le_bytes(a)) == a);
    assert(spec_u32_to_le_bytes(spec_u32_from_le_bytes(b)) == b);
    assert(spec_u64_to_le_bytes(spec_u64_from_le_bytes(s.subrange(1, 9))) == s.subrange(1, 9));
    assert(args_of(op) == s.subrange(1, 9));
    assert(encode(op) =~= s);
}

/// Bytes whose code is unknown decode to `Undefined`, which re-encodes to
/// nine zero bytes.
pub proof fn lemma_unknown_code_reencodes_to_zeros(s: Seq<u8>)
    requires
        s.len() == OPERATION_SIZE,
        decode(s) is Undefined,
    ensures
        encode(decode(s)) == Seq::new(9, |i: int| 0u8),
{
    assert(encode(decode(s)) =~= Seq::new(9, |i: int| 0u8));
}

/// The code byte of every operation, as the program format fixes it.
pub proof fn lemma_code_table()
    ensures
        code_of(Operation::Undefined) == 0x00,
        code_of(Operation::Return) == 0x01,
        forall|a: u32| #[trigger] code_of(Operation::Store(a)) == 0x02,
        code_of(Operation::Abs) == 0x03,
        code_of(Operation::Acos) == 0x04,
        code_of(Operation::Acosh) == 0x05,
        code_of(Operation::Asin) == 0x07,
        code_of(Operation::Asinh) == 0x08,
        code_of(Operation::Atan) == 0x09,
        code_of(Operation::Atanh) == 0x0A,
        code_of(Operation::Cbrt) == 0x0B,
        code_of(Operation::Ceil) == 0x0C,
        code_of(Operation::Cos) == 0x0D,
        code_of(Operation::Cosh) == 0x0E,
        code_of(Operation::Exp) == 0x0F,
        code_of(Operation::Exp2) == 0x10,
        code_of(Operation::ExpM1) == 0x11,
        code_of(Operation::Floor) == 0x12,
        code_of(Operation::Fract) == 0x13,
        code_of(Operation::Ln) == 0x14,
        code_of(Operation::Ln1p) == 0x15,
        forall|f: u64| #[trigger] code_of(Operation::Log(f)) == 0x27,
        code_of(Operation::Log10) == 0x16,
        code_of(Operation::Log2) == 0x17,
        code_of(Operation::Neg) == 0x2C,
        forall|f: u64| #[trigger] code_of(Operation::Pow(f)) == 0x2D,
        code_of(Operation::Recip) == 0x18,
        code_of(Operation::Round) == 0x19,
        code_of(Operation::Signum) == 0x1A,
        code_of(Operation::Sin) == 0x1B,
        code_of(Operation::Sinh) == 0x1D,
        code_of(Operation::Sqrt) == 0x1E,
        code_of(Operation::Tan) == 0x1F,
        code_of(Operation::Tanh) == 0x20,
        code_of(Operation::ToRadians) == 0x21,
        code_of(Operation::Trunc) == 0x22,
        forall|a: u32, b: u32| #[trigger] code_of(Operation::Add(a, b)) == 0x06,
        forall|a: u32, b: u32| #[trigger] code_of(Operation::Atan2(a, b)) == 0x23,
        forall|a: u32, b: u32| #[trigger] code_of(Operation::Div(a, b)) == 0x24,
        forall|a: u32, b: u32| #[trigger] code_of(Operation::DivEuclid(a, b)) == 0x25,
        forall|a: u32, b: u32| #[trigger] code_of(Operation::Hypot(a, b)) == 0x26,
        forall|a: u32, b: u32| #[trigger] code_of(Operation::Max(a, b)) == 0x28,
        forall|a: u32, b: u32| #[trigger] code_of(Operation::Min(a, b)) == 0x29,
        forall|a: u32, b: u32| #[trigger] code_of(Operation::Mul(a, b)) == 0x2A,
        forall|a: u32, b: u32| #[trigger] code_of(Operation::Rem(a, b)) == 0x2E,
        forall|a: u32, b: u32| #[trigger] code_of(Operation::RemEuclid(a, b)) == 0x2F,
        forall|a: u32, b: u32| #[trigger] code_of(Operation::Sub(a, b)) == 0x30,
{
}

/// Decoding reads the operation from the code byte: unless the code is
/// unknown, the decoded operation has the code that the bytes start with.
pub proof fn lemma_decode_keeps_code(s: Seq<u8>)
    requires
        s.len() == OPERATION_SIZE,
        !(decode(s) is Undefined),
    ensures
        code_of(decode(s)) == s[0],
{
}

/// The code byte is the first byte of the encoding.
pub proof fn lemma_code_is_first_byte(op: Operation)
    ensures
        encode(op)[0] == code_of(op),
{
}

/// `n` zero bytes.
fn zero_bytes(n: usize) -> (v: Vec<u8>)
    ensures
        v@ == Seq::new(n as nat, |i: int| 0u8),
{
    let mut v: Vec<u8> = Vec::new();
    while v.len() < n
        invariant
            v@.len() <= n,
            v@ == Seq::new(v@.len(), |i: int| 0u8),
        decreases n - v@.len(),
    {
        v.push(0);
        assert(v@ =~= Seq::new(v@.len(), |i: int| 0u8));
    }
    v
}

impl Operation {
    /// The nine bytes that encode this operation.
    pub fn to_vec(self) -> (v: Vec<u8>)
        ensures
            v@ == encode(self),
            v@.len() == OPERATION_SIZE,
    {
        proof {
            lemma_encode_len(self);
        }
        let mut v: Vec<u8> = Vec::new();
        v.push(self.byte_code());
        let mut args = match self {
            Operation::Log(f) => vstd::bytes::u64_to_le_bytes(f),
            Operation::Pow(f) => vstd::bytes::u64_to_le_bytes(f),
            Operation::Store(a) => {
                let mut low = vstd::bytes::u32_to_le_bytes(a);
                let mut high = zero_bytes(4);
                low.append(&mut high);
                low
            },
            Operation::Add(l, s) | Operation::Atan2(l, s) | Operation::Div(l, s)
            | Operation::DivEuclid(l, s) | Operation::Hypot(l, s) | Operation::Max(l, s)
            | Operation::Min(l, s) | Operation::Mul(l, s) | Operation::Rem(l, s)
            | Operation::RemEuclid(l, s) | Operation::Sub(l, s) => {
                let mut low = vstd::bytes::u32_to_le_bytes(l);
                let mut high = vstd::bytes::u32_to_le_bytes(s);
                low.append(&mut high);
                low
            },
            _ => zero_bytes(8),
        };
        assert(zero_word() =~= Seq::new(4, |i: int| 0u8));
        assert(zero_word() + zero_word() =~= Seq::new(8, |i: int| 0u8));
        v.append(&mut args);
        assert(v@ =~= encode(self));
        v
    }

    /// The lane and item count of a multiple-argument operation, `(0, 0)` for
    /// any other.
    pub fn fetch_size(&self) -> (r: (u32, u32))
        ensures
            r == fetch_size_of(*self),
    {
        match self {
            Operation::Add(l, s) => (*l, *s),
            Operation::Atan2(l, s) => (*l, *s),
            Operation::Div(l, s) => (*l, *s),
            Operation::DivEuclid(l, s) => (*l, *s),
            Operation::Hypot(l, s) => (*l, *s),
            Operation::Max(l, s) => (*l, *s),
            Operation::Min(l, s) => (*l, *s),
            Operation::Mul(l, s) => (*l, *s),
            Operation::Rem(l, s) => (*l, *s),
            Operation::RemEuclid(l, s) => (*l, *s),
            Operation::Sub(l, s) => (*l, *s),
            _ => (0, 0),
        }
    }

    /// The code byte of this operation.
    pub fn byte_code(&self) -> (c: u8)
        ensures
            c == code_of(*self),
    {
        match self {
            Operation::Undefined => 0x00,
            Operation::Return => 0x01,
            Operation::Store(_) => 0x02,
            Operation::Abs => 0x03,
            Operation::Acos => 0x04,
            Operation::Acosh => 0x05,
            Operation::Asin => 0x07,
            Operation::Asinh => 0x08,
            Operation::Atan => 0x09,
            Operation::Atanh => 0x0A,
            Operation::Cbrt => 0x0B,
            Operation::Ceil => 0x0C,
            Operation::Cos => 0x0D,
            Operation::Cosh => 0x0E,
            Operation::Exp => 0x0F,
            Operation::Exp2 => 0x10,
            Operation::ExpM1 => 0x11,
            Operation::Floor => 0x12,
            Operation::Fract => 0x13,
            Operation::Ln => 0x14,
            Operation::Ln1p => 0x15,
            Operation::Log(_) => 0x27,
            Operation::Log10 => 0x16,
            Operation::Log2 => 0x17,
            Operation::Neg => 0x2C,
            Operation::Pow(_) => 0x2D,
            Operation::Recip => 0x18,
            Operation::Round => 0x19,
            Operation::Signum => 0x1A,
            Operation::Sin => 0x1B,
            Operation::Sinh => 0x1D,
            Operation::Sqrt => 0x1E,
            Operation::Tan => 0x1F,
            Operation::Tanh => 0x20,
            Operation::ToRadians => 0x21,
            Operation::Trunc => 0x22,
            Operation::Add(_, _) => 0x06,
            Operation::Atan2(_, _) => 0x23,
            Operation::Div(_, _) => 0x24,
            Operation::DivEuclid(_, _) => 0x25,
            Operation::Hypot(_, _) => 0x26,
            Operation::Max(_, _) => 0x28,
            Operation::Min(_, _) => 0x29,
            Operation::Mul(_, _) => 0x2A,
            Operation::Rem(_, _) => 0x2E,
            Operation::RemEuclid(_, _) => 0x2F,
            Operation::Sub(_, _) => 0x30,
        }
    }

    /// Whether this operation ends a task (`Return` or `Store`).
    pub fn is_terminal(&self) -> (b: bool)
        ensures
            b == is_terminal(*self),
    {
        match self {
            Operation::Return => true,
            Operation::Store(_) => true,
            _ => false,
        }
    }

    /// The operation that a code byte and its argument fields stand for.
    fn from_parts(c: u8, a: u32, b: u32, f: u64) -> (op: Operation)
        ensures
            op == op_from_parts(c, a, b, f),
    {
        match c {
            0x01 => Operation::Return,
            0x02 => Operation::Store(a),
            0x03 => Operation::Abs,
            0x04 => Operation::Acos,
            0x05 => Operation::Acosh,
            0x07 => Operation::Asin,
            0x08 => Operation::Asinh,
            0x09 => Operation::Atan,
            0x0A => Operation::Atanh,
            0x0B => Operation::Cbrt,
            0x0C => Operation::Ceil,
            0x0D => Operation::Cos,
            0x0E => Operation::Cosh,
            0x0F => Operation::Exp,
            0x10 => Operation::Exp2,
            0x11 => Operation::ExpM1,
            0x12 => Operation::Floor,
            0x13 => Operation::Fract,
            0x14 => Operation::Ln,
            0x15 => Operation::Ln1p,
            0x27 => Operation::Log(f),
            0x16 => Operation::Log10,
            0x17 => Operation::Log2,
            0x2C => Operation::Neg,
            0x2D => Operation::Pow(f),
            0x18 => Operation::Recip,
            0x19 => Operation::Round,
            0x1A => Operation::Signum,
            0x1B => Operation::Sin,
            0x1D => Operation::Sinh,
            0x1E => Operation::Sqrt,
            0x1F => Operation::Tan,
            0x20 => Operation::Tanh,
            0x21 => Operation::ToRadians,
            0x22 => Operation::Trunc,
            0x06 => Operation::Add(a, b),
            0x23 => Operation::Atan2(a, b),
            0x24 => Operation::Div(a, b),
            0x25 => Operation::DivEuclid(a, b),
            0x26 => Operation::Hypot(a, b),
            0x28 => Operation::Max(a, b),
            0x29 => Operation::Min(a, b),
            0x2A => Operation::Mul(a, b),
            0x2E => Operation::Rem(a, b),
            0x2F => Operation::RemEuclid(a, b),
            0x30 => Operation::Sub(a, b),
            _ => Operation::Undefined,
        }
    }

    /// The operation that nine bytes encode.
    pub fn from_bytes(bytes: &[u8]) -> (op: Operation)
        requires
            bytes@.len() == OPERATION_SIZE,
        ensures
            op == decode(bytes@),
    {
        let a = vstd::bytes::u32_from_le_bytes(vstd::slice::slice_subrange(bytes, 1, 5));
        let b = vstd::bytes::u32_from_le_bytes(vstd::slice::slice_subrange(bytes, 5, 9));
        let f = vstd::bytes::u64_from_le_bytes(vstd::slice::slice_subrange(bytes, 1, 9));
        Operation::from_parts(bytes[0], a, b, f)
    }

    /// The operation that a byte vector encodes; a vector whose length is
    /// not nine stands for `Undefined`.
    pub fn from_vec(bytes: Vec<u8>) -> (op: Operation)
        ensures
            op == if bytes@.len() == OPERATION_SIZE {
                decode(bytes@)
            } else {
                Operation::Undefined
            },
    {
        if bytes.len() != OPERATION_SIZE {
            Operation::Undefined
        } else {
            Operation::from_bytes(bytes.as_slice())
        }
    }
}

impl From<Vec<u8>> for Operation {
    fn from(bytes: Vec<u8>) -> (op: Operation)
        ensures
            op == if bytes@.len() == OPERATION_SIZE {
                decode(bytes@)
            } else {
                Operation::Undefined
            },
    {
        Operation::from_vec(bytes)
    }
}

impl vstd::std_specs::convert::FromSpecImpl<Vec<u8>> for Operation {
    open spec fn obeys_from_spec() -> bool {
        true
    }

    open spec fn from_spec(bytes: Vec<u8>) -> Operation {
        if bytes@.len() == OPERATION_SIZE {
            decode(bytes@)
        } else {
            Operation::Undefined
        }
    }
}

impl From<[u8; 9]> for Operation {
    fn from(bytes: [u8; 9]) -> (op: Operation)
        ensures
            op == decode(bytes@),
    {
        Operation::from_bytes(vstd::array::array_as_slice(&bytes))
    }
}

impl vstd::std_specs::convert::FromSpecImpl<[u8; 9]> for Operation {
    open spec fn obeys_from_spec() -> bool {
        true
    }

    open spec fn from_spec(bytes: [u8; 9]) -> Operation {
        decode(bytes@)
    }
}

impl From<Operation> for [u8; 9] {
    fn from(op: Operation) -> (bytes: [u8; 9])
        ensures
            bytes@ == encode(op),
    {
        let v = op.to_vec();
        let mut bytes = [0u8; 9];
        let mut i: usize = 0;
        while i < OPERATION_SIZE
            invariant
                i <= OPERATION_SIZE,
                v@.len() == OPERATION_SIZE,
                bytes@.len() == OPERATION_SIZE,
                forall|j: int| 0 <= j < i ==> bytes@[j] == v@[j],
            decreases OPERATION_SIZE - i,
        {
            bytes[i] = v[i];
            i = i + 1;
        }
        assert(bytes@ =~= v@);
        bytes
    }
}

impl vstd::std_specs::convert::FromSpecImpl<Operation> for [u8; 9] {
    open spec fn obeys_from_spec() -> bool {
        false
    }

    closed spec fn from_spec(op: Operation) -> [u8; 9] {
        choose|bytes: [u8; 9]| bytes@ == encode(op)
    }
}

impl From<Operation> for Vec<u8> {
    fn from(op: Operation) -> (v: Vec<u8>)
        ensures
            v@ == encode(op),
    {
        op.to_vec()
    }
}

impl vstd::std_specs::convert::FromSpecImpl<Operation> for Vec<u8> {
    open spec fn obeys_from_spec() -> bool {
        false
    }

    closed spec fn from_spec(op: Operation) -> Vec<u8> {
        choose|v: Vec<u8>| v@ == encode(op)
    }
}

/// Reads operations, nine bytes at a time, from a program held in memory.
pub struct OperationIterator {
    reader: Vec<u8>,
    pos: usize,
}

/// The operation read from `bytes` at `pos` and the position after it;
/// `None` when fewer than nine bytes are left, in which case the reader is
/// exhausted.
pub open spec fn read_op(bytes: Seq<u8>, pos: int) -> (Option<Operation>, int) {
    if pos + OPERATION_SIZE <= bytes.len() {
        (Some(decode(bytes.subrange(pos, pos + OPERATION_SIZE))), pos + OPERATION_SIZE)
    } else {
        (None, bytes.len() as int)
    }
}

impl OperationIterator {
    /// The bytes that the iterator reads.
    pub closed spec fn bytes(&self) -> Seq<u8> {
        self.reader@
    }

    /// The position of the next byte to read.
    pub closed spec fn pos(&self) -> int {
        self.pos as int
    }

    /// The position never passes the end of the bytes.
    pub closed spec fn wf(&self) -> bool {
        self.pos <= self.reader@.len()
    }

    /// The position of a consistent iterator lies within its bytes.
    pub proof fn lemma_wf(&self)
        requires
            self.wf(),
        ensures
            0 <= self.pos() <= self.bytes().len(),
    {
    }

    /// An iterator that reads `reader` from its first byte.
    pub fn new(reader: Vec<u8>) -> (it: Self)
        ensures
            it.wf(),
            it.bytes() == reader@,
            it.pos() == 0,
    {
        OperationIterator { reader, pos: 0 }
    }

    /// An iterator that reads `reader` from byte `pos` on.
    pub fn starting_at(reader: Vec<u8>, pos: usize) -> (it: Self)
        requires
            pos <= reader@.len(),
        ensures
            it.wf(),
            it.bytes() == reader@,
            it.pos() == pos,
    {
        OperationIterator { reader, pos }
    }

    /// The position of the next byte to read.
    pub fn position(&self) -> (p: usize)
        ensures
            p == self.pos(),
    {
        self.pos
    }

    /// The next operation, or `None` when fewer than nine bytes are left.
    pub fn next(&mut self) -> (op: Option<Operation>)
        requires
            old(self).wf(),
        ensures
            final(self).wf(),
            final(self).bytes() == old(self).bytes(),
            (op, final(self).pos()) == read_op(old(self).bytes(), old(self).pos()),
    {
        let len = self.reader.len();
        if len - self.pos < OPERATION_SIZE {
            self.pos = len;
            return None;
        }
        let start = self.pos;
        let op = Operation::from_bytes(
            vstd::slice::slice_subrange(self.reader.as_slice(), start, start + OPERATION_SIZE),
        );
        self.pos = start + OPERATION_SIZE;
        Some(op)
    }
}

} // verus!
