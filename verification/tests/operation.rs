use hermes::{Operation, OperationIterator};

fn all_operations() -> Vec<Operation> {
    vec![
        Operation::Undefined, Operation::Return, Operation::Store(7), Operation::Abs, Operation::Acos, Operation::Acosh, Operation::Asin, Operation::Asinh, Operation::Atan, Operation::Atanh, Operation::Cbrt, Operation::Ceil, Operation::Cos,
        Operation::Cosh, Operation::Exp, Operation::Exp2, Operation::ExpM1, Operation::Floor, Operation::Fract, Operation::Ln, Operation::Ln1p, Operation::Log(2.5f64.to_bits()), Operation::Log10, Operation::Log2, Operation::Neg,
        Operation::Pow(2.0f64.to_bits()), Operation::Recip, Operation::Round, Operation::Signum, Operation::Sin, Operation::Sinh, Operation::Sqrt, Operation::Tan, Operation::Tanh, Operation::ToRadians, Operation::Trunc,
        Operation::Add(1, 2), Operation::Atan2(3, 4), Operation::Div(5, 6), Operation::DivEuclid(7, 8), Operation::Hypot(9, 10), Operation::Max(11, 12),
        Operation::Min(13, 14), Operation::Mul(15, 16), Operation::Rem(17, 18), Operation::RemEuclid(19, 20), Operation::Sub(0xFFFF_FFFF, 0x0102_0304),
    ]
}

#[test]
fn every_operation_decodes_back() {
    for op in all_operations() {
        let bytes = op.to_vec();
        assert_eq!(9, bytes.len());
        assert_eq!(op.byte_code(), bytes[0]);
        assert_eq!(op, Operation::from_vec(bytes.clone()));
        assert_eq!(op, Operation::from_bytes(&bytes));
    }
}

#[test]
fn encoding_is_code_then_little_endian_arguments() {
    assert_eq!(vec![0x06, 1, 0, 0, 0, 3, 0, 0, 0], Operation::Add(1, 3).to_vec());
    assert_eq!(vec![0x02, 5, 0, 0, 0, 0, 0, 0, 0], Operation::Store(5).to_vec());
    assert_eq!(vec![0x01, 0, 0, 0, 0, 0, 0, 0, 0], Operation::Return.to_vec());
    assert_eq!(
        vec![0x30, 0x04, 0x03, 0x02, 0x01, 0xFF, 0xFF, 0xFF, 0xFF],
        Operation::Sub(0x0102_0304, 0xFFFF_FFFF).to_vec()
    );
    let pow = Operation::Pow(2.0f64.to_bits()).to_vec();
    assert_eq!(0x2D, pow[0]);
    assert_eq!(&2.0f64.to_le_bytes()[..], &pow[1..9]);
    let log: Vec<u8> = Operation::Log(0.5f64.to_bits()).into();
    assert_eq!(0x27, log[0]);
    assert_eq!(&0.5f64.to_le_bytes()[..], &log[1..9]);
}

#[test]
fn unknown_codes_and_lengths_decode_to_undefined() {
    for code in [0x00u8, 0x1C, 0x2B, 0x31, 0xFF] {
        assert_eq!(Operation::Undefined, Operation::from_bytes(&[code, 1, 2, 3, 4, 5, 6, 7, 8]));
    }
    assert_eq!(Operation::Undefined, Operation::from_vec(vec![0x06; 8]));
    assert_eq!(Operation::Undefined, Operation::from_vec(vec![0x06; 10]));
    let op: Operation = vec![0x03, 9, 9, 9, 9, 9, 9, 9, 9].into();
    assert_eq!(Operation::Abs, op);
}

#[test]
fn fetch_size_of_multiple_and_single_operations() {
    assert_eq!((4, 2), Operation::Mul(4, 2).fetch_size());
    assert_eq!((9, 1), Operation::Hypot(9, 1).fetch_size());
    assert_eq!((0, 0), Operation::Store(4).fetch_size());
    assert_eq!((0, 0), Operation::Pow(1).fetch_size());
    assert_eq!((0, 0), Operation::Sqrt.fetch_size());
}

#[test]
fn byte_codes() {
    assert_eq!(0x00, Operation::Undefined.byte_code());
    assert_eq!(0x1B, Operation::Sin.byte_code());
    assert_eq!(0x1D, Operation::Sinh.byte_code());
    assert_eq!(0x27, Operation::Log(0).byte_code());
    assert_eq!(0x2E, Operation::Rem(0, 0).byte_code());
    assert!(Operation::Return.is_terminal());
    assert!(Operation::Store(1).is_terminal());
    assert!(!Operation::Add(1, 1).is_terminal());
}

#[test]
fn iterator_reads_nine_bytes_at_a_time() {
    let mut bytes = Operation::Add(1, 2).to_vec();
    bytes.extend(Operation::Exp.to_vec());
    bytes.extend([1, 2, 3]);
    let mut it = OperationIterator::new(bytes);
    assert_eq!(Some(Operation::Add(1, 2)), it.next());
    assert_eq!(9, it.position());
    assert_eq!(Some(Operation::Exp), it.next());
    assert_eq!(None, it.next());
    assert_eq!(21, it.position());
    assert_eq!(None, it.next());
}

#[test]
fn array_conversions() {
    let bytes: [u8; 9] = Operation::Div(2, 3).into();
    assert_eq!([0x24, 2, 0, 0, 0, 3, 0, 0, 0], bytes);
    let op: Operation = bytes.into();
    assert_eq!(Operation::Div(2, 3), op);
    let pow: [u8; 9] = Operation::Pow(0.25f64.to_bits()).into();
    assert_eq!(Operation::Pow(0.25f64.to_bits()), Operation::from(pow));
}

#[test]
fn canonical_bytes_reencode_to_themselves() {
    let samples: Vec<[u8; 9]> = vec![
        [0x06, 1, 2, 3, 4, 5, 6, 7, 8],
        [0x02, 9, 8, 7, 6, 0, 0, 0, 0],
        [0x27, 1, 2, 3, 4, 5, 6, 7, 8],
        [0x0F, 0, 0, 0, 0, 0, 0, 0, 0],
    ];
    for bytes in samples {
        let back: [u8; 9] = Operation::from(bytes).into();
        assert_eq!(bytes, back);
    }
    let unknown: [u8; 9] = Operation::from([0x1C, 1, 2, 3, 4, 5, 6, 7, 8]).into();
    assert_eq!([0u8; 9], unknown);
    let not_canonical: [u8; 9] = Operation::from([0x02, 9, 8, 7, 6, 1, 0, 0, 0]).into();
    assert_eq!([0x02, 9, 8, 7, 6, 0, 0, 0, 0], not_canonical);
}
