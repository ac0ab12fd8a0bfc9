use hermes::{Fifo, RawTask, FIFO_CAPACITY};

#[test]
fn head_and_tail() {
    let mut fifo: Fifo<RawTask> = Fifo::default();

    assert!(fifo.pop().is_none());

    let head = fifo.head();
    assert_eq!(0, head);
    assert_eq!(0, fifo.tail());

    (0..FIFO_CAPACITY - 1).for_each(|_| {
        fifo.push(b"Some data".to_vec().into());
    });

    let head = fifo.head();
    assert_eq!(0, head);
    assert_eq!(FIFO_CAPACITY - 1, fifo.tail() as usize);

    fifo.push(b"Some data".to_vec().into());
    let head = fifo.head();
    assert_eq!(0, head);
    assert_eq!(0, fifo.tail());

    (0..10).for_each(|_| {
        fifo.pop();
    });
    let head = fifo.head();
    assert_eq!(10, head);
    assert_eq!(0, fifo.tail());

    (0..5).for_each(|_| {
        fifo.push(b"Some data".to_vec().into());
    });
    let head = fifo.head();
    assert_eq!(10, head);
    assert_eq!(5, fifo.tail());
}

#[test]
fn queue_push_pop() {
    let mut fifo: Fifo<RawTask> = Fifo::default();

    let input = (0..256)
        .map(|i| format!("Data {:06}", i))
        .collect::<Vec<String>>();

    for s in input.clone() {
        fifo.push(s.into_bytes().into());
    }

    assert!(fifo
        .push(format!("Data overflow").into_bytes().into())
        .is_some());

    let mut result = vec![];
    while let Some(data) = fifo.pop() {
        let bytes: Vec<u8> = data.into();
        result.push(String::from_utf8(bytes).unwrap());
    }

    result.sort();
    assert_eq!(input, result);
}

#[test]
fn fifo_hands_items_out_in_push_order() {
    let mut fifo: Fifo<u32> = Fifo::new();
    for i in 0..100u32 {
        assert_eq!(None, fifo.push(i));
    }
    assert_eq!(100, fifo.len());
    for i in 0..100u32 {
        assert_eq!(Some(i), fifo.pop());
    }
    assert!(fifo.is_empty());
    assert_eq!(None, fifo.pop());
}

#[test]
fn full_fifo_returns_the_refused_item() {
    let mut fifo: Fifo<u32> = Fifo::new();
    for i in 0..FIFO_CAPACITY as u32 {
        assert_eq!(None, fifo.push(i));
    }
    assert!(fifo.is_full());
    assert_eq!(Some(7777), fifo.push(7777));
    assert_eq!(FIFO_CAPACITY, fifo.len());
    assert_eq!(0, fifo.tail());
    assert_eq!(Some(0), fifo.pop());
    assert_eq!(1, fifo.head());
    assert_eq!(None, fifo.push(9));
    assert_eq!(1, fifo.tail());
}

#[test]
fn fifo_wraps_around_the_ring() {
    let mut fifo: Fifo<usize> = Fifo::new();
    for round in 0..3 * FIFO_CAPACITY {
        assert_eq!(None, fifo.push(round));
        assert_eq!(Some(round), fifo.pop());
    }
    assert_eq!(fifo.head(), fifo.tail());
    assert!(fifo.is_empty());
}

#[test]
fn push_then_pop_commute_on_a_partial_queue() {
    let mut a: Fifo<u8> = Fifo::new();
    let mut b: Fifo<u8> = Fifo::new();
    for x in [1u8, 2, 3] {
        a.push(x);
        b.push(x);
    }
    a.push(4);
    let from_a = a.pop();
    let from_b = b.pop();
    b.push(4);
    assert_eq!(from_a, from_b);
    let rest_a: Vec<u8> = std::iter::from_fn(|| a.pop()).collect();
    let rest_b: Vec<u8> = std::iter::from_fn(|| b.pop()).collect();
    assert_eq!(rest_a, rest_b);
    assert_eq!(vec![2, 3, 4], rest_a);
}
