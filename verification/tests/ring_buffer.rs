use rust_ds_algo::ring_buffer::{RingBuffer, RingBufferError};

const BUFFER_SIZE: usize = 4;

#[derive(Debug, Ord, PartialOrd, Eq, PartialEq)]
struct Test {
    test: usize,
}

#[test]
fn test_push_pop() {
    let mut ring_buffer = RingBuffer::<Test, BUFFER_SIZE>::new();
    let err_empty = ring_buffer.pop();
    assert_eq!(err_empty, Err(RingBufferError::Empty));

    let push_res = ring_buffer.push(Test { test: 0 });
    assert_eq!(push_res, Ok(()));
    let pop_res = ring_buffer.pop();
    match pop_res {
        Ok(Test { test }) => assert_eq!(test, 0),
        _ => panic!("Pop returned {:#?}", pop_res),
    }
    let err_empty = ring_buffer.pop();
    assert_eq!(err_empty, Err(RingBufferError::Empty));

    for i in 0..BUFFER_SIZE {
        let _ = ring_buffer.push(Test { test: i });
    }

    let push_res = ring_buffer.push(Test { test: 5 });
    match push_res {
        Err(RingBufferError::Full) => (),
        _ => panic!("Pop returned {:#?}", pop_res),
    }
    let pop_res = ring_buffer.pop();
    match pop_res {
        Ok(Test { test }) => assert_eq!(test, 0),
        _ => panic!("Pop returned {:#?}", pop_res),
    }
    let pop_res = ring_buffer.pop();
    match pop_res {
        Ok(Test { test }) => assert_eq!(test, 1),
        _ => panic!("Pop returned {:#?}", pop_res),
    }
}

#[test]
fn new_buffer_is_empty_and_not_full() {
    let mut ring = RingBuffer::<u32, 4>::new();
    assert!(ring.empty());
    assert!(!ring.full());
    assert_eq!(ring.pop(), Err(RingBufferError::Empty));
    assert!(ring.empty());
}

#[test]
fn push_one_then_pop_leaves_buffer_empty() {
    let mut ring = RingBuffer::<u32, 4>::new();
    assert_eq!(ring.push(7), Ok(()));
    assert!(!ring.empty());
    assert_eq!(ring.pop(), Ok(7));
    assert!(ring.empty());
    assert_eq!(ring.pop(), Err(RingBufferError::Empty));
}

#[test]
fn fifth_push_fails_and_changes_nothing() {
    let mut ring = RingBuffer::<u32, 4>::new();
    for value in [10, 11, 12, 13] {
        assert_eq!(ring.push(value), Ok(()));
    }
    assert_eq!(ring.push(14), Err(RingBufferError::Full));
    assert_eq!(ring.push(15), Err(RingBufferError::Full));
    assert_eq!(ring.pop(), Ok(10));
    assert_eq!(ring.pop(), Ok(11));
    assert_eq!(ring.pop(), Ok(12));
    assert_eq!(ring.pop(), Ok(13));
    assert_eq!(ring.pop(), Err(RingBufferError::Empty));
}

#[test]
fn full_looks_at_first_and_last_slot_only() {
    let mut ring = RingBuffer::<u32, 4>::new();
    for value in 0..4 {
        assert_eq!(ring.push(value), Ok(()));
    }
    assert!(ring.full());
    assert_eq!(ring.pop(), Ok(0));
    assert!(!ring.full());
}

#[test]
fn full_is_reported_with_room_in_between() {
    // slots 0 and 3 taken, slot 1 free: the buffer still reports full
    let mut ring = RingBuffer::<u32, 4>::new();
    for value in 0..4 {
        assert_eq!(ring.push(value), Ok(()));
    }
    assert_eq!(ring.pop(), Ok(0));
    assert_eq!(ring.push(4), Ok(()));
    assert_eq!(ring.pop(), Ok(1));
    assert!(ring.full());
    assert_eq!(ring.push(5), Err(RingBufferError::Full));
    assert_eq!(ring.pop(), Ok(2));
    assert_eq!(ring.pop(), Ok(3));
    assert!(!ring.full());
    assert_eq!(ring.push(5), Ok(()));
    assert_eq!(ring.pop(), Ok(4));
    assert_eq!(ring.pop(), Ok(5));
    assert_eq!(ring.pop(), Err(RingBufferError::Empty));
}

#[test]
fn values_come_out_in_the_order_they_went_in_across_the_wrap() {
    let mut ring = RingBuffer::<u32, 3>::new();
    let mut next_in = 0;
    let mut next_out = 0;
    for _ in 0..10 {
        assert_eq!(ring.push(next_in), Ok(()));
        next_in += 1;
        assert_eq!(ring.push(next_in), Ok(()));
        next_in += 1;
        assert_eq!(ring.pop(), Ok(next_out));
        next_out += 1;
        assert_eq!(ring.pop(), Ok(next_out));
        next_out += 1;
        assert!(ring.empty());
    }
}

#[test]
fn single_slot_buffer() {
    let mut ring = RingBuffer::<u8, 1>::new();
    assert!(ring.empty());
    assert_eq!(ring.push(1), Ok(()));
    assert!(ring.full());
    assert_eq!(ring.push(2), Err(RingBufferError::Full));
    assert_eq!(ring.pop(), Ok(1));
    assert!(ring.empty());
    assert!(!ring.full());
}

#[test]
fn errors_compare_and_order() {
    assert_ne!(RingBufferError::Full, RingBufferError::Empty);
    assert!(RingBufferError::Full < RingBufferError::Empty);
    assert!(RingBufferError::Empty < RingBufferError::PointerUpdateError);
    assert_eq!(format!("{:?}", RingBufferError::PointerUpdateError), "PointerUpdateError");
}
