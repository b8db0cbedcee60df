use bounded_buffer::BoundedBuffer;
use bounded_buffer::BufferError;

#[test]
fn pop_ok() {
    let mut buf: BoundedBuffer<i32> = BoundedBuffer::new(1);
    buf.push(1).unwrap();
    let value: i32 = 1;
    assert_eq!(value, buf.pop().expect("test"));
}

#[test]
fn pop_none() {
    let mut buf: BoundedBuffer<i32> = BoundedBuffer::new(1);
    assert!(buf.pop().is_err());
}

#[test]
fn push_ok() {
    let mut buf = BoundedBuffer::new(1);
    assert!(buf.push(2).is_ok());
}

#[test]
fn push_err() {
    let mut buf = BoundedBuffer::new(1);
    buf.push(2).unwrap();
    assert!(buf.push(3).is_err());
}

#[test]
fn overwrite() {
    let mut buf = BoundedBuffer::new(1);
    buf.push(1).unwrap();
    assert!(buf.push(2).is_err())
}

#[test]
fn empty() {
    let mut buf: BoundedBuffer<i32> = BoundedBuffer::new(1);
    assert!(buf.pop().is_err());
}

#[test]
fn circular() {
    let mut buf = BoundedBuffer::new(3);
    buf.push("hello").unwrap();
    buf.push("to the").unwrap();
    buf.push("world").unwrap();
    buf.pop().unwrap();
    buf.push("again").unwrap();
    let actual = vec!["to the", "world", "again"];
    let mut test = Vec::new();
    for _ in 0..3 {
        test.push(buf.pop().unwrap());
    }
    assert_eq!(actual, test);
}

#[test]
fn fresh_pop_is_empty_error() {
    let mut buf: BoundedBuffer<u64> = BoundedBuffer::new(4);
    assert_eq!(buf.pop(), Err(BufferError::Empty));
}

#[test]
fn alternating_cycles_never_error() {
    let mut buf: BoundedBuffer<usize> = BoundedBuffer::new(5);
    assert_eq!(buf.pop(), Err(BufferError::Empty));
    for k in 0..4 {
        assert_eq!(buf.push(k), Ok(()));
        assert_eq!(buf.pop(), Ok(k));
    }
}

#[test]
fn fill_then_one_more_is_full() {
    let mut buf: BoundedBuffer<i32> = BoundedBuffer::new(3);
    assert_eq!(buf.push(10), Ok(()));
    assert_eq!(buf.push(20), Ok(()));
    assert_eq!(buf.push(30), Ok(()));
    assert_eq!(buf.push(40), Err(BufferError::Full));
}

#[test]
fn fifo_three_in_order() {
    let mut buf = BoundedBuffer::new(3);
    buf.push("a").unwrap();
    buf.push("b").unwrap();
    buf.push("c").unwrap();
    assert_eq!(buf.pop(), Ok("a"));
    assert_eq!(buf.pop(), Ok("b"));
    assert_eq!(buf.pop(), Ok("c"));
    assert_eq!(buf.pop(), Err(BufferError::Empty));
}

#[test]
fn full_push_twice_leaves_contents_unchanged() {
    let mut buf: BoundedBuffer<i32> = BoundedBuffer::new(2);
    buf.push(7).unwrap();
    buf.push(8).unwrap();
    assert_eq!(buf.push(9), Err(BufferError::Full));
    assert_eq!(buf.push(9), Err(BufferError::Full));
    assert_eq!(buf.pop(), Ok(7));
    assert_eq!(buf.pop(), Ok(8));
    assert_eq!(buf.pop(), Err(BufferError::Empty));
}

#[test]
fn capacity_one_push_pop_push() {
    let mut buf = BoundedBuffer::new(1);
    assert_eq!(buf.push("x"), Ok(()));
    assert_eq!(buf.push("y"), Err(BufferError::Full));
    assert_eq!(buf.pop(), Ok("x"));
    assert_eq!(buf.push("z"), Ok(()));
    assert_eq!(buf.pop(), Ok("z"));
}

#[test]
fn wraparound_many_laps() {
    let mut buf: BoundedBuffer<u32> = BoundedBuffer::new(3);
    buf.push(0).unwrap();
    buf.push(1).unwrap();
    for k in 0..20u32 {
        buf.push(k + 2).unwrap();
        assert_eq!(buf.pop(), Ok(k));
    }
    assert_eq!(buf.pop(), Ok(20));
    assert_eq!(buf.pop(), Ok(21));
    assert_eq!(buf.pop(), Err(BufferError::Empty));
}

#[test]
fn equal_items_kept_separate() {
    let mut buf: BoundedBuffer<i32> = BoundedBuffer::new(2);
    buf.push(5).unwrap();
    buf.push(5).unwrap();
    assert_eq!(buf.push(5), Err(BufferError::Full));
    assert_eq!(buf.pop(), Ok(5));
    assert_eq!(buf.pop(), Ok(5));
    assert_eq!(buf.pop(), Err(BufferError::Empty));
}

#[test]
fn failed_pop_does_not_disturb_later_pushes() {
    let mut buf: BoundedBuffer<&str> = BoundedBuffer::new(2);
    assert_eq!(buf.pop(), Err(BufferError::Empty));
    assert_eq!(buf.pop(), Err(BufferError::Empty));
    buf.push("first").unwrap();
    buf.push("second").unwrap();
    assert_eq!(buf.pop(), Ok("first"));
    assert_eq!(buf.pop(), Ok("second"));
}
