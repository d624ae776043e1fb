use ringbuffer::RingBuffer;

fn logical_contents(buf: &RingBuffer<i32>) -> Vec<i32> {
    let mut out = Vec::new();
    let mut it = buf.iter();
    while let Some(x) = it.next() {
        out.push(x);
    }
    out
}

#[test]
fn from_iter() {
    let size1: usize = 7;
    let size2: usize = 9;
    let size3: usize = 3;

    let mut buf1: RingBuffer<i32> = RingBuffer::new_default(size1);
    for i in 0..size1 as i32 {
        buf1.put(i);
    }
    for (i, x) in logical_contents(&buf1).into_iter().enumerate() {
        assert_eq!(i as i32, x);
    }
    let buf2: RingBuffer<i32> = RingBuffer::from_iter(size2, logical_contents(&buf1));
    assert_eq!(buf2.get_oldest(0), 0);
    for i in 0..size1 {
        assert_eq!(buf2.get_newest(i), (size1 - 1 - i) as i32);
    }
    for i in size1..size2 {
        assert_eq!(buf2.get_newest(i), i32::default());
    }

    let buf3: RingBuffer<i32> = RingBuffer::from_iter(size3, logical_contents(&buf2));
    assert_eq!(buf3.get_newest(0), 6);
    assert_eq!(buf3.get_newest(1), 5);
    assert_eq!(buf3.get_newest(2), 4);
}

#[test]
fn bulk_load_short_source_keeps_fill() {
    // source 0..7 into capacity 9: the seven items in order, then fill
    let buf: RingBuffer<i32> = RingBuffer::from_iter(9, vec![0, 1, 2, 3, 4, 5, 6]);
    assert_eq!(logical_contents(&buf), vec![0, 0, 0, 1, 2, 3, 4, 5, 6]);
    let empty: RingBuffer<i32> = RingBuffer::from_iter(4, Vec::new());
    assert_eq!(logical_contents(&empty), vec![0, 0, 0, 0]);
}

#[test]
fn bulk_load_long_source_keeps_tail_only() {
    let from_long: RingBuffer<i32> = RingBuffer::from_iter(3, vec![0, 1, 2, 3, 4, 5, 6]);
    let from_tail: RingBuffer<i32> = RingBuffer::from_iter(3, vec![4, 5, 6]);
    assert_eq!(logical_contents(&from_long), logical_contents(&from_tail));
    assert_eq!(logical_contents(&from_long), vec![4, 5, 6]);
}

#[test]
fn get_owned_takes_and_leaves_default() {
    let mut buf: RingBuffer<i32> = RingBuffer::new(3, 9);
    buf.put(1);
    buf.put(2);
    buf.put(3);
    // a full lap: the cursor is back on slot 0, age equals slot
    assert_eq!(buf.get_owned(1), 2);
    assert_eq!(buf.get_oldest(0), 1);
    assert_eq!(buf.get_oldest(1), 0);
    assert_eq!(buf.get_oldest(2), 3);
    // taking the same offset again yields the default left behind
    assert_eq!(buf.get_owned(1), 0);
}

#[test]
fn get_owned_negative_offset_wraps_without_bias() {
    // capacity 4 is a power of two: the unsigned wrap lands on the last slot
    let mut buf: RingBuffer<i32> = RingBuffer::new_default(4);
    for i in 1..=4 {
        buf.put(i);
    }
    assert_eq!(buf.get_owned(-1), 4);
    // capacity 3 is not: the same offset lands on slot 0 instead of slot 2,
    // the documented boundary behaviour of unbiased signed addressing
    let mut buf: RingBuffer<i32> = RingBuffer::new_default(3);
    for i in 1..=3 {
        buf.put(i);
    }
    assert_eq!(buf.get_owned(-1), 1);
}

#[test]
fn zero_capacity_constructs_and_iterates_empty() {
    let buf: RingBuffer<i32> = RingBuffer::from_iter(0, vec![1, 2, 3]);
    assert_eq!(logical_contents(&buf), Vec::<i32>::new());
    let buf: RingBuffer<i32> = RingBuffer::new(0, 5);
    let mut it = buf.iter();
    assert_eq!(it.size_hint(), (0, Some(0)));
    assert_eq!(it.next(), None);
    assert_eq!(it.next_back(), None);
}
