use ringbuffer::RingBuffer;

fn sizes() -> Vec<usize> {
    vec![0, 1, 2, 3, 4, 5, 6, 7, 8, 9, 10, 11, 12, 13, 14, 15, 16, 17, 31, 32, 33, 64]
}

fn filled(size: usize, offset: usize) -> RingBuffer<i32> {
    let mut buf: RingBuffer<i32> = RingBuffer::new_default(size);
    for i in 0..(size + offset) as i32 {
        buf.put(i);
    }
    buf
}

#[test]
fn into_iterator() {
    fn t(size: usize) {
        for offset in 0..size {
            let buf = filled(size, offset);
            let mut it = buf.into_iter();
            let mut i = 0usize;
            while let Some(x) = it.next() {
                assert_eq!((i + offset) as i32, x);
                i += 1;
            }
            assert_eq!(i, size);
        }
    }
    for size in sizes() {
        t(size);
    }
}

#[test]
fn into_back() {
    fn t(size: usize) {
        for offset in 0..size {
            let buf = filled(size, offset);
            let mut it = buf.into_iter();
            let mut i = 0usize;
            while let Some(x) = it.next_back() {
                assert_eq!((size + offset - 1 - i) as i32, x);
                i += 1;
            }
            assert_eq!(i, size);
        }
    }
    for size in sizes() {
        t(size);
    }
}

#[test]
fn into_front_back() {
    let buf = filled(8, 0);
    let mut iter = buf.into_iter();
    assert_eq!(iter.next(), Some(0));
    assert_eq!(iter.next(), Some(1));
    assert_eq!(iter.next_back(), Some(7));
    assert_eq!(iter.next(), Some(2));
    assert_eq!(iter.next_back(), Some(6));
    assert_eq!(iter.next_back(), Some(5));
    assert_eq!(iter.next(), Some(3));
    assert_eq!(iter.next(), Some(4));
    assert_eq!(iter.next_back(), None);
    assert_eq!(iter.next(), None);
}

#[test]
fn iterator() {
    fn t(size: usize) {
        for offset in 0..size {
            let buf = filled(size, offset);
            let mut it = buf.iter();
            let mut i = 0usize;
            while let Some(x) = it.next() {
                assert_eq!((i + offset) as i32, x);
                i += 1;
            }
            assert_eq!(i, size);
            let mut it = buf.iter();
            let mut i = 0usize;
            while let Some(x) = it.next() {
                assert_eq!((i + offset) as i32, x);
                i += 1;
            }
            assert_eq!(i, size);
        }
    }
    for size in sizes() {
        t(size);
    }
}

#[test]
fn iterator_back() {
    fn t(size: usize) {
        for offset in 0..size {
            let buf = filled(size, offset);
            let mut it = buf.iter();
            let mut i = 0usize;
            while let Some(x) = it.next_back() {
                assert_eq!((size + offset - 1 - i) as i32, x);
                i += 1;
            }
            assert_eq!(i, size);
        }
    }
    for size in sizes() {
        t(size);
    }
}

#[test]
fn iterator_front_back() {
    let buf = filled(8, 0);
    let mut iter = buf.iter();
    assert_eq!(iter.next(), Some(0));
    assert_eq!(iter.next(), Some(1));
    assert_eq!(iter.next_back(), Some(7));
    assert_eq!(iter.next(), Some(2));
    assert_eq!(iter.next_back(), Some(6));
    assert_eq!(iter.next_back(), Some(5));
    assert_eq!(iter.next(), Some(3));
    assert_eq!(iter.next(), Some(4));
    assert_eq!(iter.next_back(), None);
    assert_eq!(iter.next(), None);
}

#[test]
fn iter_mut() {
    fn t(size: usize) {
        for offset in 0..size {
            let buf = filled(size, offset + 2);
            for i in 0..size {
                assert_eq!(buf.get_oldest(i), (i + offset + 2) as i32);
            }
            let mut it = buf.iter_mut();
            let mut i = 0usize;
            while let Some(e) = it.next() {
                assert_eq!((i + offset + 2) as i32, e);
                it.write(e - 2);
                i += 1;
            }
            assert_eq!(i, size);
            let buf = it.finish();
            let mut it = buf.iter();
            let mut i = 0usize;
            while let Some(e) = it.next() {
                assert_eq!((i + offset) as i32, e);
                i += 1;
            }
            assert_eq!(i, size);
        }
    }
    for size in sizes() {
        t(size);
    }
}

#[test]
fn iter_mut_front_back() {
    let buf = filled(8, 0);
    let mut iter = buf.iter_mut();
    assert_eq!(iter.next(), Some(0));
    assert_eq!(iter.next(), Some(1));
    assert_eq!(iter.next_back(), Some(7));
    assert_eq!(iter.next(), Some(2));
    assert_eq!(iter.next_back(), Some(6));
    assert_eq!(iter.next_back(), Some(5));
    assert_eq!(iter.next(), Some(3));
    assert_eq!(iter.next(), Some(4));
    assert_eq!(iter.next_back(), None);
    assert_eq!(iter.next(), None);
}

#[test]
fn iter_mut_writes_backward() {
    let buf = filled(4, 0);
    let mut it = buf.iter_mut();
    let mut expected = 3;
    while let Some(e) = it.next_back() {
        assert_eq!(e, expected);
        it.write(e * 10);
        expected -= 1;
    }
    let buf = it.finish();
    for i in 0..4 {
        assert_eq!(buf.get_oldest(i), 10 * i as i32);
    }
}

#[test]
fn interleaved_cursors_converge_once() {
    // after exhaustion both directions stay exhausted
    let buf = filled(3, 0);
    let mut iter = buf.iter();
    assert_eq!(iter.next(), Some(0));
    assert_eq!(iter.next_back(), Some(2));
    assert_eq!(iter.next_back(), Some(1));
    assert_eq!(iter.next(), None);
    assert_eq!(iter.next_back(), None);
    assert_eq!(iter.next(), None);
}

#[test]
fn nth_equals_repeated_next() {
    let buf = filled(8, 0);
    let mut stepped = buf.iter();
    let mut jumped = buf.iter();
    stepped.next();
    stepped.next();
    stepped.next();
    assert_eq!(jumped.nth(2), Some(2));
    assert_eq!(stepped.next(), jumped.next());
    let mut jumped_back = buf.iter();
    assert_eq!(jumped_back.nth_back(2), Some(5));
    assert_eq!(jumped_back.next_back(), Some(4));
}
