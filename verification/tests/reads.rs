use ringbuffer::RingBuffer;

fn sizes() -> Vec<usize> {
    vec![0, 1, 2, 3, 4, 5, 6, 7, 8, 9, 10, 11, 12, 13, 14, 15, 16, 17, 31, 32, 33, 64]
}

#[test]
fn size() {
    fn t(size: usize) {
        let buf: RingBuffer<i32> = RingBuffer::new_default(size);
        {
            let iter = buf.iter();
            assert_eq!(iter.size_hint(), (size, Some(size)));
            assert_eq!(iter.len(), size);
        }
        let iter_mut = buf.iter_mut();
        assert_eq!(iter_mut.size_hint(), (size, Some(size)));
        assert_eq!(iter_mut.len(), size);
        let buf = iter_mut.finish();
        let into_iter = buf.into_iter();
        assert_eq!(into_iter.size_hint(), (size, Some(size)));
        assert_eq!(into_iter.len(), size);
    }
    for size in sizes() {
        t(size);
    }
}

#[test]
fn get() {
    fn t(size: usize) {
        for offset in 0..size {
            let mut buf: RingBuffer<i32> = RingBuffer::new_default(size);
            for i in 0..(size + offset) as i32 {
                buf.put(i);
            }
            for i in 0..size {
                assert_eq!(buf.get_oldest(i), (i + offset) as i32);
            }
            for i in 0..size {
                assert_eq!(buf.get_oldest(i + size), (i + offset) as i32);
            }
        }
    }
    for size in sizes() {
        t(size);
    }
}

#[test]
fn get_reverse() {
    fn t(size: usize) {
        for offset in 0..size {
            let mut buf: RingBuffer<i32> = RingBuffer::new_default(size);
            for i in 0..(size + offset) as i32 {
                buf.put(i);
            }
            for i in 0..size {
                assert_eq!(buf.get_newest(i), (size + offset - 1 - i) as i32);
            }
        }
    }
    for size in sizes() {
        t(size);
    }
}

#[test]
fn get_either() {
    fn t(size: usize) {
        for offset in 0..size {
            let mut buf: RingBuffer<i32> = RingBuffer::new_default(size);
            for i in 0..(size + offset) as i32 {
                buf.put(i);
            }
            for i in 0..size as isize {
                assert_eq!(buf.get(i), i as i32 + offset as i32);
            }
            for i in -(size as isize)..0 {
                assert_eq!(buf.get(i), ((size + offset) as isize + i) as i32);
            }
        }
    }
    for size in sizes() {
        t(size);
    }
}

// checks expected wrong behaviour of get()
#[test]
fn get_either_wrong_idx() {
    fn get_big_mid(size: usize) -> u128 {
        (u128::MAX / 2) - (u128::MAX / 2) % (size as u128)
    }
    // assumes the write cursor is back on slot 0
    fn get_correct_idx(size: usize, idx: isize) -> usize {
        let big_mid = get_big_mid(size);
        let new_idx = u128::wrapping_add_signed(big_mid, idx as i128);
        (new_idx % (size as u128)) as usize
    }
    fn is_power_of_2(x: usize) -> bool {
        usize::count_ones(x) == 1
    }

    fn t(size: usize) {
        if size == 0 {
            return;
        }
        let mut buf: RingBuffer<i32> = RingBuffer::new_default(size);
        for i in 0..size as i32 {
            buf.put(i);
        }
        // a full lap brings the cursor back to slot 0, so age i is slot i
        for i in 0..size {
            assert_eq!(buf.get_oldest(i), i as i32);
        }
        if is_power_of_2(size) {
            // correct if size is a power of two
            assert_eq!(
                buf.get(isize::MIN),
                buf.get_oldest(get_correct_idx(size, isize::MIN))
            );
        } else {
            // wrong otherwise
            assert_ne!(
                buf.get(isize::MIN),
                buf.get_oldest(get_correct_idx(size, isize::MIN))
            );
        }
    }
    for size in sizes() {
        t(size);
    }
}

#[test]
fn fresh_buffer_holds_fill_value() {
    let buf: RingBuffer<i32> = RingBuffer::new(5, 42);
    assert_eq!(buf.len(), 5);
    for i in 0..5 {
        assert_eq!(buf.get_oldest(i), 42);
        assert_eq!(buf.get_newest(i), 42);
    }
    let mut buf: RingBuffer<i32> = RingBuffer::new(3, 99);
    for i in 1..=5 {
        buf.put(i);
    }
    // the most recent three insertions survive, oldest first
    assert_eq!(buf.get_oldest(0), 3);
    assert_eq!(buf.get_oldest(1), 4);
    assert_eq!(buf.get_oldest(2), 5);
    // ages alias with period three
    assert_eq!(buf.get_oldest(4), 4);
    // the two age directions mirror each other
    for i in 0..3 {
        assert_eq!(buf.get_newest(i), buf.get_oldest(2 - i));
    }
    // signed offsets agree with ages inside the window
    for i in 0..3 {
        assert_eq!(buf.get(i), buf.get_oldest(i as usize));
    }
    assert_eq!(buf.get(-1), buf.get_oldest(2));
    assert_eq!(buf.get(-3), buf.get_oldest(0));
}

#[test]
fn put_returns_evicted_element() {
    let mut buf: RingBuffer<u64> = RingBuffer::new(2, 7);
    assert_eq!(buf.put(1), 7);
    assert_eq!(buf.put(2), 7);
    assert_eq!(buf.put(3), 1);
    assert_eq!(buf.put(4), 2);
    assert_eq!(buf.get_oldest(0), 3);
    assert_eq!(buf.get_oldest(1), 4);
}
