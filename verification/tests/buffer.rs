use std::cell::Cell;
use std::rc::Rc;

use seg_buffer::raw::RawBuffer;

#[test]
fn basic() {
    let mut buffer = RawBuffer::new();

    for i in 0..1024 {
        buffer.push(i);
        assert_eq!(buffer.pop(), Some(i));
    }

    for i in 0..65536 {
        buffer.push(i);
    }

    for i in 0..65536 {
        assert_eq!(buffer.pop(), Some(i));
    }
}

#[test]
fn fifo_single_producer() {
    let mut buffer = RawBuffer::new();
    let values = [3, 1, 4, 1, 5, 9, 2, 6];
    for v in values {
        buffer.push(v);
    }
    for v in values {
        assert_eq!(buffer.pop(), Some(v));
    }
    assert_eq!(buffer.pop(), None);
}

#[test]
fn round_trip_across_growth() {
    let mut buffer = RawBuffer::new();
    for i in 0..70 {
        buffer.push(i);
    }
    for i in 0..70 {
        assert_eq!(buffer.pop(), Some(i));
    }
    assert_eq!(buffer.pop(), None);
    for i in 0..65536 {
        buffer.push(i);
    }
    for i in 0..65536 {
        assert_eq!(buffer.pop(), Some(i));
    }
    assert_eq!(buffer.pop(), None);
}

#[test]
fn empty_signaling() {
    let mut buffer: RawBuffer<u64> = RawBuffer::new();
    assert_eq!(buffer.pop(), None);
    for k in [1u64, 5, 64, 65, 200] {
        for v in 0..k {
            buffer.push(v);
        }
        for v in 0..k {
            assert_eq!(buffer.pop(), Some(v));
        }
        assert_eq!(buffer.pop(), None);
        assert_eq!(buffer.pop(), None);
    }
}

#[test]
fn no_loss_interleaved_producers() {
    let mut buffer = RawBuffer::new();
    // two producers' distinct values, their appends interleaved by hand
    for i in 0..50 {
        buffer.push(1000 + i);
        buffer.push(2000 + i);
    }
    let mut got = Vec::new();
    while let Some(v) = buffer.pop() {
        got.push(v);
    }
    assert_eq!(got.len(), 100);
    for i in 0..50 {
        assert_eq!(got.iter().filter(|&&v| v == 1000 + i).count(), 1);
        assert_eq!(got.iter().filter(|&&v| v == 2000 + i).count(), 1);
    }
}

struct Counted {
    hits: Rc<Cell<usize>>,
}

impl Drop for Counted {
    fn drop(&mut self) {
        self.hits.set(self.hits.get() + 1);
    }
}

#[test]
fn partial_drain_teardown() {
    let hits = Rc::new(Cell::new(0usize));
    let m = 10;
    let k = 4;
    let mut buffer = RawBuffer::new();
    for _ in 0..m {
        buffer.push(Counted { hits: Rc::clone(&hits) });
    }
    for _ in 0..k {
        let v = buffer.pop();
        assert!(v.is_some());
        drop(v);
    }
    // only the k dequeued values have been destructed so far
    assert_eq!(hits.get(), k);
    drop(buffer);
    // teardown destructed exactly the m - k values still unread
    assert_eq!(hits.get(), m);
}

#[test]
fn segment_recycling() {
    let mut buffer = RawBuffer::new();
    assert_eq!(buffer.num_segments(), 1);
    for i in 0..64 {
        buffer.push(i);
    }
    assert_eq!(buffer.num_segments(), 1);
    // the first segment (capacity 64) is full: one new segment is allocated
    buffer.push(64);
    assert_eq!(buffer.num_segments(), 2);
    for i in 0..65 {
        assert_eq!(buffer.pop(), Some(i));
    }
    // the drained first segment was recycled behind the second one
    // (capacity 128), so 127 + 64 further slots need no allocation
    for i in 0..191 {
        buffer.push(i);
    }
    assert_eq!(buffer.num_segments(), 2);
    // one more value exhausts the recycled storage as well
    buffer.push(191);
    assert_eq!(buffer.num_segments(), 3);
}

#[test]
fn iter_slices_cover_unread() {
    let mut buffer = RawBuffer::new();
    for i in 0..100 {
        buffer.push(i);
    }
    assert_eq!(buffer.pop(), Some(0));
    let mut seen = Vec::new();
    let mut it = buffer.iter();
    while let Some(slice) = it.next() {
        for s in slice {
            seen.push(s.unwrap());
        }
    }
    assert_eq!(seen, (1..100).collect::<Vec<i32>>());
    // the walk moved no cursor: draining still yields everything
    for i in 1..100 {
        assert_eq!(buffer.pop(), Some(i));
    }
    assert_eq!(buffer.pop(), None);
}

#[test]
fn par_split_covers_segments() {
    let mut buffer = RawBuffer::new();
    for i in 0..70 {
        buffer.push(i);
    }
    let mut seen = Vec::new();
    let mut unit = buffer.par_iter();
    loop {
        let (first, rest) = unit.split();
        for s in first.slice() {
            seen.push(s.unwrap());
        }
        match rest {
            Some(r) => unit = r,
            None => break,
        }
    }
    assert_eq!(seen, (0..70).collect::<Vec<i32>>());
}
