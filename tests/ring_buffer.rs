use replay::ring_buffer::{RingBuffer, StaticRingBuffer};

#[test]
fn ds_ringbuffer_functional() {
    let mut buf = RingBuffer::new(4);
    assert_eq!(buf.len(), 0, "initialized empty");

    for i in 0..4 {
        buf.push(i * 2);
    }

    assert_eq!(buf.len(), 4, "length correct");
    assert_eq!(buf.view(), [0, 2, 4, 6], "contents correct");

    buf.push(1);
    buf.push(3);
    assert_eq!(buf.len(), 4, "length unchanged");
    assert_eq!(buf.view(), [1, 3, 4, 6], "contents overwritten correctly");
}

#[test]
fn ring_buffer_ringbuffer_functional() {
    let mut buf = RingBuffer::new(4);
    assert_eq!(buf.len(), 0, "initialized empty");

    for i in 0..4 {
        buf.push(i * 2);
    }

    assert_eq!(buf.len(), 4, "length correct");
    assert_eq!(buf.view(), [0, 2, 4, 6], "contents correct");

    buf.push(1);
    let ix = buf.push(3);
    assert_eq!(ix, 1, "write index is correct");
    assert_eq!(buf.len(), 4, "length unchanged");
    assert_eq!(buf.view(), [1, 3, 4, 6], "contents overwritten correctly");
}

#[test]
fn push_returns_each_write_slot_in_turn() {
    let mut buf = RingBuffer::new(3);
    let slots: Vec<usize> = (0..7).map(|i| buf.push(i)).collect();
    assert_eq!(slots, vec![0, 1, 2, 0, 1, 2, 0]);
    assert_eq!(buf.capacity(), 3);
}

#[test]
fn wraparound_keeps_last_capacity_items() {
    let cap = 5;
    let mut buf = RingBuffer::new(cap);
    let n = 13;
    for i in 0..n {
        buf.push(i);
    }
    assert_eq!(buf.len(), cap);
    // Read from the cursor on, the buffer holds the last `cap` items, oldest first.
    let rotated: Vec<usize> = (0..cap).map(|j| *buf.get((n + j) % cap)).collect();
    assert_eq!(rotated, vec![8, 9, 10, 11, 12]);
}

#[test]
fn ring_buffer_from_vec_overwrites_front_first() {
    let mut buf = RingBuffer::from(vec!['a', 'b', 'c']);
    assert_eq!(buf.len(), 3);
    assert_eq!(buf.capacity(), 3);
    assert_eq!(buf.push('d'), 0);
    assert_eq!(buf.view(), ['d', 'b', 'c']);
}

#[test]
fn ring_buffer_capacity_one() {
    let mut buf = RingBuffer::new(1);
    assert_eq!(buf.push(7), 0);
    assert_eq!(buf.push(8), 0);
    assert_eq!(buf.view(), [8]);
}

#[test]
fn static_ring_buffer_overwrites_in_order() {
    let mut buf = StaticRingBuffer::from([0, 0, 0]);
    buf.push(1);
    buf.push(2);
    assert_eq!(buf.view(), &[1, 2, 0]);
    buf.push(3);
    buf.push(4);
    assert_eq!(buf.view(), &[4, 2, 3]);
}
