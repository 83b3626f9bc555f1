use logtail::ring::RingBuffer;

#[test]
fn push_within_capacity_keeps_order() {
    let mut b: RingBuffer<u64> = RingBuffer::new(10);
    for x in 0..5u64 {
        b.push(x);
    }
    assert_eq!(b.len(), 5);
    assert_eq!(b.capacity(), 10);
    for i in 0..5usize {
        assert_eq!(*b.get(i), i as u64);
    }
}

#[test]
fn push_past_capacity_keeps_exactly_last_capacity_items() {
    let mut b: RingBuffer<u64> = RingBuffer::new(3);
    for x in 1..=7u64 {
        b.push(x);
    }
    assert_eq!(b.len(), 3);
    assert_eq!(*b.get(0), 5);
    assert_eq!(*b.get(1), 6);
    assert_eq!(*b.get(2), 7);
}

#[test]
fn zero_capacity_discards_everything() {
    let mut b: RingBuffer<u64> = RingBuffer::new(0);
    for x in 0..100u64 {
        b.push(x);
    }
    assert_eq!(b.len(), 0);
    assert_eq!(b.iter_last(10).len(), 0);
}

#[test]
fn iter_last_yields_min_of_n_and_len_oldest_first() {
    let mut b: RingBuffer<u64> = RingBuffer::new(10);
    for x in 10..15u64 {
        b.push(x);
    }
    let w = b.iter_last(3);
    assert_eq!(w.len(), 3);
    assert_eq!(*w[0], 12);
    assert_eq!(*w[1], 13);
    assert_eq!(*w[2], 14);

    let all = b.iter_last(100);
    assert_eq!(all.len(), 5);
    assert_eq!(*all[0], 10);
    assert_eq!(*all[4], 14);
}

#[test]
fn iter_last_is_reiterable() {
    let mut b: RingBuffer<u64> = RingBuffer::new(4);
    for x in 0..4u64 {
        b.push(x);
    }
    let first: Vec<u64> = b.iter_last(2).into_iter().copied().collect();
    let second: Vec<u64> = b.iter_last(2).into_iter().copied().collect();
    assert_eq!(first, second);
    assert_eq!(first, vec![2, 3]);
}

#[test]
fn clear_empties_but_keeps_capacity() {
    let mut b: RingBuffer<u64> = RingBuffer::new(2);
    b.push(1);
    b.push(2);
    b.clear();
    assert_eq!(b.len(), 0);
    assert_eq!(b.capacity(), 2);
    b.push(9);
    assert_eq!(*b.get(0), 9);
}
