use heater::RingBuffer;

#[test]
fn ring_buffer_starts_empty() {
    let b: RingBuffer<f32, 4> = RingBuffer::new();
    assert!(b.contents().is_empty());
    assert!(!b.filled());
    assert_eq!(b.index(), 0);
}

#[test]
fn ring_buffer_fills_in_order() {
    let mut b: RingBuffer<u32, 3> = RingBuffer::new();
    b.push(1);
    b.push(2);
    assert_eq!(b.contents(), &[1, 2]);
    assert!(!b.filled());
    assert_eq!(b.index(), 2);
    b.push(3);
    assert_eq!(b.contents(), &[1, 2, 3]);
    assert!(b.filled());
    assert_eq!(b.index(), 0);
}

#[test]
fn ring_buffer_overwrites_oldest() {
    let mut b: RingBuffer<u32, 3> = RingBuffer::new();
    for v in 1..=5 {
        b.push(v);
    }
    // slots hold 4, 5, 3: the last three values pushed
    assert_eq!(b.contents(), &[4, 5, 3]);
    assert_eq!(b.index(), 2);
    let mut held = b.contents().to_vec();
    held.sort();
    assert_eq!(held, vec![3, 4, 5]);
}

#[test]
fn ring_buffer_of_one_keeps_last() {
    let mut b: RingBuffer<i32, 1> = RingBuffer::new();
    b.push(-1);
    b.push(7);
    assert_eq!(b.contents(), &[7]);
    assert!(b.filled());
    assert_eq!(b.index(), 0);
}

#[test]
fn ring_buffer_average_of_held_values() {
    let mut b: RingBuffer<f32, 10> = RingBuffer::new();
    for k in 0..25 {
        b.push(k as f32);
    }
    let held = b.contents();
    let avg = held.iter().sum::<f32>() / held.len() as f32;
    assert_eq!(held.len(), 10);
    assert_eq!(avg, 19.5);
}

#[test]
fn ring_buffer_slot_of_each_value() {
    let mut b: RingBuffer<u32, 4> = RingBuffer::new();
    for m in 1..=11u32 {
        b.push(100 + m - 1);
        let held = m.min(4);
        assert_eq!(b.index(), (m % 4) as usize);
        assert_eq!(b.filled(), m >= 4);
        assert_eq!(b.contents().len(), if m >= 4 { 4 } else { m as usize });
        for j in (m - held)..m {
            assert_eq!(b.contents()[(j % 4) as usize], 100 + j);
        }
    }
}
