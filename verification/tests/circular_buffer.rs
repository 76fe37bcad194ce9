use procmon::circular_buffer::CircularBuffer;

#[test]
fn empty_buffer_reports_defaults() {
    let b = CircularBuffer::new(4);
    assert_eq!(b.len(), 0);
    assert_eq!(b.capacity(), 4);
    assert_eq!(b.last_value(), 0);
    assert_eq!(b.max_value(), 0);
    assert_eq!(b.average(), 0);
    assert_eq!(b.as_vec(), Vec::<u64>::new());
}

#[test]
fn push_below_capacity_keeps_everything() {
    let mut b = CircularBuffer::new(4);
    b.push(3);
    b.push(1);
    b.push(2);
    assert_eq!(b.len(), 3);
    assert_eq!(b.as_vec(), vec![3, 1, 2]);
    assert_eq!(b.last_value(), 2);
    assert_eq!(b.max_value(), 3);
    assert_eq!(b.average(), 2); // (3 + 1 + 2) / 3
}

#[test]
fn window_holds_last_capacity_values_in_push_order() {
    // After capacity + k pushes the window is exactly the last
    // `capacity` pushed values, oldest first.
    let mut b = CircularBuffer::new(3);
    for v in [10, 20, 30, 40, 50] {
        b.push(v);
    }
    assert_eq!(b.len(), 3);
    assert_eq!(b.as_vec(), vec![30, 40, 50]);
    assert_eq!(b.last_value(), 50);
}

#[test]
fn peak_tracks_eviction_of_the_maximum() {
    // The peak must fall once the maximum leaves the window.
    let mut b = CircularBuffer::new(2);
    b.push(5);
    b.push(1);
    assert_eq!(b.max_value(), 5);
    b.push(2); // evicts 5; window is [1, 2]
    assert_eq!(b.max_value(), 2);
    b.push(9); // window [2, 9]
    assert_eq!(b.max_value(), 9);
}

#[test]
fn peak_equals_window_maximum_for_a_mixed_sequence() {
    let mut b = CircularBuffer::new(4);
    let pushes = [7u64, 3, 7, 1, 2, 7, 0, 4];
    for v in pushes {
        b.push(v);
        // recompute the expected window maximum naively
        let w = b.as_vec();
        let expected = w.iter().copied().max().unwrap_or(0);
        assert_eq!(b.max_value(), expected);
    }
    assert_eq!(b.as_vec(), vec![2, 7, 0, 4]);
}

#[test]
fn average_is_window_mean_rounded_down() {
    let mut b = CircularBuffer::new(3);
    b.push(1);
    b.push(2);
    assert_eq!(b.average(), 1); // 3 / 2 rounded toward zero
    b.push(6);
    assert_eq!(b.average(), 3); // 9 / 3
    b.push(10); // window [2, 6, 10]
    assert_eq!(b.average(), 6);
}

#[test]
fn capacity_one_keeps_only_the_newest() {
    let mut b = CircularBuffer::new(1);
    b.push(8);
    b.push(2);
    assert_eq!(b.as_vec(), vec![2]);
    assert_eq!(b.max_value(), 2);
    assert_eq!(b.average(), 2);
    assert_eq!(b.last_value(), 2);
}
