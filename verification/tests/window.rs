use cacti::window::SlidingWindow;

#[test]
fn test_sliding_window_unfilled() {
    let mut sw = SlidingWindow::with_capacity(5);
    sw.push(1);
    sw.push(2);
    sw.push(3);
    let (s1, s2) = sw.slice(0, 3);
    assert_eq!(s1, &[1, 2, 3]);
    assert_eq!(s2, &[]);
}

#[test]
fn test_sliding_window_filled() {
    let mut sw = SlidingWindow::with_capacity(5);
    sw.push(1);
    sw.push(2);
    sw.push(3);
    sw.push(4);
    sw.push(5);
    sw.push(6);
    sw.push(7);
    let (s1, s2) = sw.slice(0, 4);
    assert_eq!(s1, &[3, 4, 5]);
    assert_eq!(s2, &[6]);
}

#[test]
fn sliding_window_len_capacity_clear() {
    let mut sw = SlidingWindow::with_capacity(3);
    assert_eq!(sw.len(), 0);
    assert_eq!(sw.capacity(), 3);
    sw.push(10u8);
    sw.push(11);
    assert_eq!(sw.len(), 2);
    sw.push_slice(&[12, 13, 14]);
    assert_eq!(sw.len(), 3);
    assert_eq!(sw.peek(1), 14);
    assert_eq!(sw.peek(3), 12);
    sw.clear();
    assert_eq!(sw.len(), 0);
    assert_eq!(sw.capacity(), 3);
}

#[test]
fn sliding_window_backreference_repeats_overlapping_copy() {
    let mut sw = SlidingWindow::with_capacity(8);
    sw.push_slice(&[1u8, 2, 3]);
    let copied = sw.backreference(2, 5);
    assert_eq!(copied, vec![2, 3, 2, 3, 2]);
    let (a, b) = sw.slice(0, 8);
    let mut all = a.clone();
    all.extend_from_slice(&b);
    assert_eq!(all, vec![1, 2, 3, 2, 3, 2, 3, 2]);
    let copied = sw.backreference(1, 2);
    assert_eq!(copied, vec![2, 2]);
    assert_eq!(sw.peek(3), 2);
    assert_eq!(sw.peek(4), 3);
}
