//! The queue of the shortest-path search.

use trueno_graph::algorithms::queue::CostQueue;

#[test]
fn queue_hands_out_entries_in_order() {
    let mut queue = CostQueue::new();
    assert_eq!(queue.pop(), None);
    let entries =
        [(5, 1), (3, 9), (8, 0), (3, 2), (0, 7), (5, 1), (u32::MAX, 0), (1, 1), (3, 2), (2, 6)];
    for &e in &entries {
        queue.push(e);
    }
    assert_eq!(queue.len(), entries.len());
    let mut out = Vec::new();
    while let Some(e) = queue.pop() {
        out.push(e);
    }
    let mut sorted = entries.to_vec();
    sorted.sort_unstable();
    assert_eq!(out, sorted);
    assert_eq!(queue.len(), 0);
    assert_eq!(queue.pop(), None);
}

#[test]
fn queue_interleaves_pushes_and_pops() {
    let mut queue = CostQueue::new();
    queue.push((4, 0));
    queue.push((2, 0));
    assert_eq!(queue.pop(), Some((2, 0)));
    queue.push((1, 5));
    queue.push((9, 9));
    queue.push((4, 1));
    assert_eq!(queue.pop(), Some((1, 5)));
    assert_eq!(queue.pop(), Some((4, 0)));
    assert_eq!(queue.pop(), Some((4, 1)));
    queue.push((0, 0));
    assert_eq!(queue.pop(), Some((0, 0)));
    assert_eq!(queue.pop(), Some((9, 9)));
    assert_eq!(queue.pop(), None);
}

#[test]
fn queue_sorts_many_entries() {
    let mut queue = CostQueue::new();
    let mut x: u32 = 12345;
    let mut entries = Vec::new();
    for i in 0..2000u32 {
        x = x.wrapping_mul(1_664_525).wrapping_add(1_013_904_223);
        let e = (x >> 20, i % 17);
        entries.push(e);
        queue.push(e);
    }
    entries.sort_unstable();
    for &e in &entries {
        assert_eq!(queue.pop(), Some(e));
    }
    assert_eq!(queue.pop(), None);
}
