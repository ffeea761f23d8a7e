use phase_vocoder::heap::{leaves_first, MagnitudeQueue, MaxHeap};
use std::cmp::Ordering;

fn entry(magnitude: u64, frequency_index: usize, frame: usize) -> MaxHeap {
    MaxHeap { magnitude, frequency_index, frame }
}

fn fields(entry: Option<MaxHeap>) -> Option<(u64, usize, usize)> {
    entry.map(|e| (e.magnitude, e.frequency_index, e.frame))
}

fn key(magnitude: f64) -> u64 {
    magnitude.to_bits()
}

#[test]
fn candidates_are_equal_by_magnitude_alone() {
    let a = entry(key(1.5), 3, 0);
    let b = entry(key(1.5), 9, 4);
    let c = entry(key(2.5), 3, 0);
    assert!(a.eq(&b));
    assert!(!a.eq(&c));
    assert!(a == b);
    assert!(a != c);
}

#[test]
fn candidates_of_one_magnitude_compare_as_equal() {
    let a = entry(key(0.5), 1, 2);
    let b = entry(key(0.5), 7, 3);
    assert_eq!(a.cmp(&b), Ordering::Equal);
    assert_eq!(b.cmp(&a), Ordering::Equal);
    assert_eq!(a.partial_cmp(&b), Some(Ordering::Equal));
    assert!(!(a < b));
    assert!(!(a > b));
    assert!(a <= b);
    assert!(a >= b);
}

#[test]
fn candidates_are_ordered_by_magnitude_alone() {
    let small = entry(key(0.25), 9, 9);
    let large = entry(key(0.75), 0, 0);
    assert_eq!(small.cmp(&large), Ordering::Less);
    assert_eq!(large.cmp(&small), Ordering::Greater);
    assert_eq!(small.partial_cmp(&large), Some(Ordering::Less));
    assert_eq!(large.partial_cmp(&small), Some(Ordering::Greater));
    assert!(small < large);
    assert!(large > small);
    for (magnitude, other) in [(1u64, 2u64), (2, 1), (3, 3), (0, u64::MAX), (u64::MAX, 0)] {
        for (bin, frame) in [(0usize, 0usize), (5, 1), (1, 5)] {
            let a = entry(magnitude, bin, frame);
            let b = entry(other, frame, bin);
            assert_eq!(a.cmp(&b), magnitude.cmp(&other));
            assert_eq!(a.partial_cmp(&b), Some(magnitude.cmp(&other)));
            assert_eq!(a == b, magnitude == other);
        }
    }
}

#[test]
fn keys_of_magnitudes_keep_their_order() {
    let magnitudes = [0.0, 1e-300, 0.25, 0.5, 1.0, 1.5, 1e300, f64::INFINITY];
    for pair in magnitudes.windows(2) {
        let a = entry(key(pair[0]), 0, 0);
        let b = entry(key(pair[1]), 0, 0);
        assert_eq!(a.cmp(&b), Ordering::Less);
    }
}

#[test]
fn empty_queue_gives_nothing() {
    let mut queue = MagnitudeQueue::new();
    assert!(queue.is_empty());
    assert_eq!(queue.len(), 0);
    assert!(queue.pop().is_none());
    assert!(queue.is_empty());
}

#[test]
fn queue_gives_the_largest_magnitude_first() {
    let mut queue = MagnitudeQueue::new();
    for (bin, magnitude) in [5u64, 1, 9, 3, 7, 2, 8].iter().enumerate() {
        queue.push(entry(*magnitude, bin, 0));
    }
    assert_eq!(queue.len(), 7);
    let mut out = Vec::new();
    while let Some(top) = queue.pop() {
        out.push((top.magnitude, top.frequency_index));
    }
    assert_eq!(out, vec![(9, 2), (8, 6), (7, 4), (5, 0), (3, 3), (2, 5), (1, 1)]);
}

#[test]
fn no_popped_entry_is_smaller_than_one_that_waits() {
    let mut queue = MagnitudeQueue::new();
    let mut state: u64 = 12345;
    let mut waiting: Vec<u64> = Vec::new();
    for round in 0..500usize {
        state = state.wrapping_mul(6364136223846793005).wrapping_add(1442695040888963407);
        let magnitude = (state >> 33) % 50;
        if round % 3 == 2 {
            let top = queue.pop().unwrap();
            let greatest = *waiting.iter().max().unwrap();
            assert_eq!(top.magnitude, greatest);
            let at = waiting.iter().position(|m| *m == greatest).unwrap();
            waiting.remove(at);
        } else {
            queue.push(entry(magnitude, round, 1));
            waiting.push(magnitude);
        }
        assert_eq!(queue.len(), waiting.len());
    }
}

#[test]
fn queue_lets_equal_magnitudes_out_by_bin_then_by_frame() {
    let mut queue = MagnitudeQueue::new();
    queue.push(entry(4, 1, 0));
    queue.push(entry(4, 3, 0));
    queue.push(entry(4, 3, 1));
    queue.push(entry(4, 2, 5));
    assert_eq!(fields(queue.pop()), Some((4, 3, 1)));
    assert_eq!(fields(queue.pop()), Some((4, 3, 0)));
    assert_eq!(fields(queue.pop()), Some((4, 2, 5)));
    assert_eq!(fields(queue.pop()), Some((4, 1, 0)));
    assert_eq!(fields(queue.pop()), None);
}

#[test]
fn queue_keeps_entries_that_are_the_same() {
    let mut queue = MagnitudeQueue::new();
    queue.push(entry(2, 0, 0));
    queue.push(entry(2, 0, 0));
    assert_eq!(queue.len(), 2);
    assert_eq!(fields(queue.pop()), Some((2, 0, 0)));
    assert_eq!(fields(queue.pop()), Some((2, 0, 0)));
    assert_eq!(fields(queue.pop()), None);
}

#[test]
fn rule_of_the_queue_looks_at_the_magnitude_first() {
    assert!(leaves_first(&entry(3, 0, 0), &entry(2, 9, 9)));
    assert!(!leaves_first(&entry(2, 9, 9), &entry(3, 0, 0)));
    assert!(leaves_first(&entry(2, 5, 0), &entry(2, 4, 9)));
    assert!(leaves_first(&entry(2, 5, 1), &entry(2, 5, 0)));
    assert!(!leaves_first(&entry(2, 5, 1), &entry(2, 5, 1)));
}

#[test]
fn rule_of_the_queue_never_goes_against_the_order() {
    for a in [entry(1, 0, 0), entry(1, 4, 2), entry(2, 0, 0), entry(2, 3, 3)] {
        for b in [entry(1, 1, 1), entry(2, 2, 2), entry(3, 0, 0)] {
            if leaves_first(&a, &b) {
                assert_ne!(a.cmp(&b), Ordering::Less);
            }
        }
    }
}
