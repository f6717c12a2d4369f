use min_heap::BinaryHeap;
use min_heap::MinHeap;
use std::cmp::Reverse;
use std::collections;

#[test]
fn empty_heap_is_empty() {
    let h = BinaryHeap::new();
    assert!(h.is_empty());
}

#[test]
fn nonempty_heap_is_not_empty() {
    let mut h = BinaryHeap::new();
    h.push(10);
    assert!(!h.is_empty());
}

#[test]
fn empty_heap_has_zero_len() {
    let h = BinaryHeap::new();
    assert_eq!(h.len(), 0);
}

#[test]
fn insert_increases_heap_len() {
    let mut h = BinaryHeap::new();
    h.push(2);
    h.push(10);
    h.push(4);
    h.push(100);
    assert_eq!(h.len(), 4);
}

#[test]
fn pop_decreases_heap_len() {
    let mut h = BinaryHeap::new();
    h.push(2);
    h.push(10);
    h.push(4);
    h.push(100);

    for _ in 0..4 {
        h.pop();
    }
    assert_eq!(h.len(), 0);
}

#[test]
fn top_returns_none_on_empty_heap() {
    let h = BinaryHeap::new();
    assert!(h.top().is_none());
}

#[test]
fn top_returns_minimum_element() {
    let mut h = BinaryHeap::new();
    let values = vec![1, 10, 3, -4123, 34, 100, 124];
    for v in values {
        h.push(v);
    }
    assert_eq!(h.top().unwrap(), -4123);
}

#[test]
fn top_changes_on_pop() {
    let mut h = BinaryHeap::new();
    let values = vec![1, 10, 3, -4123, 34, 100, 124];

    let mut ordered = values.clone();
    ordered.sort();

    for v in values.iter() {
        h.push(*v);
    }

    for i in 0..values.len() - 1 {
        h.pop();
        assert_eq!(h.top().unwrap(), ordered[i + 1]);
    }
}

#[test]
fn pop_returns_none_on_empty_heap() {
    let mut h = BinaryHeap::new();
    assert!(h.pop().is_none())
}

#[test]
fn pop_returns_and_erases_minimum_element() {
    let mut h = BinaryHeap::new();
    let values = vec![1, 10, 3, -4123, 34, 100, 124];

    let mut ordered = values.clone();
    ordered.sort();

    for v in values.iter() {
        h.push(*v);
    }

    for i in 0..values.len() {
        assert_eq!(h.pop().unwrap(), ordered[i]);
    }
}

#[test]
fn drained_heap_stays_empty() {
    let mut h = BinaryHeap::new();
    let values = vec![1, 10, 3, -4123, 34, 100, 124];
    for v in values.iter() {
        h.push(*v);
    }

    for _ in 0..values.len() {
        assert!(h.pop().is_some());
    }
    assert!(h.is_empty());
    assert_eq!(h.pop(), None);
}

#[test]
fn fresh_heap_has_no_elements() {
    let mut h = BinaryHeap::new();
    assert!(h.is_empty());
    assert_eq!(h.len(), 0);
    assert_eq!(h.top(), None);
    assert_eq!(h.pop(), None);
}

#[test]
fn repeated_pop_and_top_on_empty_keep_returning_none() {
    let mut h = BinaryHeap::new();
    h.push(7);
    assert_eq!(h.pop(), Some(7));
    for _ in 0..5 {
        assert_eq!(h.top(), None);
        assert_eq!(h.pop(), None);
        assert!(h.is_empty());
        assert_eq!(h.len(), 0);
    }
}

#[test]
fn len_tracks_pushes_and_pops() {
    let mut h = BinaryHeap::new();
    let mut expected: usize = 0;
    for v in [5, -2, 5, 0, 17, -2, 9] {
        h.push(v);
        expected += 1;
        assert_eq!(h.len(), expected);
        assert_eq!(h.is_empty(), expected == 0);
    }
    while !h.is_empty() {
        assert!(h.pop().is_some());
        expected -= 1;
        assert_eq!(h.len(), expected);
    }
    // Failed pops do not change the count.
    assert_eq!(h.pop(), None);
    assert_eq!(h.len(), 0);
}

#[test]
fn equal_values_pop_together() {
    let mut h = BinaryHeap::new();
    for v in [4, 1, 4, 1, 4] {
        h.push(v);
    }
    assert_eq!(h.pop(), Some(1));
    assert_eq!(h.pop(), Some(1));
    assert_eq!(h.pop(), Some(4));
    assert_eq!(h.pop(), Some(4));
    assert_eq!(h.pop(), Some(4));
    assert_eq!(h.pop(), None);
}

#[test]
fn top_agrees_with_pop() {
    let mut h = BinaryHeap::new();
    for v in [8, -3, 12, 0, -3, 99] {
        h.push(v);
    }
    while !h.is_empty() {
        let seen = h.top();
        let taken = h.pop();
        assert_eq!(seen, taken);
    }
}

// A small deterministic linear congruential generator, so the differential
// run below reproduces exactly.
fn next_state(state: u64) -> u64 {
    state
        .wrapping_mul(6364136223846793005)
        .wrapping_add(1442695040888963407)
}

// Differential testing against the standard library's binary heap (a
// max-heap wrapped with an inverted comparison).
#[test]
fn fuzz() {
    let num_operations: usize = 20000;
    let mut state: u64 = 0x853c49e6748fea9b;

    let mut ours = BinaryHeap::new();
    let mut theirs = collections::BinaryHeap::<Reverse<i64>>::new();

    for _ in 0..num_operations {
        state = next_state(state);
        let should_pop = ours.len() > 0 && (state >> 33) % 10 < 3;
        if should_pop {
            assert_eq!(ours.pop().unwrap(), theirs.pop().unwrap().0);
        } else {
            let val = (state >> 16) as i32 as i64;
            ours.push(val);
            theirs.push(Reverse(val));
        }
    }
    while let Some(v) = ours.pop() {
        assert_eq!(v, theirs.pop().unwrap().0);
    }
    assert!(theirs.is_empty());
}
