use route_graph::{IndexedMinPQ, PqError};

fn drain(q: &mut IndexedMinPQ) -> Vec<(usize, usize)> {
    let mut out = Vec::new();
    while let Ok(entry) = q.extract_min() {
        out.push(entry);
    }
    out
}

#[test]
fn repeated_decreases_keep_the_latest_value() {
    let mut q = IndexedMinPQ::new(8, 2);
    for (k, v) in [(0, 50), (1, 40), (2, 30), (3, 20), (4, 10), (5, 60)] {
        assert_eq!(q.insert(k, v), Ok(()));
    }
    for v in [35, 25, 15, 5] {
        assert_eq!(q.decrease_key(5, v), Ok(()));
        assert_eq!(q.priority(5), Some(v));
    }
    let out = drain(&mut q);
    assert_eq!(out, vec![(5, 5), (4, 10), (3, 20), (2, 30), (1, 40), (0, 50)]);
    assert!(out.windows(2).all(|w| w[0].1 <= w[1].1));
}

#[test]
fn a_value_that_is_not_lower_leaves_the_queue_alone() {
    let mut q = IndexedMinPQ::new(4, 2);
    assert_eq!(q.insert(2, 7), Ok(()));
    assert_eq!(q.decrease_key(2, 9), Ok(()));
    assert_eq!(q.priority(2), Some(7));
    assert_eq!(q.decrease_key(2, 7), Ok(()));
    assert_eq!(q.priority(2), Some(7));
}

#[test]
fn queue_refusals() {
    let mut q = IndexedMinPQ::new(3, 2);
    assert_eq!(q.extract_min(), Err(PqError::Empty));
    assert_eq!(q.decrease_key(1, 3), Err(PqError::UnknownKey));
    assert_eq!(q.insert(1, 3), Ok(()));
    assert_eq!(q.insert(1, 2), Err(PqError::DuplicateKey));
    assert_eq!(q.priority(1), Some(3));
    assert_eq!(q.len(), 1);
}

#[test]
fn equal_values_leave_lowest_key_first() {
    let mut q = IndexedMinPQ::new(6, 3);
    for k in [4, 1, 5, 0, 3] {
        assert_eq!(q.insert(k, 9), Ok(()));
    }
    assert_eq!(drain(&mut q), vec![(0, 9), (1, 9), (3, 9), (4, 9), (5, 9)]);
}

#[test]
fn wide_heaps_pop_in_order() {
    for degree in [2, 3, 4, 7] {
        let mut q = IndexedMinPQ::new(40, degree);
        for k in 0..40 {
            assert_eq!(q.insert(k, (k * 37) % 41), Ok(()));
        }
        for k in (0..40).step_by(3) {
            assert_eq!(q.decrease_key(k, k % 5), Ok(()));
        }
        assert!(q.contains(10));
        assert!(!q.is_empty());
        let out = drain(&mut q);
        assert_eq!(out.len(), 40);
        assert!(out.windows(2).all(|w| (w[0].1, w[0].0) < (w[1].1, w[1].0)));
        assert!(q.is_empty());
        assert!(!q.contains(10));
    }
}
