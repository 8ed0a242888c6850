use push_swap::ops::Op;
use push_swap::state::State;

/// After a partition pass over a prefix of length n, pushed + rotated == n,
/// every element pushed to B is at or below the pivot, and B's previous
/// contents sit untouched below them.
#[test]
fn partition_a_routes_by_pivot() {
    let values = [5, 1, 9, 0, 7, 3, 8, 2, 6, 4];
    let mut s = State::new(&values);
    let n = s.stack_a.len();
    let pivot = State::choose_pivot(&s.stack_a, n);
    assert_eq!(pivot, 5, "middle of the sorted ranks 0..10");
    let before: Vec<i32> = (0..n).map(|i| s.stack_a.index(i)).collect();
    let (pushed, rotated) = s.partition_a(n, pivot);
    assert_eq!(pushed + rotated, n);
    assert_eq!(pushed, 6, "six values lie at or below the pivot");
    assert_eq!(s.stack_b.len(), pushed);
    // The log holds one pb or ra per scanned element, by routing, then the
    // undoing rra ops.
    assert_eq!(s.ops.len(), n + rotated);
    for i in 0..n {
        let expected = if before[i] <= pivot { Op::Pb } else { Op::Ra };
        assert_eq!(s.ops[i], expected, "routing op {}", i);
    }
    for i in 0..rotated {
        assert_eq!(s.ops[n + i], Op::Rra);
    }
    assert_eq!(s.saves.len(), s.ops.len());
    for i in 0..pushed {
        assert!(s.stack_b.index(i) <= pivot);
    }
    for i in 0..s.stack_a.len() {
        assert!(s.stack_a.index(i) > pivot, "rotations must restore the rest on A");
    }
}

#[test]
fn partition_b_routes_by_pivot() {
    // Move everything to B first, then partition B's prefix.
    let values = [3, 0, 2, 1];
    let mut s = State::new(&values);
    for _ in 0..4 {
        s.op(Op::Pb);
    }
    let n = s.stack_b.len();
    let pivot = State::choose_pivot(&s.stack_b, n);
    assert_eq!(pivot, 2);
    let (pushed, rotated) = s.partition_b(n, pivot);
    assert_eq!(pushed + rotated, n);
    assert_eq!(s.stack_a.len(), pushed);
    for i in 0..pushed {
        assert!(s.stack_a.index(i) >= pivot);
    }
    for i in 0..s.stack_b.len() {
        assert!(s.stack_b.index(i) < pivot);
    }
}

/// The pivot is the middle element of a value-sorted copy of the prefix.
#[test]
fn pivot_is_the_sorted_middle() {
    let mut s = State::new(&[2, 0, 1, 4, 3]);
    assert_eq!(State::choose_pivot(&s.stack_a, 5), 2);
    assert_eq!(State::choose_pivot(&s.stack_a, 4), 2);
    assert_eq!(State::choose_pivot(&s.stack_a, 3), 1);
    assert_eq!(State::choose_pivot(&s.stack_a, 1), 2);
    s.op(Op::Sa);
    assert_eq!(State::choose_pivot(&s.stack_a, 1), 0);
}
