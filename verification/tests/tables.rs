use push_swap::ops::Op;
use push_swap::sort_small::{sort_small, Block};
use push_swap::state::State;

fn permutations(n: usize) -> Vec<Vec<i32>> {
    fn go(k: usize, a: &mut Vec<i32>, out: &mut Vec<Vec<i32>>) {
        if k <= 1 {
            out.push(a.clone());
            return;
        }
        for i in 0..k {
            go(k - 1, a, out);
            if k % 2 == 0 {
                a.swap(i, k - 1);
            } else {
                a.swap(0, k - 1);
            }
        }
    }
    let mut a: Vec<i32> = (0..n as i32).collect();
    let mut out = Vec::new();
    go(n, &mut a, &mut out);
    out
}

/// Every table sequence for a prefix on top of A sorts exactly that
/// ordering, for all n! orderings with n in {2, 3}.
#[test]
fn a_tables_sort_every_ordering() {
    for n in [2usize, 3] {
        for p in permutations(n) {
            let mut s = State::new(&p);
            let row = sort_small(&s, Block::BlkATop, n);
            s.ops(&row);
            assert_eq!(s.stack_b.len(), 0);
            assert_eq!(s.stack_a.len(), n);
            for i in 0..n {
                assert_eq!(s.stack_a.index(i), i as i32, "ordering {:?} not sorted", p);
            }
        }
    }
}

/// Every table sequence for a prefix on top of B both sorts it onto A and
/// leaves B empty, for all n! orderings with n in {2, 3}.
#[test]
fn b_tables_sort_and_drain_every_ordering() {
    for n in [2usize, 3] {
        for p in permutations(n) {
            // Pushing the reversed ordering from A leaves exactly `p` on B.
            let rev: Vec<i32> = p.iter().rev().copied().collect();
            let mut s = State::new(&rev);
            for _ in 0..n {
                s.op(Op::Pb);
            }
            for i in 0..n {
                assert_eq!(s.stack_b.index(i), p[i]);
            }
            let row = sort_small(&s, Block::BlkBTop, n);
            s.ops(&row);
            assert_eq!(s.stack_b.len(), 0, "ordering {:?} left B non-empty", p);
            assert_eq!(s.stack_a.len(), n);
            for i in 0..n {
                assert_eq!(s.stack_a.index(i), i as i32, "ordering {:?} not sorted", p);
            }
        }
    }
}

/// A single element on top of B takes exactly one `pa`; a trivial prefix on
/// A takes nothing.
#[test]
fn trivial_prefixes() {
    let s = State::new(&[0, 1]);
    assert_eq!(sort_small(&s, Block::BlkATop, 0).len(), 0);
    assert_eq!(sort_small(&s, Block::BlkATop, 1).len(), 0);
    let mut t = State::new(&[1, 0]);
    t.op(Op::Pb);
    let row = sort_small(&t, Block::BlkBTop, 1);
    assert_eq!(row.len(), 1);
    assert!(matches!(row[0], Op::Pa));
}

/// The asserted-minimal lengths: the already-sorted ordering takes no
/// operations on A, and the fully descending one takes the longest row.
#[test]
fn table_row_lengths() {
    let sorted3 = State::new(&[0, 1, 2]);
    assert_eq!(sort_small(&sorted3, Block::BlkATop, 3).len(), 0);
    let desc3 = State::new(&[2, 1, 0]);
    assert_eq!(sort_small(&desc3, Block::BlkATop, 3).len(), 5);
    let swapped = State::new(&[1, 0, 2]);
    assert_eq!(sort_small(&swapped, Block::BlkATop, 2).len(), 1);
}
