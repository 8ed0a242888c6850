use push_swap::ops::Op;
use push_swap::state::State;

/// Builds a state with the given contents on A and B.  The values must
/// together form a permutation of 0..a.len()+b.len(); the B part is loaded
/// by pushing its reverse across from A.
fn make(a: &[i32], b: &[i32]) -> State {
    let mut input: Vec<i32> = b.iter().rev().copied().collect();
    input.extend_from_slice(a);
    let mut s = State::new(&input);
    for _ in 0..b.len() {
        s.op_unsaved(Op::Pb);
    }
    // The pushes consumed the reversed B part from A's front, so what
    // remains on A is exactly `a` and B holds `b` front to back.
    assert_contents(&s, a, b);
    s
}

fn assert_contents(s: &State, a: &[i32], b: &[i32]) {
    assert_eq!(s.stack_a.len(), a.len());
    assert_eq!(s.stack_b.len(), b.len());
    for (i, &v) in a.iter().enumerate() {
        assert_eq!(s.stack_a.index(i), v, "stack A at {}", i);
    }
    for (i, &v) in b.iter().enumerate() {
        assert_eq!(s.stack_b.index(i), v, "stack B at {}", i);
    }
}

fn after(a: &[i32], b: &[i32], op: Op) -> State {
    let mut s = make(a, b);
    s.op(op);
    s
}

#[test]
fn pa_moves_front_of_b_to_front_of_a() {
    assert_contents(&after(&[2, 0], &[1, 3], Op::Pa), &[1, 2, 0], &[3]);
    // No-op when B is empty.
    assert_contents(&after(&[1, 0], &[], Op::Pa), &[1, 0], &[]);
}

#[test]
fn pb_moves_front_of_a_to_front_of_b() {
    assert_contents(&after(&[2, 0], &[1, 3], Op::Pb), &[0], &[2, 1, 3]);
    assert_contents(&after(&[], &[0, 1], Op::Pb), &[], &[0, 1]);
}

#[test]
fn sa_swaps_the_two_frontmost_of_a() {
    assert_contents(&after(&[2, 0, 1], &[], Op::Sa), &[0, 2, 1], &[]);
    // No-op with fewer than two elements.
    assert_contents(&after(&[0], &[], Op::Sa), &[0], &[]);
}

#[test]
fn sb_swaps_the_two_frontmost_of_b() {
    assert_contents(&after(&[0], &[2, 1], Op::Sb), &[0], &[1, 2]);
    assert_contents(&after(&[0, 1], &[2], Op::Sb), &[0, 1], &[2]);
}

#[test]
fn ss_swaps_both_tops_independently() {
    assert_contents(&after(&[1, 0], &[3, 2], Op::Ss), &[0, 1], &[2, 3]);
    // Each side is independently conditioned on having two elements.
    assert_contents(&after(&[1, 0], &[2], Op::Ss), &[0, 1], &[2]);
}

#[test]
fn ra_rotates_front_of_a_to_its_back() {
    assert_contents(&after(&[2, 0, 1], &[], Op::Ra), &[0, 1, 2], &[]);
    assert_contents(&after(&[], &[0], Op::Ra), &[], &[0]);
}

#[test]
fn rb_rotates_front_of_b_to_its_back() {
    assert_contents(&after(&[0], &[2, 1], Op::Rb), &[0], &[1, 2]);
}

#[test]
fn rr_rotates_both_fronts() {
    assert_contents(&after(&[1, 0], &[3, 2], Op::Rr), &[0, 1], &[2, 3]);
}

#[test]
fn rra_rotates_back_of_a_to_its_front() {
    assert_contents(&after(&[0, 1, 2], &[], Op::Rra), &[2, 0, 1], &[]);
}

#[test]
fn rrb_rotates_back_of_b_to_its_front() {
    assert_contents(&after(&[0], &[1, 2], Op::Rrb), &[0], &[2, 1]);
}

#[test]
fn rrr_rotates_both_backs() {
    assert_contents(&after(&[0, 1], &[2, 3], Op::Rrr), &[1, 0], &[3, 2]);
}

#[test]
fn every_application_logs_and_snapshots() {
    let mut s = make(&[1, 0], &[]);
    let ops = [Op::Ra, Op::Pa, Op::Ss, Op::Rrr];
    for (i, &op) in ops.iter().enumerate() {
        s.op(op);
        assert_eq!(s.ops.len(), i + 1);
        assert_eq!(s.saves.len(), i + 1);
        assert_eq!(s.ops[i], op);
    }
}
