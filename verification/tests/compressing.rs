use push_swap::compressor::{Compressor, CompressorState};
use push_swap::ops::Op;
use push_swap::state::State;

fn fresh_comp() -> CompressorState {
    CompressorState { ops: Vec::new(), depth: 0, skip: 0 }
}

/// An adjacent `ra` immediately followed by `rra` on a non-empty stack A is
/// a no-op pair: the compressor must report a skip of at least 2 at that
/// position, and splicing its replacement into the log must reproduce the
/// same final stacks.
#[test]
fn no_op_rotation_pair_is_elided() {
    let mut s = State::new(&[1, 0]);
    s.op(Op::Ra);
    s.op(Op::Rra);
    s.op(Op::Sa);
    // A is now sorted: [0, 1].
    assert_eq!(s.stack_a.index(0), 0);
    assert_eq!(s.stack_a.index(1), 1);

    let mut c = Compressor::new(&s, 2, 500);
    let (skip, replacement) = c.compress(fresh_comp(), 0);
    assert!(skip >= 2, "skip was {}", skip);

    // Splice: the replacement chain reaches the snapshot at
    // index + skip + len - 1, so the original operations before it go away.
    let fut = 0 + skip + replacement.len() - 1;
    let mut spliced: Vec<Op> = replacement.clone();
    spliced.extend_from_slice(&s.ops[fut..]);
    assert!(spliced.len() < s.ops.len(), "splice must shorten the log");

    let mut replayed = State::new(&[1, 0]);
    replayed.ops(&spliced);
    assert!(replayed.stack_a.contents_eq(&s.stack_a));
    assert!(replayed.stack_b.contents_eq(&s.stack_b));
}

/// With no redundancy in the window the search reports no shortcut.
#[test]
fn no_shortcut_reports_zero() {
    let mut s = State::new(&[1, 0]);
    s.op(Op::Sa);
    let mut c = Compressor::new(&s, 1, 10);
    let (skip, replacement) = c.compress(fresh_comp(), 0);
    assert_eq!(skip, 0);
    assert!(replacement.is_empty());
}

/// A compressed log still sorts: shorten a real run and replay it.
#[test]
fn splice_preserves_sorting() {
    let values = [4, 0, 3, 1, 2];
    let mut s = State::new(&values);
    // A deliberately wasteful prelude before a real sort.
    s.op(Op::Ra);
    s.op(Op::Rra);
    let n = s.stack_a.len();
    s.sort_stack_a(n);
    for i in 0..n {
        assert_eq!(s.stack_a.index(i), i as i32);
    }

    let mut c = Compressor::new(&s, 2, 500);
    let (skip, replacement) = c.compress(fresh_comp(), 0);
    assert!(skip >= 2);
    let fut = 0 + skip + replacement.len() - 1;
    let mut spliced: Vec<Op> = replacement.clone();
    spliced.extend_from_slice(&s.ops[fut..]);

    let mut replayed = State::new(&values);
    replayed.ops(&spliced);
    assert!(replayed.stack_a.contents_eq(&s.stack_a));
    assert!(replayed.stack_b.contents_eq(&s.stack_b));
    assert_eq!(replayed.stack_b.len(), 0);
}

/// The compressor leaves the searched state untouched.
#[test]
fn search_does_not_mutate_the_state() {
    let mut s = State::new(&[2, 0, 1]);
    let n = s.stack_a.len();
    s.sort_stack_a(n);
    let ops_before = s.ops.clone();
    let mut c = Compressor::new(&s, 1, 50);
    let _ = c.compress(fresh_comp(), 0);
    assert_eq!(s.ops, ops_before);
}
