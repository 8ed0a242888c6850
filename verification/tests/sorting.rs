use push_swap::state::State;

/// All permutations of `0..n`, via Heap's algorithm.
fn permutations(n: usize) -> Vec<Vec<i32>> {
    fn go(k: usize, a: &mut Vec<i32>, out: &mut Vec<Vec<i32>>) {
        if k <= 1 {
            out.push(a.clone());
            return;
        }
        for i in 0..k {
            go(k - 1, a, out);
            if k % 2 == 0 {
                a.swap(i, k - 1);
            } else {
                a.swap(0, k - 1);
            }
        }
    }
    let mut a: Vec<i32> = (0..n as i32).collect();
    let mut out = Vec::new();
    go(n, &mut a, &mut out);
    out
}

fn assert_fully_sorted(s: &State, n: usize) {
    assert_eq!(s.stack_b.len(), 0, "stack B must end empty");
    assert_eq!(s.stack_a.len(), n);
    for i in 0..n {
        assert_eq!(s.stack_a.index(i), i as i32, "stack A must be ascending 0..n");
    }
}

fn sort_and_check(values: &[i32]) {
    let mut s = State::new(values);
    let n = s.stack_a.len();
    s.sort_stack_a(n);
    assert_fully_sorted(&s, n);
    check_replay(&s);
}

/// Replays the log: applying `ops[i]` to `saves[i]` must reproduce
/// `saves[i + 1]`, or the final stacks at the last index.
fn check_replay(s: &State) {
    assert_eq!(s.ops.len(), s.saves.len());
    for i in 0..s.saves.len() {
        let mut replay = s.from_save(i);
        replay.op_unsaved(s.ops[i]);
        if i + 1 < s.saves.len() {
            assert!(replay.stack_a.contents_eq(&s.saves[i + 1].stack_a));
            assert!(replay.stack_b.contents_eq(&s.saves[i + 1].stack_b));
        } else {
            assert!(replay.stack_a.contents_eq(&s.stack_a));
            assert!(replay.stack_b.contents_eq(&s.stack_b));
        }
    }
}

#[test]
fn sorts_every_permutation_up_to_six() {
    for n in 0..=6 {
        for p in permutations(n) {
            sort_and_check(&p);
        }
    }
}

#[test]
fn sorts_sampled_large_permutations() {
    let mut seed: u64 = 0x9E3779B97F4A7C15;
    for &n in &[20usize, 50, 120] {
        for _ in 0..3 {
            let mut v: Vec<i32> = (0..n as i32).collect();
            // Fisher-Yates with a small LCG, deterministic.
            for i in (1..n).rev() {
                seed = seed.wrapping_mul(6364136223846793005).wrapping_add(1442695040888963407);
                let j = ((seed >> 33) as usize) % (i + 1);
                v.swap(i, j);
            }
            sort_and_check(&v);
        }
    }
}

#[test]
fn rank_normalizes_arbitrary_values() {
    // Raw values are replaced by their ranks before sorting.
    let mut s = State::new(&[300, -7, 45, 0]);
    assert_eq!(s.stack_a.index(0), 3);
    assert_eq!(s.stack_a.index(1), 0);
    assert_eq!(s.stack_a.index(2), 2);
    assert_eq!(s.stack_a.index(3), 1);
    s.sort_stack_a(4);
    assert_fully_sorted(&s, 4);
}

#[test]
fn rank_ties_break_by_input_order() {
    let s = State::new(&[5, 5, 1]);
    assert_eq!(s.stack_a.index(0), 1);
    assert_eq!(s.stack_a.index(1), 2);
    assert_eq!(s.stack_a.index(2), 0);
}

#[test]
fn empty_and_singleton_inputs() {
    let mut s = State::new(&[]);
    s.sort_stack_a(0);
    assert_fully_sorted(&s, 0);
    let mut s1 = State::new(&[42]);
    s1.sort_stack_a(1);
    assert_fully_sorted(&s1, 1);
    assert_eq!(s1.ops.len(), 0, "a single element takes no operations");
}

#[test]
fn log_and_snapshots_grow_together() {
    let mut s = State::new(&[2, 0, 1]);
    assert_eq!(s.ops.len(), 0);
    assert_eq!(s.saves.len(), 0);
    s.op(push_swap::ops::Op::Sa);
    assert_eq!(s.ops.len(), 1);
    assert_eq!(s.saves.len(), 1);
    assert_eq!(s.saves[0].stack_a.index(0), 2);
    s.op(push_swap::ops::Op::Pb);
    assert_eq!(s.ops.len(), 2);
    assert_eq!(s.saves.len(), 2);
    check_replay(&s);
}

/// The operation log is the system's output: replaying it alone over a fresh
/// state reproduces the sorted result.
#[test]
fn emitted_log_reproduces_the_result() {
    let values = [3, 1, 4, 0, 2, 5];
    let mut s = State::new(&values);
    let n = s.stack_a.len();
    s.sort_stack_a(n);
    let mut replay = State::new(&values);
    replay.ops(&s.ops);
    assert!(replay.stack_a.contents_eq(&s.stack_a));
    assert!(replay.stack_b.contents_eq(&s.stack_b));
    assert_eq!(replay.stack_b.len(), 0);
}

/// A single element on top of B is sorted into its final resting stack by
/// exactly one logged `pa`; a zero-length sort logs nothing.
#[test]
fn b_sort_logs_exactly_the_plan() {
    let mut s = State::new(&[1, 0]);
    s.op(push_swap::ops::Op::Pb);
    let logged = s.ops.len();
    s.sort_stack_b(0);
    assert_eq!(s.ops.len(), logged, "a zero-length sort appends nothing");
    s.sort_stack_b(1);
    assert_eq!(s.ops.len(), logged + 1);
    assert_eq!(s.ops[logged], push_swap::ops::Op::Pa);
}
