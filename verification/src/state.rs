//! The sorting state: both stacks, the append-only operation log, and the
//! parallel list of pre-operation snapshots.
//!
//! The state is created from an input sequence whose values are replaced by
//! their ranks, and it is mutated exclusively through [`State::op`], which
//! snapshots the stacks before every applied operation.  The invariant
//! [`State::log_ok`] ties the log and the snapshots together: applying
//! `ops[i]` to `saves[i]` reproduces `saves[i + 1]`, or the current stacks at
//! the last index.

use vstd::prelude::*;
use vstd::relations::{sorted_by, total_ordering};
use vstd::seq_lib::lemma_sorted_unique;

use crate::ops::{apply_op, apply_ops, lemma_apply_ops_snoc, Op};
use crate::stack_deque::StackDeque;

verus! {

/// Values ordered ascending.
pub open spec fn value_le() -> spec_fn(i32, i32) -> bool {
    |x: i32, y: i32| x <= y
}

/// The sequence rearranged into ascending order.
pub open spec fn value_sorted(s: Seq<i32>) -> Seq<i32> {
    s.sort_by(value_le())
}

/// Ascending value order is a total ordering.
pub proof fn lemma_value_le_total()
    ensures
        total_ordering(value_le()),
{
    assert forall|x: i32, y: i32, z: i32| #[trigger]
        value_le()(x, y) && #[trigger] value_le()(y, z) implies value_le()(x, z) by {}
}

/// An ascending sequence holding the same values as `s` is exactly
/// `value_sorted(s)`.
pub proof fn lemma_value_sorted_is(s: Seq<i32>, t: Seq<i32>)
    requires
        sorted_by(t, value_le()),
        t.to_multiset() == s.to_multiset(),
    ensures
        value_sorted(s) == t,
{
    lemma_value_le_total();
    s.lemma_sort_by_ensures(value_le());
    lemma_sorted_unique(t, s.sort_by(value_le()), value_le());
}

/// Rearranging does not change the length.
pub proof fn lemma_value_sorted_len(s: Seq<i32>)
    ensures
        value_sorted(s).len() == s.len(),
{
    lemma_value_le_total();
    s.lemma_sort_by_ensures(value_le());
    broadcast use vstd::seq_lib::group_to_multiset_ensures;

    assert(value_sorted(s).to_multiset().len() == value_sorted(s).len());
    assert(s.to_multiset().len() == s.len());
}

/// The stack pair recorded immediately before a logged operation.
pub struct SaveState {
    pub stack_a: StackDeque<i32>,
    pub stack_b: StackDeque<i32>,
}

impl SaveState {
    /// Both recorded stacks are intact, share the capacity `cap`, and hold
    /// `cap` elements between them.
    pub open spec fn wf(&self, cap: int) -> bool {
        &&& self.stack_a.wf()
        &&& self.stack_b.wf()
        &&& self.stack_a.cap() == cap
        &&& self.stack_b.cap() == cap
        &&& self.stack_a@.len() + self.stack_b@.len() == cap
    }
}

/// The two stacks being sorted, the log of applied operations, and one
/// snapshot per logged operation.
pub struct State {
    pub stack_a: StackDeque<i32>,
    pub stack_b: StackDeque<i32>,
    pub ops: Vec<Op>,
    pub saves: Vec<SaveState>,
}

/// How many positions of `v` hold a value that ranks strictly below position
/// `i`, among the first `j` positions; ties are broken by input order.
pub open spec fn rank_count(v: Seq<i32>, i: int, j: int) -> int
    decreases j,
{
    if j <= 0 {
        0
    } else {
        rank_count(v, i, j - 1) + if v[j - 1] < v[i] || (v[j - 1] == v[i] && j - 1 < i) {
            1int
        } else {
            0int
        }
    }
}

/// The rank of the value at position `i` of `v`: the number of positions that
/// rank strictly below it, ties broken by input order.
pub open spec fn rank_of(v: Seq<i32>, i: int) -> int {
    rank_count(v, i, v.len() as int)
}

proof fn lemma_rank_count_mono(v: Seq<i32>, i: int, j: int, m: int)
    requires
        0 <= i < v.len(),
        0 <= j < v.len(),
        v[i] < v[j] || (v[i] == v[j] && i < j),
        0 <= m <= v.len(),
    ensures
        rank_count(v, j, m) >= rank_count(v, i, m) + if i < m {
            1int
        } else {
            0int
        },
    decreases m,
{
    if m > 0 {
        lemma_rank_count_mono(v, i, j, m - 1);
    }
}

proof fn lemma_rank_count_range(v: Seq<i32>, i: int, j: int)
    requires
        0 <= i < v.len(),
        0 <= j <= v.len(),
    ensures
        0 <= rank_count(v, i, j) <= j - if i < j {
            1int
        } else {
            0int
        },
    decreases j,
{
    if j > 0 {
        lemma_rank_count_range(v, i, j - 1);
    }
}

/// A rank is always a valid position: strictly below the input length.
pub proof fn lemma_rank_of_range(v: Seq<i32>, i: int)
    requires
        0 <= i < v.len(),
    ensures
        0 <= rank_of(v, i) < v.len(),
{
    lemma_rank_count_range(v, i, v.len() as int);
}

proof fn lemma_strict_inc_gap(t: Seq<i32>, i: int, j: int)
    requires
        sorted_by(t, value_le()),
        t.no_duplicates(),
        0 <= i <= j < t.len(),
    ensures
        t[j] - t[i] >= j - i,
    decreases j - i,
{
    if j > i {
        lemma_strict_inc_gap(t, i, j - 1);
        assert(value_le()(t[j - 1], t[j]));
    }
}

/// A duplicate-free sequence of `n` values drawn from `0..n` sorts to
/// exactly `0, 1, ..., n-1`.
pub proof fn lemma_value_sorted_identity(s: Seq<i32>)
    requires
        s.no_duplicates(),
        forall|i: int| 0 <= i < s.len() ==> 0 <= #[trigger] s[i] < s.len(),
    ensures
        value_sorted(s) == Seq::new(s.len(), |i: int| i as i32),
{
    broadcast use vstd::seq_lib::group_to_multiset_ensures;
    broadcast use vstd::multiset::group_multiset_axioms;

    lemma_value_le_total();
    s.lemma_sort_by_ensures(value_le());
    lemma_value_sorted_len(s);
    let vs = value_sorted(s);
    s.lemma_multiset_has_no_duplicates();
    vs.lemma_multiset_has_no_duplicates_conv();
    assert forall|i: int| 0 <= i < vs.len() implies 0 <= #[trigger] vs[i] < vs.len() by {
        assert(vs.contains(vs[i]));
        assert(s.to_multiset().count(vs[i]) > 0);
        assert(s.contains(vs[i]));
    }
    assert forall|i: int| 0 <= i < vs.len() implies #[trigger] vs[i] == i by {
        lemma_strict_inc_gap(vs, 0, i);
        lemma_strict_inc_gap(vs, i, vs.len() - 1);
    }
    assert(vs =~= Seq::new(s.len(), |i: int| i as i32));
}

/// Distinct positions receive distinct ranks: with ties broken by input
/// order, the rank assignment is injective.
pub proof fn lemma_rank_of_injective(v: Seq<i32>, i: int, j: int)
    requires
        0 <= i < v.len(),
        0 <= j < v.len(),
        i != j,
    ensures
        rank_of(v, i) != rank_of(v, j),
{
    if v[i] < v[j] || (v[i] == v[j] && i < j) {
        lemma_rank_count_mono(v, i, j, v.len() as int);
    } else {
        lemma_rank_count_mono(v, j, i, v.len() as int);
    }
}

impl State {
    /// The shared capacity of both stacks, fixed at construction.
    pub open spec fn cap(&self) -> int {
        self.stack_a.cap()
    }

    /// Both stacks are intact, share the capacity, hold `cap` elements
    /// between them, and every snapshot does the same.
    pub open spec fn wf(&self) -> bool {
        &&& self.stack_a.wf()
        &&& self.stack_b.wf()
        &&& self.stack_b.cap() == self.cap()
        &&& self.stack_a@.len() + self.stack_b@.len() == self.cap()
        &&& forall|i: int| 0 <= i < self.saves@.len() ==> (#[trigger] self.saves@[i]).wf(self.cap())
    }

    /// The stack pair recorded in snapshot `i`.
    pub open spec fn snap(&self, i: int) -> (Seq<i32>, Seq<i32>) {
        (self.saves@[i].stack_a@, self.saves@[i].stack_b@)
    }

    /// The current stack pair.
    pub open spec fn pair(&self) -> (Seq<i32>, Seq<i32>) {
        (self.stack_a@, self.stack_b@)
    }

    /// Applying `ops[i]` to snapshot `i` reproduces snapshot `i + 1`, or the
    /// current stacks at the last index.
    pub open spec fn log_ok(&self) -> bool {
        forall|i: int|
            0 <= i < self.saves@.len() ==> #[trigger] apply_op(
                self.ops@[i],
                self.saves@[i].stack_a@,
                self.saves@[i].stack_b@,
            ) == if i + 1 < self.saves@.len() {
                self.snap(i + 1)
            } else {
                self.pair()
            }
    }

    /// The full invariant: well-formed stacks and snapshots, one snapshot per
    /// logged operation, and a replayable log.
    pub open spec fn inv(&self) -> bool {
        &&& self.wf()
        &&& self.ops@.len() == self.saves@.len()
        &&& self.log_ok()
    }

    /// The log replays deterministically: the log and the snapshot list have
    /// the same length, and applying `ops[i]` to snapshot `i` reproduces
    /// snapshot `i + 1`, or the current stacks at the last index.
    pub proof fn lemma_log_replays(&self, i: int)
        requires
            self.inv(),
            0 <= i < self.saves@.len(),
        ensures
            self.ops@.len() == self.saves@.len(),
            apply_op(self.ops@[i], self.saves@[i].stack_a@, self.saves@[i].stack_b@)
                == if i + 1 < self.saves@.len() {
                    self.snap(i + 1)
                } else {
                    self.pair()
                },
    {
    }

    /// Build the initial state: every input value is replaced by its rank
    /// (ties broken by input order), the ranks are placed on stack A in input
    /// order, and stack B starts empty.
    pub fn new(values: &[i32]) -> (r: State)
        requires
            values@.len() <= usize::MAX / 3,
            values@.len() <= i32::MAX,
        ensures
            r.inv(),
            r.cap() == values@.len(),
            r.stack_a@.len() == values@.len(),
            r.stack_b@.len() == 0,
            r.ops@.len() == 0,
            r.saves@.len() == 0,
            forall|k: int| 0 <= k < values@.len()
                ==> #[trigger] r.stack_a@[k] as int == rank_of(values@, k),
            forall|k: int| 0 <= k < values@.len() ==> 0 <= #[trigger] r.stack_a@[k] < values@.len(),
            r.stack_a@.no_duplicates(),
    {
        let n = values.len();
        let mut stack_a = StackDeque::<i32>::new(n);
        let stack_b = StackDeque::<i32>::new(n);
        let mut i: usize = 0;
        while i < n
            invariant
                n == values@.len(),
                n <= usize::MAX / 3,
                n <= i32::MAX,
                i <= n,
                stack_a.wf(),
                stack_a.cap() == n,
                stack_a@.len() == i,
                forall|k: int| 0 <= k < i ==> #[trigger] stack_a@[k] as int == rank_of(values@, k),
            decreases n - i,
        {
            let mut cnt: usize = 0;
            let mut j: usize = 0;
            while j < n
                invariant
                    n == values@.len(),
                    i < n,
                    j <= n,
                    cnt <= j,
                    cnt as int == rank_count(values@, i as int, j as int),
                decreases n - j,
            {
                if values[j] < values[i] || (values[j] == values[i] && j < i) {
                    cnt += 1;
                }
                j += 1;
            }
            stack_a.push_back(cnt as i32);
            i += 1;
        }
        proof {
            assert forall|p: int, q: int|
                0 <= p < stack_a@.len() && 0 <= q < stack_a@.len() && p != q
                implies stack_a@[p] != stack_a@[q] by {
                lemma_rank_of_injective(values@, p, q);
            }
            assert forall|k: int| 0 <= k < n implies 0 <= #[trigger] stack_a@[k] < n by {
                lemma_rank_of_range(values@, k);
            }
        }
        State { stack_a, stack_b, ops: Vec::new(), saves: Vec::new() }
    }

    /// Apply one operation to the stacks and append it to the log, without
    /// recording a snapshot.  The caller is responsible for keeping the log
    /// and the snapshot list in step.
    pub fn op_unsaved(&mut self, op: Op)
        requires
            old(self).wf(),
        ensures
            final(self).wf(),
            final(self).cap() == old(self).cap(),
            final(self).stack_a@ == apply_op(op, old(self).stack_a@, old(self).stack_b@).0,
            final(self).stack_b@ == apply_op(op, old(self).stack_a@, old(self).stack_b@).1,
            final(self).ops@ == old(self).ops@.push(op),
            final(self).saves@ == old(self).saves@,
            (final(self).stack_a@ + final(self).stack_b@).to_multiset() == (old(self).stack_a@
                + old(self).stack_b@).to_multiset(),
    {
        proof {
            crate::ops::lemma_apply_op_conserves(op, self.stack_a@, self.stack_b@);
        }
        match op {
            Op::Pa => {
                if self.stack_b.len() != 0 {
                    let v = self.stack_b.front();
                    self.stack_b.pop_front();
                    self.stack_a.push_front(v);
                }
            }
            Op::Pb => {
                if self.stack_a.len() != 0 {
                    let v = self.stack_a.front();
                    self.stack_a.pop_front();
                    self.stack_b.push_front(v);
                }
            }
            Op::Sa => {
                self.swap_top_a();
            }
            Op::Sb => {
                self.swap_top_b();
            }
            Op::Ss => {
                self.swap_top_a();
                self.swap_top_b();
            }
            Op::Ra => {
                self.rotate_a();
            }
            Op::Rb => {
                self.rotate_b();
            }
            Op::Rr => {
                self.rotate_a();
                self.rotate_b();
            }
            Op::Rra => {
                self.rev_rotate_a();
            }
            Op::Rrb => {
                self.rev_rotate_b();
            }
            Op::Rrr => {
                self.rev_rotate_a();
                self.rev_rotate_b();
            }
        }
        self.ops.push(op);
    }

    fn swap_top_a(&mut self)
        requires
            old(self).wf(),
        ensures
            final(self).wf(),
            final(self).cap() == old(self).cap(),
            final(self).stack_a@ == crate::ops::swapped_top(old(self).stack_a@),
            final(self).stack_b@ == old(self).stack_b@,
            final(self).ops@ == old(self).ops@,
            final(self).saves@ == old(self).saves@,
    {
        if self.stack_a.len() >= 2 {
            let first = self.stack_a.index(0);
            let second = self.stack_a.index(1);
            self.stack_a.set(0, second);
            self.stack_a.set(1, first);
        }
    }

    fn swap_top_b(&mut self)
        requires
            old(self).wf(),
        ensures
            final(self).wf(),
            final(self).cap() == old(self).cap(),
            final(self).stack_a@ == old(self).stack_a@,
            final(self).stack_b@ == crate::ops::swapped_top(old(self).stack_b@),
            final(self).ops@ == old(self).ops@,
            final(self).saves@ == old(self).saves@,
    {
        if self.stack_b.len() >= 2 {
            let first = self.stack_b.index(0);
            let second = self.stack_b.index(1);
            self.stack_b.set(0, second);
            self.stack_b.set(1, first);
        }
    }

    fn rotate_a(&mut self)
        requires
            old(self).wf(),
        ensures
            final(self).wf(),
            final(self).cap() == old(self).cap(),
            final(self).stack_a@ == crate::ops::rotated(old(self).stack_a@),
            final(self).stack_b@ == old(self).stack_b@,
            final(self).ops@ == old(self).ops@,
            final(self).saves@ == old(self).saves@,
    {
        if self.stack_a.len() != 0 {
            let v = self.stack_a.front();
            self.stack_a.pop_front();
            self.stack_a.push_back(v);
        }
    }

    fn rotate_b(&mut self)
        requires
            old(self).wf(),
        ensures
            final(self).wf(),
            final(self).cap() == old(self).cap(),
            final(self).stack_a@ == old(self).stack_a@,
            final(self).stack_b@ == crate::ops::rotated(old(self).stack_b@),
            final(self).ops@ == old(self).ops@,
            final(self).saves@ == old(self).saves@,
    {
        if self.stack_b.len() != 0 {
            let v = self.stack_b.front();
            self.stack_b.pop_front();
            self.stack_b.push_back(v);
        }
    }

    fn rev_rotate_a(&mut self)
        requires
            old(self).wf(),
        ensures
            final(self).wf(),
            final(self).cap() == old(self).cap(),
            final(self).stack_a@ == crate::ops::rev_rotated(old(self).stack_a@),
            final(self).stack_b@ == old(self).stack_b@,
            final(self).ops@ == old(self).ops@,
            final(self).saves@ == old(self).saves@,
    {
        if self.stack_a.len() != 0 {
            let v = self.stack_a.back();
            self.stack_a.pop_back();
            self.stack_a.push_front(v);
        }
    }

    fn rev_rotate_b(&mut self)
        requires
            old(self).wf(),
        ensures
            final(self).wf(),
            final(self).cap() == old(self).cap(),
            final(self).stack_a@ == old(self).stack_a@,
            final(self).stack_b@ == crate::ops::rev_rotated(old(self).stack_b@),
            final(self).ops@ == old(self).ops@,
            final(self).saves@ == old(self).saves@,
    {
        if self.stack_b.len() != 0 {
            let v = self.stack_b.back();
            self.stack_b.pop_back();
            self.stack_b.push_front(v);
        }
    }

    /// Record a snapshot of the current stacks, then apply `op` and log it.
    /// This is the single mutation entry point that keeps [`State::inv`].
    pub fn op(&mut self, op: Op)
        requires
            old(self).wf(),
        ensures
            final(self).wf(),
            final(self).cap() == old(self).cap(),
            final(self).stack_a@ == apply_op(op, old(self).stack_a@, old(self).stack_b@).0,
            final(self).stack_b@ == apply_op(op, old(self).stack_a@, old(self).stack_b@).1,
            final(self).ops@ == old(self).ops@.push(op),
            final(self).saves@.len() == old(self).saves@.len() + 1,
            forall|i: int|
                0 <= i < old(self).saves@.len()
                    ==> final(self).saves@[i] == old(self).saves@[i],
            final(self).saves@[old(self).saves@.len() as int].stack_a@ == old(self).stack_a@,
            final(self).saves@[old(self).saves@.len() as int].stack_b@ == old(self).stack_b@,
            (final(self).stack_a@ + final(self).stack_b@).to_multiset() == (old(self).stack_a@
                + old(self).stack_b@).to_multiset(),
            old(self).inv() ==> final(self).inv(),
    {
        let save = SaveState {
            stack_a: self.stack_a.duplicate(),
            stack_b: self.stack_b.duplicate(),
        };
        self.saves.push(save);
        self.op_unsaved(op);
        proof {
            if old(self).inv() {
                let n = old(self).saves@.len() as int;
                assert forall|i: int| 0 <= i < self.saves@.len() implies #[trigger] apply_op(
                    self.ops@[i],
                    self.saves@[i].stack_a@,
                    self.saves@[i].stack_b@,
                ) == if i + 1 < self.saves@.len() {
                    self.snap(i + 1)
                } else {
                    self.pair()
                } by {
                    if i < n {
                        assert(apply_op(
                            old(self).ops@[i],
                            old(self).saves@[i].stack_a@,
                            old(self).saves@[i].stack_b@,
                        ) == if i + 1 < n {
                            old(self).snap(i + 1)
                        } else {
                            old(self).pair()
                        });
                    }
                }
            }
        }
    }

    /// Apply a whole operation sequence in order through [`State::op`]: the
    /// operations are appended to the log, one snapshot is recorded per
    /// operation (holding the stacks just before it), and the stacks end as
    /// the left-to-right application of the sequence.
    pub fn ops(&mut self, ops: &[Op])
        requires
            old(self).wf(),
        ensures
            final(self).wf(),
            final(self).cap() == old(self).cap(),
            final(self).stack_a@ == apply_ops(ops@, old(self).stack_a@, old(self).stack_b@).0,
            final(self).stack_b@ == apply_ops(ops@, old(self).stack_a@, old(self).stack_b@).1,
            final(self).ops@ == old(self).ops@ + ops@,
            final(self).saves@.len() == old(self).saves@.len() + ops@.len(),
            forall|i: int|
                0 <= i < old(self).saves@.len()
                    ==> final(self).saves@[i] == old(self).saves@[i],
            forall|i: int|
                0 <= i < ops@.len() ==> (#[trigger] final(self).saves@[old(self).saves@.len()
                    + i]).stack_a@ == apply_ops(
                    ops@.subrange(0, i),
                    old(self).stack_a@,
                    old(self).stack_b@,
                ).0 && final(self).saves@[old(self).saves@.len() + i].stack_b@ == apply_ops(
                    ops@.subrange(0, i),
                    old(self).stack_a@,
                    old(self).stack_b@,
                ).1,
            (final(self).stack_a@ + final(self).stack_b@).to_multiset() == (old(self).stack_a@
                + old(self).stack_b@).to_multiset(),
            old(self).inv() ==> final(self).inv(),
    {
        let ghost orig = *old(self);
        let mut i: usize = 0;
        assert(orig.ops@ + ops@.subrange(0, 0) =~= orig.ops@);
        while i < ops.len()
            invariant
                i <= ops@.len(),
                self.wf(),
                self.cap() == orig.cap(),
                self.stack_a@ == apply_ops(ops@.subrange(0, i as int), orig.stack_a@, orig.stack_b@).0,
                self.stack_b@ == apply_ops(ops@.subrange(0, i as int), orig.stack_a@, orig.stack_b@).1,
                self.ops@ == orig.ops@ + ops@.subrange(0, i as int),
                self.saves@.len() == orig.saves@.len() + i,
                forall|j: int| 0 <= j < orig.saves@.len() ==> self.saves@[j] == orig.saves@[j],
                forall|j: int|
                    0 <= j < i ==> (#[trigger] self.saves@[orig.saves@.len() + j]).stack_a@
                        == apply_ops(ops@.subrange(0, j), orig.stack_a@, orig.stack_b@).0
                        && self.saves@[orig.saves@.len() + j].stack_b@ == apply_ops(
                        ops@.subrange(0, j),
                        orig.stack_a@,
                        orig.stack_b@,
                    ).1,
                (self.stack_a@ + self.stack_b@).to_multiset() == (orig.stack_a@
                    + orig.stack_b@).to_multiset(),
                orig.inv() ==> self.inv(),
            decreases ops@.len() - i,
        {
            let o = ops[i];
            self.op(o);
            proof {
                let pre = ops@.subrange(0, i as int);
                assert(ops@.subrange(0, i + 1) =~= pre.push(o));
                lemma_apply_ops_snoc(pre, o, orig.stack_a@, orig.stack_b@);
                assert(orig.ops@ + pre.push(o) =~= (orig.ops@ + pre).push(o));
            }
            i += 1;
        }
        proof {
            assert(ops@.subrange(0, ops@.len() as int) =~= ops@);
        }
    }

    /// Rebuild the state as it stood immediately before `saves[save]`'s
    /// operation was applied: the recorded stacks, the log truncated to the
    /// operations already applied at that point, and no snapshots.
    pub fn from_save(&self, save: usize) -> (r: State)
        requires
            self.wf(),
            save < self.saves@.len(),
            save <= self.ops@.len(),
        ensures
            r.wf(),
            r.cap() == self.cap(),
            r.stack_a@ == self.saves@[save as int].stack_a@,
            r.stack_b@ == self.saves@[save as int].stack_b@,
            r.ops@ == self.ops@.subrange(0, save as int),
            r.saves@.len() == 0,
    {
        let st = &self.saves[save];
        let stack_a = st.stack_a.duplicate();
        let stack_b = st.stack_b.duplicate();
        let mut ops: Vec<Op> = Vec::new();
        let mut i: usize = 0;
        while i < save
            invariant
                save <= self.ops@.len(),
                i <= save,
                ops@ =~= self.ops@.subrange(0, i as int),
            decreases save - i,
        {
            ops.push(self.ops[i]);
            proof {
                assert(ops@ =~= self.ops@.subrange(0, i + 1));
            }
            i += 1;
        }
        State { stack_a, stack_b, ops, saves: Vec::new() }
    }

    /// Search the snapshot window `[start, start + len)` for the last
    /// snapshot holding exactly the stack pair of `st`.
    pub fn find_state(&self, st: &SaveState, start: usize, len: usize) -> (r: Option<usize>)
        requires
            self.wf(),
            st.stack_a.wf(),
            st.stack_b.wf(),
        ensures
            match r {
                Some(m) => {
                    &&& start <= m < self.saves@.len()
                    &&& m < start + len
                    &&& self.saves@[m as int].stack_a@ == st.stack_a@
                    &&& self.saves@[m as int].stack_b@ == st.stack_b@
                    &&& forall|j: int|
                        m < j < self.saves@.len() && j < start + len
                            ==> !((#[trigger] self.saves@[j]).stack_a@ == st.stack_a@
                                && self.saves@[j].stack_b@ == st.stack_b@)
                },
                None => forall|j: int|
                    start <= j < self.saves@.len() && j < start + len
                        ==> !((#[trigger] self.saves@[j]).stack_a@ == st.stack_a@
                            && self.saves@[j].stack_b@ == st.stack_b@),
            },
    {
        let total = self.saves.len();
        let end = if start >= total {
            total
        } else if len > total - start {
            total
        } else {
            start + len
        };
        let mut best: Option<usize> = None;
        let mut i: usize = start;
        if start >= end {
            return None;
        }
        while i < end
            invariant
                self.wf(),
                st.stack_a.wf(),
                st.stack_b.wf(),
                start <= i <= end,
                end <= self.saves@.len(),
                end <= start + len,
                self.saves@.len() <= start + len ==> end == self.saves@.len(),
                start + len <= self.saves@.len() ==> end == start + len,
                match best {
                    Some(m) => {
                        &&& start <= m < i
                        &&& self.saves@[m as int].stack_a@ == st.stack_a@
                        &&& self.saves@[m as int].stack_b@ == st.stack_b@
                        &&& forall|j: int|
                            m < j < i ==> !((#[trigger] self.saves@[j]).stack_a@ == st.stack_a@
                                && self.saves@[j].stack_b@ == st.stack_b@)
                    },
                    None => forall|j: int|
                        start <= j < i ==> !((#[trigger] self.saves@[j]).stack_a@ == st.stack_a@
                            && self.saves@[j].stack_b@ == st.stack_b@),
                },
            decreases end - i,
        {
            let cur = &self.saves[i];
            if cur.stack_a.contents_eq(&st.stack_a) && cur.stack_b.contents_eq(&st.stack_b) {
                best = Some(i);
            }
            i += 1;
        }
        best
    }

    /// The pivot for a partition step: the middle element (index `len / 2`)
    /// of a value-sorted copy of the stack's front `len` elements.
    pub fn choose_pivot(stack: &StackDeque<i32>, len: usize) -> (r: i32)
        requires
            stack.wf(),
            1 <= len <= stack@.len(),
        ensures
            r == value_sorted(stack@.subrange(0, len as int))[len as int / 2],
            stack@.subrange(0, len as int).contains(r),
    {
        let ghost prefix = stack@.subrange(0, len as int);
        let mut v: Vec<i32> = Vec::new();
        let mut i: usize = 0;
        while i < len
            invariant
                stack.wf(),
                len <= stack@.len(),
                i <= len,
                v@ =~= stack@.subrange(0, i as int),
            decreases len - i,
        {
            v.push(stack.index(i));
            proof {
                assert(v@ =~= stack@.subrange(0, i + 1));
            }
            i += 1;
        }
        let sorted = sort_values(&v);
        proof {
            lemma_value_le_total();
            prefix.lemma_sort_by_ensures(value_le());
            lemma_sorted_unique(sorted@, value_sorted(prefix), value_le());
            broadcast use vstd::seq_lib::group_to_multiset_ensures;

            assert(value_sorted(prefix).to_multiset().len() == prefix.to_multiset().len());
            assert(sorted@.len() == len);
            // the middle element of the sorted copy occurs in the prefix
            assert(sorted@.contains(sorted@[len as int / 2]));
            assert(prefix.to_multiset().count(sorted@[len as int / 2]) > 0);
            assert(prefix.contains(sorted@[len as int / 2]));
        }
        sorted[len / 2]
    }
}

/// An ascending copy of the input, built by insertion into a growing sorted
/// vector.
fn sort_values(input: &Vec<i32>) -> (out: Vec<i32>)
    ensures
        sorted_by(out@, value_le()),
        out@.to_multiset() == input@.to_multiset(),
        out@.len() == input@.len(),
{
    broadcast use vstd::seq_lib::group_to_multiset_ensures;

    let mut out: Vec<i32> = Vec::new();
    let mut i: usize = 0;
    proof {
        assert(input@.subrange(0, 0) =~= Seq::<i32>::empty());
        assert(Seq::<i32>::empty().to_multiset() =~= out@.to_multiset());
    }
    while i < input.len()
        invariant
            i <= input@.len(),
            out@.len() == i,
            sorted_by(out@, value_le()),
            out@.to_multiset() == input@.subrange(0, i as int).to_multiset(),
        decreases input@.len() - i,
    {
        let x = input[i];
        let mut p: usize = 0;
        while p < out.len() && out[p] <= x
            invariant
                p <= out@.len(),
                forall|q: int| 0 <= q < p ==> out@[q] <= x,
            decreases out@.len() - p,
        {
            p += 1;
        }
        let ghost pre = out@;
        out.insert(p, x);
        proof {
            assert(out@ == pre.insert(p as int, x));
            assert forall|q1: int, q2: int| 0 <= q1 < q2 < out@.len() implies #[trigger]
                value_le()(out@[q1], out@[q2]) by {
                if q1 < p && q2 < p {
                } else if q1 < p && q2 == p {
                } else if q1 == p {
                    // everything at or past the insertion point exceeds x
                    if p < pre.len() {
                        assert(pre[p as int] > x);
                        if q2 > p {
                            assert(value_le()(pre[p as int], pre[q2 - 1]));
                        }
                    }
                } else if q2 > p && q1 > p {
                    assert(value_le()(pre[q1 - 1], pre[q2 - 1]));
                } else {
                    // q1 < p < q2: out[q1] <= x and x is below the tail
                    if p < pre.len() {
                        assert(value_le()(pre[p as int], pre[q2 - 1]));
                    }
                }
            }
            vstd::seq_lib::to_multiset_insert(pre, p as int, x);
            assert(input@.subrange(0, i + 1) =~= input@.subrange(0, i as int).push(input@[i as int]));
            vstd::seq_lib::to_multiset_build(input@.subrange(0, i as int), input@[i as int]);
        }
        i += 1;
    }
    proof {
        assert(input@.subrange(0, input@.len() as int) =~= input@);
    }
    out
}

} // verus!
