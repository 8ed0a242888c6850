//! The recursive partition-based sorting engine.
//!
//! `sort_stack_a(n)` sorts the front `n` elements of stack A; a prefix of at
//! most three elements is handled by the small-sort tables, and a longer one
//! is split around the median of a value-sorted copy of the prefix: elements
//! at or below the pivot are pushed to B, the rest are rotated out of the way
//! and rotated back, and the two parts are sorted recursively.
//! `sort_stack_b(n)` is the mirror image; it drains its prefix onto A.

use vstd::prelude::*;

use vstd::relations::sorted_by;

use crate::ops::{apply_ops, lemma_apply_ops_concat, lemma_apply_ops_snoc, Op};
use crate::sort_small::{lemma_small_plan_a, lemma_small_plan_b, small_plan, sort_small, Block};
use crate::state::{
    lemma_value_le_total, lemma_value_sorted_identity, lemma_value_sorted_is,
    lemma_value_sorted_len, value_le, value_sorted, State,
};

verus! {

/// The values a partition pass over stack A routes to stack B.
pub open spec fn le_pivot(pivot: i32) -> spec_fn(i32) -> bool {
    |x: i32| x <= pivot
}

/// The values a partition pass over stack A keeps on stack A.
pub open spec fn gt_pivot(pivot: i32) -> spec_fn(i32) -> bool {
    |x: i32| x > pivot
}

/// The values a partition pass over stack B keeps on stack B.
pub open spec fn lt_pivot(pivot: i32) -> spec_fn(i32) -> bool {
    |x: i32| x < pivot
}

/// The values a partition pass over stack B routes to stack A.
pub open spec fn ge_pivot(pivot: i32) -> spec_fn(i32) -> bool {
    |x: i32| x >= pivot
}

/// The operations one partition pass over stack A appends: `pb` for each
/// scanned element at or below the pivot, `ra` for any other, then the
/// undoing `rra`s, one per rotated element.
pub open spec fn partition_ops_a(prefix: Seq<i32>, pivot: i32) -> Seq<Op> {
    Seq::new(prefix.len(), |i: int| if prefix[i] <= pivot {
        Op::Pb
    } else {
        Op::Ra
    }) + Seq::new(prefix.filter(gt_pivot(pivot)).len(), |i: int| Op::Rra)
}

/// The operations one partition pass over stack B appends: `pa` for each
/// scanned element at or above the pivot, `rb` for any other, then the
/// undoing `rrb`s, one per rotated element.
pub open spec fn partition_ops_b(prefix: Seq<i32>, pivot: i32) -> Seq<Op> {
    Seq::new(prefix.len(), |i: int| if prefix[i] >= pivot {
        Op::Pa
    } else {
        Op::Rb
    }) + Seq::new(prefix.filter(lt_pivot(pivot)).len(), |i: int| Op::Rrb)
}

/// Extending the scanned prefix by one element extends at most one of its
/// two filtered parts.
proof fn lemma_filter_step(s: Seq<i32>, x: i32, p: spec_fn(i32) -> bool)
    ensures
        s.push(x).filter(p) == if p(x) {
            s.filter(p).push(x)
        } else {
            s.filter(p)
        },
{
    reveal(Seq::filter);
    assert(s.push(x).drop_last() =~= s);
    assert(s.push(x).last() == x);
}

/// Filtering by a predicate and by its complement partitions the values.
proof fn lemma_filter_split_mset(s: Seq<i32>, p: spec_fn(i32) -> bool, q: spec_fn(i32) -> bool)
    requires
        forall|x: i32| #[trigger] q(x) <==> !p(x),
    ensures
        s.filter(p).to_multiset().add(s.filter(q).to_multiset()) == s.to_multiset(),
    decreases s.len(),
{
    broadcast use vstd::seq_lib::group_to_multiset_ensures;
    broadcast use vstd::multiset::group_multiset_axioms;

    reveal(Seq::filter);
    if s.len() == 0 {
        assert(s.filter(p).to_multiset().add(s.filter(q).to_multiset()) =~= s.to_multiset());
    } else {
        let rest = s.drop_last();
        let x = s.last();
        lemma_filter_split_mset(rest, p, q);
        assert(s =~= rest.push(x));
        assert(rest.push(x).to_multiset() == rest.to_multiset().insert(x));
        if p(x) {
            assert(s.filter(p) == rest.filter(p).push(x));
            assert(rest.filter(p).push(x).to_multiset() == rest.filter(p).to_multiset().insert(x));
            assert(s.filter(q) == rest.filter(q));
            assert(s.filter(p).to_multiset().add(s.filter(q).to_multiset())
                =~= s.to_multiset());
        } else {
            assert(s.filter(q) == rest.filter(q).push(x));
            assert(rest.filter(q).push(x).to_multiset() == rest.filter(q).to_multiset().insert(x));
            assert(s.filter(p) == rest.filter(p));
            assert(s.filter(p).to_multiset().add(s.filter(q).to_multiset())
                =~= s.to_multiset());
        }
    }
}

/// Filtering keeps a duplicate-free sequence duplicate-free.
proof fn lemma_filter_no_dup(s: Seq<i32>, p: spec_fn(i32) -> bool)
    requires
        s.no_duplicates(),
    ensures
        s.filter(p).no_duplicates(),
    decreases s.len(),
{
    reveal(Seq::filter);
    if s.len() > 0 {
        let rest = s.drop_last();
        let x = s.last();
        assert(rest.no_duplicates());
        lemma_filter_no_dup(rest, p);
        if p(x) {
            assert(!rest.contains(x));
            if rest.filter(p).contains(x) {
                rest.lemma_filter_contains_rev(p, x);
            }
            let out = rest.filter(p).push(x);
            assert forall|i: int, j: int|
                0 <= i < out.len() && 0 <= j < out.len() && i != j implies out[i] != out[j] by {
                if i == out.len() - 1 {
                    assert(out[j] == rest.filter(p)[j]);
                    assert(rest.filter(p).contains(rest.filter(p)[j]));
                } else if j == out.len() - 1 {
                    assert(out[i] == rest.filter(p)[i]);
                    assert(rest.filter(p).contains(rest.filter(p)[i]));
                }
            }
        }
    }
}

/// Reversal keeps a duplicate-free sequence duplicate-free.
proof fn lemma_reverse_no_dup(s: Seq<i32>)
    requires
        s.no_duplicates(),
    ensures
        s.reverse().no_duplicates(),
{
    assert forall|i: int, j: int|
        0 <= i < s.reverse().len() && 0 <= j < s.reverse().len() && i != j implies s.reverse()[i]
        != s.reverse()[j] by {
        assert(s.reverse()[i] == s[s.len() - 1 - i]);
        assert(s.reverse()[j] == s[s.len() - 1 - j]);
    }
}

/// A sequence whose values split into a lower and an upper part sorts as the
/// two parts sorted and concatenated.
proof fn lemma_value_sorted_parts(s: Seq<i32>, lo: Seq<i32>, hi: Seq<i32>)
    requires
        lo.to_multiset().add(hi.to_multiset()) == s.to_multiset(),
        forall|x: i32, y: i32| lo.contains(x) && hi.contains(y) ==> x <= y,
    ensures
        value_sorted(s) == value_sorted(lo) + value_sorted(hi),
{
    broadcast use vstd::seq_lib::group_to_multiset_ensures;
    broadcast use vstd::multiset::group_multiset_axioms;

    lemma_value_le_total();
    lo.lemma_sort_by_ensures(value_le());
    hi.lemma_sort_by_ensures(value_le());
    let l = value_sorted(lo);
    let h = value_sorted(hi);
    assert forall|i: int, j: int| 0 <= i < j < (l + h).len() implies #[trigger] value_le()(
        (l + h)[i],
        (l + h)[j],
    ) by {
        if i < l.len() && j >= l.len() {
            let x = l[i];
            let y = h[j - l.len()];
            assert(l.contains(x));
            assert(lo.to_multiset().count(x) > 0);
            assert(lo.contains(x));
            assert(h.contains(y));
            assert(hi.to_multiset().count(y) > 0);
            assert(hi.contains(y));
            assert(x <= y);
        }
    }
    assert(sorted_by(l + h, value_le()));
    vstd::seq_lib::lemma_multiset_commutative(l, h);
    assert((l + h).to_multiset() =~= s.to_multiset());
    lemma_value_sorted_is(s, l + h);
}

/// The end-to-end sorting law.  A state as [`State::new`] builds it — stack B
/// empty, an empty log, stack A holding `n` distinct ranks drawn from `0..n`
/// — sorted over its whole stack A as [`State::sort_stack_a`] guarantees,
/// ends with stack B empty and stack A holding exactly `0, 1, ..., n-1` in
/// ascending order; and replaying the whole emitted log over the initial
/// stacks reproduces exactly that sorted result.
pub proof fn lemma_sort_full_ascending(pre: State, post: State, n: usize)
    requires
        pre.stack_a@.len() == n,
        pre.stack_b@.len() == 0,
        pre.ops@.len() == 0,
        pre.stack_a@.no_duplicates(),
        forall|i: int| 0 <= i < n ==> 0 <= #[trigger] pre.stack_a@[i] < n,
        post.stack_a@ == value_sorted(pre.stack_a@.subrange(0, n as int))
            + pre.stack_a@.subrange(n as int, pre.stack_a@.len() as int),
        post.stack_b@ == pre.stack_b@,
        apply_ops(
            post.ops@.subrange(pre.ops@.len() as int, post.ops@.len() as int),
            pre.stack_a@,
            pre.stack_b@,
        ) == (post.stack_a@, post.stack_b@),
    ensures
        post.stack_b@.len() == 0,
        post.stack_a@ == Seq::new(n as nat, |i: int| i as i32),
        apply_ops(post.ops@, pre.stack_a@, pre.stack_b@) == (post.stack_a@, post.stack_b@),
{
    let whole = pre.stack_a@.subrange(0, n as int);
    assert(whole =~= pre.stack_a@);
    lemma_value_sorted_identity(whole);
    assert(pre.stack_a@.subrange(n as int, pre.stack_a@.len() as int) =~= Seq::<i32>::empty());
    assert(value_sorted(whole) + pre.stack_a@.subrange(n as int, pre.stack_a@.len() as int)
        =~= Seq::new(n as nat, |i: int| i as i32));
    assert(post.ops@.subrange(0, post.ops@.len() as int) =~= post.ops@);
}

impl State {
    /// One partitioning pass over the front `n` elements of stack A: a front
    /// value at or below the pivot is pushed to B, any other is rotated to
    /// the back of A, and the rotations are undone afterwards.  Returns how
    /// many elements were pushed and how many were rotated.  The pushed
    /// values end up on B's front in reverse scan order; the kept values end
    /// up contiguous at A's front in scan order.
    pub fn partition_a(&mut self, n: usize, pivot: i32) -> (r: (usize, usize))
        requires
            old(self).wf(),
            1 <= n <= old(self).stack_a@.len(),
        ensures
            final(self).wf(),
            final(self).cap() == old(self).cap(),
            r.0 + r.1 == n,
            r.0 == old(self).stack_a@.subrange(0, n as int).filter(le_pivot(pivot)).len(),
            r.1 == old(self).stack_a@.subrange(0, n as int).filter(gt_pivot(pivot)).len(),
            final(self).stack_a@ == old(self).stack_a@.subrange(0, n as int).filter(
                gt_pivot(pivot),
            ) + old(self).stack_a@.subrange(n as int, old(self).stack_a@.len() as int),
            final(self).stack_b@ == old(self).stack_a@.subrange(0, n as int).filter(
                le_pivot(pivot),
            ).reverse() + old(self).stack_b@,
            final(self).stack_a@.len() == old(self).stack_a@.len() - r.0,
            final(self).stack_b@.len() == old(self).stack_b@.len() + r.0,
            forall|i: int| 0 <= i < r.0 ==> final(self).stack_b@[i] <= pivot,
            final(self).stack_b@.subrange(r.0 as int, final(self).stack_b@.len() as int)
                == old(self).stack_b@,
            final(self).ops@ == old(self).ops@ + partition_ops_a(
                old(self).stack_a@.subrange(0, n as int),
                pivot,
            ),
            apply_ops(
                partition_ops_a(old(self).stack_a@.subrange(0, n as int), pivot),
                old(self).stack_a@,
                old(self).stack_b@,
            ) == (final(self).stack_a@, final(self).stack_b@),
            forall|i: int|
                0 <= i < old(self).saves@.len()
                    ==> final(self).saves@[i] == old(self).saves@[i],
            final(self).saves@.len() == old(self).saves@.len() + n + r.1,
            (final(self).stack_a@ + final(self).stack_b@).to_multiset() == (old(self).stack_a@
                + old(self).stack_b@).to_multiset(),
            old(self).inv() ==> final(self).inv(),
    {
        let ghost orig = *old(self);
        let ghost prefix = orig.stack_a@.subrange(0, n as int);
        let ghost suffix = orig.stack_a@.subrange(n as int, orig.stack_a@.len() as int);
        let ghost plan = partition_ops_a(prefix, pivot);
        let mut pushed: usize = 0;
        let mut rotated: usize = 0;
        let mut k: usize = 0;
        proof {
            reveal(Seq::filter);
            assert(prefix.subrange(0, 0) =~= Seq::<i32>::empty());
            assert(Seq::<i32>::empty().reverse() =~= Seq::<i32>::empty());
            assert(self.stack_a@ =~= prefix.subrange(0, n as int) + suffix
                + Seq::<i32>::empty());
            assert(self.stack_b@ =~= Seq::<i32>::empty() + orig.stack_b@);
            assert(self.ops@ =~= orig.ops@ + plan.subrange(0, 0));
        }
        while k < n
            invariant
                self.wf(),
                self.cap() == orig.cap(),
                k <= n,
                pushed + rotated == k,
                n <= orig.stack_a@.len(),
                prefix == orig.stack_a@.subrange(0, n as int),
                suffix == orig.stack_a@.subrange(n as int, orig.stack_a@.len() as int),
                pushed == prefix.subrange(0, k as int).filter(le_pivot(pivot)).len(),
                rotated == prefix.subrange(0, k as int).filter(gt_pivot(pivot)).len(),
                self.stack_a@ == prefix.subrange(k as int, n as int) + suffix
                    + prefix.subrange(0, k as int).filter(gt_pivot(pivot)),
                self.stack_b@ == prefix.subrange(0, k as int).filter(le_pivot(pivot)).reverse()
                    + orig.stack_b@,
                plan == partition_ops_a(prefix, pivot),
                self.ops@ == orig.ops@ + plan.subrange(0, k as int),
                forall|j: int| 0 <= j < orig.saves@.len() ==> self.saves@[j] == orig.saves@[j],
                self.saves@.len() == orig.saves@.len() + k,
                apply_ops(plan.subrange(0, k as int), orig.stack_a@, orig.stack_b@)
                    == (self.stack_a@, self.stack_b@),
                (self.stack_a@ + self.stack_b@).to_multiset() == (orig.stack_a@
                    + orig.stack_b@).to_multiset(),
                orig.inv() ==> self.inv(),
            decreases n - k,
        {
            assert(self.stack_a@.len() > 0);
            assert(self.stack_a@[0] == prefix[k as int]);
            let front = self.stack_a.front();
            let ghost prev = *self;
            let ghost scanned = prefix.subrange(0, k as int);
            let ghost x = prefix[k as int];
            proof {
                assert(prefix.subrange(0, k + 1) =~= scanned.push(x));
                lemma_filter_step(scanned, x, le_pivot(pivot));
                lemma_filter_step(scanned, x, gt_pivot(pivot));
                assert(plan[k as int] == if x <= pivot {
                    Op::Pb
                } else {
                    Op::Ra
                });
                assert(plan.subrange(0, k + 1) =~= plan.subrange(0, k as int).push(
                    plan[k as int],
                ));
                lemma_apply_ops_snoc(
                    plan.subrange(0, k as int),
                    plan[k as int],
                    orig.stack_a@,
                    orig.stack_b@,
                );
            }
            if front <= pivot {
                self.op(Op::Pb);
                proof {
                    assert(le_pivot(pivot)(x));
                    assert(self.stack_a@ =~= prefix.subrange(k + 1, n as int) + suffix
                        + scanned.filter(gt_pivot(pivot)));
                    assert(scanned.filter(le_pivot(pivot)).push(x).reverse()
                        =~= seq![x] + scanned.filter(le_pivot(pivot)).reverse());
                    assert(self.stack_b@ =~= scanned.push(x).filter(le_pivot(pivot)).reverse()
                        + orig.stack_b@);
                }
                pushed += 1;
            } else {
                self.op(Op::Ra);
                proof {
                    assert(gt_pivot(pivot)(x));
                    assert(prev.stack_a@.drop_first() =~= prefix.subrange(k + 1, n as int)
                        + suffix + scanned.filter(gt_pivot(pivot)));
                    assert(self.stack_a@ =~= prefix.subrange(k + 1, n as int) + suffix
                        + scanned.push(x).filter(gt_pivot(pivot)));
                }
                rotated += 1;
            }
            k += 1;
        }
        let ghost kept = prefix.filter(gt_pivot(pivot));
        let ghost moved = prefix.filter(le_pivot(pivot));
        proof {
            assert(prefix.subrange(0, n as int) =~= prefix);
            assert(prefix.subrange(n as int, n as int) =~= Seq::<i32>::empty());
            assert(self.stack_a@ =~= kept.subrange(rotated as int, rotated as int) + suffix
                + kept.subrange(0, rotated as int));
        }
        let mut u: usize = 0;
        while u < rotated
            invariant
                self.wf(),
                self.cap() == orig.cap(),
                u <= rotated,
                pushed + rotated == n,
                n <= orig.stack_a@.len(),
                kept == prefix.filter(gt_pivot(pivot)),
                moved == prefix.filter(le_pivot(pivot)),
                pushed == moved.len(),
                prefix == orig.stack_a@.subrange(0, n as int),
                suffix == orig.stack_a@.subrange(n as int, orig.stack_a@.len() as int),
                rotated == kept.len(),
                self.stack_a@ == kept.subrange(rotated - u, rotated as int) + suffix
                    + kept.subrange(0, rotated - u),
                self.stack_b@ == moved.reverse() + orig.stack_b@,
                plan == partition_ops_a(prefix, pivot),
                self.ops@ == orig.ops@ + plan.subrange(0, n + u),
                forall|j: int| 0 <= j < orig.saves@.len() ==> self.saves@[j] == orig.saves@[j],
                self.saves@.len() == orig.saves@.len() + n + u,
                apply_ops(plan.subrange(0, n + u), orig.stack_a@, orig.stack_b@)
                    == (self.stack_a@, self.stack_b@),
                (self.stack_a@ + self.stack_b@).to_multiset() == (orig.stack_a@
                    + orig.stack_b@).to_multiset(),
                orig.inv() ==> self.inv(),
            decreases rotated - u,
        {
            let ghost prev = *self;
            proof {
                assert(plan[n + u] == Op::Rra);
                assert(plan.subrange(0, n + u + 1) =~= plan.subrange(0, n + u).push(
                    plan[n + u],
                ));
                lemma_apply_ops_snoc(
                    plan.subrange(0, n + u),
                    plan[n + u],
                    orig.stack_a@,
                    orig.stack_b@,
                );
            }
            self.op(Op::Rra);
            proof {
                let tail = kept.subrange(0, rotated - u);
                assert(tail.len() > 0);
                assert(prev.stack_a@.last() == kept[rotated - u - 1]);
                assert(prev.stack_a@.drop_last() =~= kept.subrange(rotated - u, rotated as int)
                    + suffix + kept.subrange(0, rotated - u - 1));
                assert(self.stack_a@ =~= kept.subrange(rotated - u - 1, rotated as int) + suffix
                    + kept.subrange(0, rotated - u - 1));
            }
            u += 1;
        }
        proof {
            assert(self.stack_a@ =~= kept + suffix);
            assert(plan.subrange(0, n + rotated) =~= plan);
            broadcast use vstd::seq_lib::group_filter_ensures;

            assert forall|i: int| 0 <= i < pushed implies self.stack_b@[i] <= pivot by {
                assert(self.stack_b@[i] == moved.reverse()[i]);
                assert(moved.reverse()[i] == moved[moved.len() - 1 - i]);
                assert(le_pivot(pivot)(moved[moved.len() - 1 - i]));
            }
            assert(self.stack_b@.subrange(pushed as int, self.stack_b@.len() as int)
                =~= orig.stack_b@);
        }
        (pushed, rotated)
    }

    /// The mirrored partitioning pass over the front `n` elements of stack B:
    /// a front value at or above the pivot is pushed to A, any other is
    /// rotated to the back of B, and the rotations are undone afterwards.
    pub fn partition_b(&mut self, n: usize, pivot: i32) -> (r: (usize, usize))
        requires
            old(self).wf(),
            1 <= n <= old(self).stack_b@.len(),
        ensures
            final(self).wf(),
            final(self).cap() == old(self).cap(),
            r.0 + r.1 == n,
            r.0 == old(self).stack_b@.subrange(0, n as int).filter(ge_pivot(pivot)).len(),
            r.1 == old(self).stack_b@.subrange(0, n as int).filter(lt_pivot(pivot)).len(),
            final(self).stack_b@ == old(self).stack_b@.subrange(0, n as int).filter(
                lt_pivot(pivot),
            ) + old(self).stack_b@.subrange(n as int, old(self).stack_b@.len() as int),
            final(self).stack_a@ == old(self).stack_b@.subrange(0, n as int).filter(
                ge_pivot(pivot),
            ).reverse() + old(self).stack_a@,
            final(self).stack_b@.len() == old(self).stack_b@.len() - r.0,
            final(self).stack_a@.len() == old(self).stack_a@.len() + r.0,
            forall|i: int| 0 <= i < r.0 ==> final(self).stack_a@[i] >= pivot,
            final(self).stack_a@.subrange(r.0 as int, final(self).stack_a@.len() as int)
                == old(self).stack_a@,
            final(self).ops@ == old(self).ops@ + partition_ops_b(
                old(self).stack_b@.subrange(0, n as int),
                pivot,
            ),
            apply_ops(
                partition_ops_b(old(self).stack_b@.subrange(0, n as int), pivot),
                old(self).stack_a@,
                old(self).stack_b@,
            ) == (final(self).stack_a@, final(self).stack_b@),
            forall|i: int|
                0 <= i < old(self).saves@.len()
                    ==> final(self).saves@[i] == old(self).saves@[i],
            final(self).saves@.len() == old(self).saves@.len() + n + r.1,
            (final(self).stack_a@ + final(self).stack_b@).to_multiset() == (old(self).stack_a@
                + old(self).stack_b@).to_multiset(),
            old(self).inv() ==> final(self).inv(),
    {
        let ghost orig = *old(self);
        let ghost prefix = orig.stack_b@.subrange(0, n as int);
        let ghost suffix = orig.stack_b@.subrange(n as int, orig.stack_b@.len() as int);
        let ghost plan = partition_ops_b(prefix, pivot);
        let mut pushed: usize = 0;
        let mut rotated: usize = 0;
        let mut k: usize = 0;
        proof {
            reveal(Seq::filter);
            assert(prefix.subrange(0, 0) =~= Seq::<i32>::empty());
            assert(Seq::<i32>::empty().reverse() =~= Seq::<i32>::empty());
            assert(self.stack_b@ =~= prefix.subrange(0, n as int) + suffix
                + Seq::<i32>::empty());
            assert(self.stack_a@ =~= Seq::<i32>::empty() + orig.stack_a@);
            assert(self.ops@ =~= orig.ops@ + plan.subrange(0, 0));
        }
        while k < n
            invariant
                self.wf(),
                self.cap() == orig.cap(),
                k <= n,
                pushed + rotated == k,
                n <= orig.stack_b@.len(),
                prefix == orig.stack_b@.subrange(0, n as int),
                suffix == orig.stack_b@.subrange(n as int, orig.stack_b@.len() as int),
                pushed == prefix.subrange(0, k as int).filter(ge_pivot(pivot)).len(),
                rotated == prefix.subrange(0, k as int).filter(lt_pivot(pivot)).len(),
                self.stack_b@ == prefix.subrange(k as int, n as int) + suffix
                    + prefix.subrange(0, k as int).filter(lt_pivot(pivot)),
                self.stack_a@ == prefix.subrange(0, k as int).filter(ge_pivot(pivot)).reverse()
                    + orig.stack_a@,
                plan == partition_ops_b(prefix, pivot),
                self.ops@ == orig.ops@ + plan.subrange(0, k as int),
                forall|j: int| 0 <= j < orig.saves@.len() ==> self.saves@[j] == orig.saves@[j],
                self.saves@.len() == orig.saves@.len() + k,
                apply_ops(plan.subrange(0, k as int), orig.stack_a@, orig.stack_b@)
                    == (self.stack_a@, self.stack_b@),
                (self.stack_a@ + self.stack_b@).to_multiset() == (orig.stack_a@
                    + orig.stack_b@).to_multiset(),
                orig.inv() ==> self.inv(),
            decreases n - k,
        {
            assert(self.stack_b@.len() > 0);
            assert(self.stack_b@[0] == prefix[k as int]);
            let front = self.stack_b.front();
            let ghost prev = *self;
            let ghost scanned = prefix.subrange(0, k as int);
            let ghost x = prefix[k as int];
            proof {
                assert(prefix.subrange(0, k + 1) =~= scanned.push(x));
                lemma_filter_step(scanned, x, ge_pivot(pivot));
                lemma_filter_step(scanned, x, lt_pivot(pivot));
                assert(plan[k as int] == if x >= pivot {
                    Op::Pa
                } else {
                    Op::Rb
                });
                assert(plan.subrange(0, k + 1) =~= plan.subrange(0, k as int).push(
                    plan[k as int],
                ));
                lemma_apply_ops_snoc(
                    plan.subrange(0, k as int),
                    plan[k as int],
                    orig.stack_a@,
                    orig.stack_b@,
                );
            }
            if front >= pivot {
                self.op(Op::Pa);
                proof {
                    assert(ge_pivot(pivot)(x));
                    assert(self.stack_b@ =~= prefix.subrange(k + 1, n as int) + suffix
                        + scanned.filter(lt_pivot(pivot)));
                    assert(scanned.filter(ge_pivot(pivot)).push(x).reverse()
                        =~= seq![x] + scanned.filter(ge_pivot(pivot)).reverse());
                    assert(self.stack_a@ =~= scanned.push(x).filter(ge_pivot(pivot)).reverse()
                        + orig.stack_a@);
                }
                pushed += 1;
            } else {
                self.op(Op::Rb);
                proof {
                    assert(lt_pivot(pivot)(x));
                    assert(prev.stack_b@.drop_first() =~= prefix.subrange(k + 1, n as int)
                        + suffix + scanned.filter(lt_pivot(pivot)));
                    assert(self.stack_b@ =~= prefix.subrange(k + 1, n as int) + suffix
                        + scanned.push(x).filter(lt_pivot(pivot)));
                }
                rotated += 1;
            }
            k += 1;
        }
        let ghost kept = prefix.filter(lt_pivot(pivot));
        let ghost moved = prefix.filter(ge_pivot(pivot));
        proof {
            assert(prefix.subrange(0, n as int) =~= prefix);
            assert(prefix.subrange(n as int, n as int) =~= Seq::<i32>::empty());
            assert(self.stack_b@ =~= kept.subrange(rotated as int, rotated as int) + suffix
                + kept.subrange(0, rotated as int));
        }
        let mut u: usize = 0;
        while u < rotated
            invariant
                self.wf(),
                self.cap() == orig.cap(),
                u <= rotated,
                pushed + rotated == n,
                n <= orig.stack_b@.len(),
                kept == prefix.filter(lt_pivot(pivot)),
                moved == prefix.filter(ge_pivot(pivot)),
                pushed == moved.len(),
                prefix == orig.stack_b@.subrange(0, n as int),
                suffix == orig.stack_b@.subrange(n as int, orig.stack_b@.len() as int),
                rotated == kept.len(),
                self.stack_b@ == kept.subrange(rotated - u, rotated as int) + suffix
                    + kept.subrange(0, rotated - u),
                self.stack_a@ == moved.reverse() + orig.stack_a@,
                plan == partition_ops_b(prefix, pivot),
                self.ops@ == orig.ops@ + plan.subrange(0, n + u),
                forall|j: int| 0 <= j < orig.saves@.len() ==> self.saves@[j] == orig.saves@[j],
                self.saves@.len() == orig.saves@.len() + n + u,
                apply_ops(plan.subrange(0, n + u), orig.stack_a@, orig.stack_b@)
                    == (self.stack_a@, self.stack_b@),
                (self.stack_a@ + self.stack_b@).to_multiset() == (orig.stack_a@
                    + orig.stack_b@).to_multiset(),
                orig.inv() ==> self.inv(),
            decreases rotated - u,
        {
            let ghost prev = *self;
            proof {
                assert(plan[n + u] == Op::Rrb);
                assert(plan.subrange(0, n + u + 1) =~= plan.subrange(0, n + u).push(
                    plan[n + u],
                ));
                lemma_apply_ops_snoc(
                    plan.subrange(0, n + u),
                    plan[n + u],
                    orig.stack_a@,
                    orig.stack_b@,
                );
            }
            self.op(Op::Rrb);
            proof {
                let tail = kept.subrange(0, rotated - u);
                assert(tail.len() > 0);
                assert(prev.stack_b@.last() == kept[rotated - u - 1]);
                assert(prev.stack_b@.drop_last() =~= kept.subrange(rotated - u, rotated as int)
                    + suffix + kept.subrange(0, rotated - u - 1));
                assert(self.stack_b@ =~= kept.subrange(rotated - u - 1, rotated as int) + suffix
                    + kept.subrange(0, rotated - u - 1));
            }
            u += 1;
        }
        proof {
            assert(self.stack_b@ =~= kept + suffix);
            assert(plan.subrange(0, n + rotated) =~= plan);
            broadcast use vstd::seq_lib::group_filter_ensures;

            assert forall|i: int| 0 <= i < pushed implies self.stack_a@[i] >= pivot by {
                assert(self.stack_a@[i] == moved.reverse()[i]);
                assert(moved.reverse()[i] == moved[moved.len() - 1 - i]);
                assert(ge_pivot(pivot)(moved[moved.len() - 1 - i]));
            }
            assert(self.stack_a@.subrange(pushed as int, self.stack_a@.len() as int)
                =~= orig.stack_a@);
        }
        (pushed, rotated)
    }

    /// Sort the front `n` elements of stack A in place: they end ascending
    /// and contiguous at its front, every other element of both stacks ends
    /// where it started, and stack B is exactly as before.  The prefix must
    /// hold distinct values, as a rank-normalized input always does.
    pub fn sort_stack_a(&mut self, n: usize)
        requires
            old(self).wf(),
            n <= old(self).stack_a@.len(),
            old(self).stack_a@.subrange(0, n as int).no_duplicates(),
        ensures
            final(self).wf(),
            final(self).cap() == old(self).cap(),
            final(self).stack_a@.len() == old(self).stack_a@.len(),
            final(self).stack_b@.len() == old(self).stack_b@.len(),
            final(self).stack_a@ == value_sorted(old(self).stack_a@.subrange(0, n as int))
                + old(self).stack_a@.subrange(n as int, old(self).stack_a@.len() as int),
            final(self).stack_b@ == old(self).stack_b@,
            old(self).ops@.len() <= final(self).ops@.len(),
            final(self).ops@.subrange(0, old(self).ops@.len() as int) == old(self).ops@,
            forall|i: int|
                0 <= i < old(self).saves@.len()
                    ==> final(self).saves@[i] == old(self).saves@[i],
            final(self).saves@.len() - old(self).saves@.len() == final(self).ops@.len()
                - old(self).ops@.len(),
            apply_ops(
                final(self).ops@.subrange(old(self).ops@.len() as int, final(self).ops@.len() as int),
                old(self).stack_a@,
                old(self).stack_b@,
            ) == (final(self).stack_a@, final(self).stack_b@),
            n <= 3 ==> final(self).ops@ == old(self).ops@ + small_plan(
                Block::BlkATop,
                n as int,
                old(self).stack_a@,
                old(self).stack_b@,
            ),
            (final(self).stack_a@ + final(self).stack_b@).to_multiset() == (old(self).stack_a@
                + old(self).stack_b@).to_multiset(),
            old(self).inv() ==> final(self).inv(),
        decreases n, 0int,
    {
        if n <= 1 {
            proof {
                let prefix = self.stack_a@.subrange(0, n as int);
                lemma_value_sorted_is(prefix, prefix);
                assert(prefix + self.stack_a@.subrange(
                    n as int,
                    self.stack_a@.len() as int,
                ) =~= self.stack_a@);
                assert(self.ops@.subrange(0, self.ops@.len() as int) =~= self.ops@);
                assert(self.ops@.subrange(self.ops@.len() as int, self.ops@.len() as int)
                    =~= Seq::<Op>::empty());
                assert(small_plan(Block::BlkATop, n as int, self.stack_a@, self.stack_b@)
                    =~= Seq::<Op>::empty());
                assert(self.ops@ + Seq::<Op>::empty() =~= self.ops@);
            }
            return;
        }
        if n <= 3 {
            let row = sort_small(self, Block::BlkATop, n);
            let ghost prev = *self;
            self.ops(row.as_slice());
            proof {
                lemma_small_plan_a(prev.stack_a@, prev.stack_b@, n as int);
                lemma_value_sorted_len(prev.stack_a@.subrange(0, n as int));
                assert(self.ops@.subrange(0, prev.ops@.len() as int) =~= prev.ops@);
                assert(self.ops@.subrange(prev.ops@.len() as int, self.ops@.len() as int)
                    =~= row@);
            }
            return;
        }
        let ghost orig = *old(self);
        let ghost prefix = orig.stack_a@.subrange(0, n as int);
        let ghost suffix = orig.stack_a@.subrange(n as int, orig.stack_a@.len() as int);
        let pivot = State::choose_pivot(&self.stack_a, n);
        let ghost low = prefix.filter(le_pivot(pivot));
        let ghost high = prefix.filter(gt_pivot(pivot));
        let (pushed, _rotated) = self.partition_a(n, pivot);
        proof {
            broadcast use vstd::seq_lib::group_to_multiset_ensures;
            broadcast use vstd::multiset::group_multiset_axioms;

            lemma_value_le_total();
            prefix.lemma_sort_by_ensures(value_le());

            // The pivot itself is routed to B, so at least one element moves.
            let w = choose|w: int| 0 <= w < prefix.len() && prefix[w] == pivot;
            assert(le_pivot(pivot)(prefix[w]));
            prefix.lemma_filter_contains(le_pivot(pivot), w);
            assert(low.len() >= 1);

            // With distinct values the largest prefix element exceeds the
            // median pivot, so at least one element stays on A.
            let vs = value_sorted(prefix);
            lemma_value_sorted_len(prefix);
            prefix.lemma_multiset_has_no_duplicates();
            vs.lemma_multiset_has_no_duplicates_conv();
            assert(value_le()(vs[n as int / 2], vs[n as int - 1]));
            assert(vs[n as int - 1] > pivot);
            assert(vs.contains(vs[n as int - 1]));
            assert(prefix.to_multiset().count(vs[n as int - 1]) > 0);
            assert(prefix.contains(vs[n as int - 1]));
            let g = choose|g: int| 0 <= g < prefix.len() && prefix[g] == vs[n as int - 1];
            assert(gt_pivot(pivot)(prefix[g]));
            prefix.lemma_filter_contains(gt_pivot(pivot), g);
            assert(high.len() >= 1);
        }
        assert(1 <= pushed && pushed < n);
        let ghost mid1 = *self;
        proof {
            assert(mid1.stack_a@.subrange(0, n - pushed) =~= high);
            assert(mid1.stack_a@.subrange(n - pushed, mid1.stack_a@.len() as int) =~= suffix);
            lemma_filter_no_dup(prefix, gt_pivot(pivot));
            lemma_filter_no_dup(prefix, le_pivot(pivot));
            lemma_reverse_no_dup(low);
        }
        self.sort_stack_a(n - pushed);
        let ghost mid2 = *self;
        proof {
            assert(mid2.stack_b@.subrange(0, pushed as int) =~= low.reverse());
            assert(mid2.stack_b@.subrange(pushed as int, mid2.stack_b@.len() as int)
                =~= orig.stack_b@);
        }
        self.sort_stack_b(pushed);
        proof {
            broadcast use vstd::seq_lib::group_to_multiset_ensures;
            broadcast use vstd::multiset::group_multiset_axioms;

            // Sorting the reversed pushed block equals sorting the block.
            low.lemma_reverse_to_multiset();
            lemma_value_le_total();
            low.reverse().lemma_sort_by_ensures(value_le());
            lemma_value_sorted_is(low, value_sorted(low.reverse()));

            // The two blocks partition the prefix values around the pivot.
            lemma_filter_split_mset(prefix, le_pivot(pivot), gt_pivot(pivot));
            assert forall|x: i32, y: i32| low.contains(x) && high.contains(y) implies x <= y by {
                let xi = choose|xi: int| 0 <= xi < low.len() && low[xi] == x;
                let yi = choose|yi: int| 0 <= yi < high.len() && high[yi] == y;
                prefix.lemma_filter_pred(le_pivot(pivot), xi);
                prefix.lemma_filter_pred(gt_pivot(pivot), yi);
            }
            lemma_value_sorted_parts(prefix, low, high);
            assert(self.stack_a@ =~= value_sorted(prefix) + suffix);
            lemma_value_sorted_len(prefix);

            // the log: the partition plan and the two recursive segments,
            // appended after the untouched pre-call log
            let old_len = orig.ops@.len() as int;
            let m1 = mid1.ops@.len() as int;
            let m2 = mid2.ops@.len() as int;
            let fin = self.ops@.len() as int;
            let p1 = partition_ops_a(prefix, pivot);
            let e1 = mid2.ops@.subrange(m1, m2);
            let e2 = self.ops@.subrange(m2, fin);
            assert forall|i: int| 0 <= i < m2 implies self.ops@[i] == mid2.ops@[i] by {
                assert(self.ops@.subrange(0, m2)[i] == self.ops@[i]);
            }
            assert forall|i: int| 0 <= i < m1 implies mid2.ops@[i] == mid1.ops@[i] by {
                assert(mid2.ops@.subrange(0, m1)[i] == mid2.ops@[i]);
            }
            assert(self.ops@.subrange(0, old_len) =~= orig.ops@);
            assert forall|i: int| 0 <= i < fin - old_len implies self.ops@[old_len + i]
                == (p1 + e1 + e2)[i] by {
                if i < p1.len() {
                    assert(mid1.ops@[old_len + i] == p1[i]);
                } else if i < p1.len() + e1.len() {
                    assert(e1[i - p1.len()] == mid2.ops@[m1 + (i - p1.len())]);
                } else {
                    assert(e2[i - p1.len() - e1.len()]
                        == self.ops@[m2 + (i - p1.len() - e1.len())]);
                }
            }
            assert(self.ops@.subrange(old_len, fin) =~= p1 + e1 + e2);
            lemma_apply_ops_concat(p1, e1, orig.stack_a@, orig.stack_b@);
            lemma_apply_ops_concat(p1 + e1, e2, orig.stack_a@, orig.stack_b@);
            assert forall|i: int| 0 <= i < orig.saves@.len() implies self.saves@[i]
                == orig.saves@[i] by {
                assert(mid2.saves@[i] == mid1.saves@[i]);
            }
        }
    }

    /// Sort the front `n` elements of stack B onto the front of stack A,
    /// leaving them ascending there: stack B shrinks by `n`, stack A grows by
    /// `n`, and everything else ends where it started.  The prefix must hold
    /// distinct values.
    #[verifier::rlimit(80)]
    pub fn sort_stack_b(&mut self, n: usize)
        requires
            old(self).wf(),
            n <= old(self).stack_b@.len(),
            old(self).stack_b@.subrange(0, n as int).no_duplicates(),
        ensures
            final(self).wf(),
            final(self).cap() == old(self).cap(),
            final(self).stack_a@.len() == old(self).stack_a@.len() + n,
            final(self).stack_b@.len() == old(self).stack_b@.len() - n,
            final(self).stack_a@ == value_sorted(old(self).stack_b@.subrange(0, n as int))
                + old(self).stack_a@,
            final(self).stack_b@ == old(self).stack_b@.subrange(
                n as int,
                old(self).stack_b@.len() as int,
            ),
            old(self).ops@.len() <= final(self).ops@.len(),
            final(self).ops@.subrange(0, old(self).ops@.len() as int) == old(self).ops@,
            forall|i: int|
                0 <= i < old(self).saves@.len()
                    ==> final(self).saves@[i] == old(self).saves@[i],
            final(self).saves@.len() - old(self).saves@.len() == final(self).ops@.len()
                - old(self).ops@.len(),
            apply_ops(
                final(self).ops@.subrange(old(self).ops@.len() as int, final(self).ops@.len() as int),
                old(self).stack_a@,
                old(self).stack_b@,
            ) == (final(self).stack_a@, final(self).stack_b@),
            n <= 3 ==> final(self).ops@ == old(self).ops@ + small_plan(
                Block::BlkBTop,
                n as int,
                old(self).stack_a@,
                old(self).stack_b@,
            ),
            (final(self).stack_a@ + final(self).stack_b@).to_multiset() == (old(self).stack_a@
                + old(self).stack_b@).to_multiset(),
            old(self).inv() ==> final(self).inv(),
        decreases n, 1int,
    {
        if n == 0 {
            proof {
                let prefix = self.stack_b@.subrange(0, 0);
                lemma_value_sorted_is(prefix, prefix);
                assert(prefix + self.stack_a@ =~= self.stack_a@);
                assert(self.stack_b@.subrange(0, self.stack_b@.len() as int) =~= self.stack_b@);
                assert(self.ops@.subrange(0, self.ops@.len() as int) =~= self.ops@);
                assert(self.ops@.subrange(self.ops@.len() as int, self.ops@.len() as int)
                    =~= Seq::<Op>::empty());
                assert(small_plan(Block::BlkBTop, n as int, self.stack_a@, self.stack_b@)
                    =~= Seq::<Op>::empty());
                assert(self.ops@ + Seq::<Op>::empty() =~= self.ops@);
            }
            return;
        }
        if n <= 3 {
            let row = sort_small(self, Block::BlkBTop, n);
            let ghost prev = *self;
            self.ops(row.as_slice());
            proof {
                lemma_small_plan_b(prev.stack_a@, prev.stack_b@, n as int);
                lemma_value_sorted_len(prev.stack_b@.subrange(0, n as int));
                assert(self.ops@.subrange(0, prev.ops@.len() as int) =~= prev.ops@);
                assert(self.ops@.subrange(prev.ops@.len() as int, self.ops@.len() as int)
                    =~= row@);
            }
            return;
        }
        let ghost orig = *old(self);
        let ghost prefix = orig.stack_b@.subrange(0, n as int);
        let ghost suffix = orig.stack_b@.subrange(n as int, orig.stack_b@.len() as int);
        let pivot = State::choose_pivot(&self.stack_b, n);
        let ghost low = prefix.filter(lt_pivot(pivot));
        let ghost high = prefix.filter(ge_pivot(pivot));
        let (pushed, _rotated) = self.partition_b(n, pivot);
        proof {
            // The pivot itself is routed to A, so at least one element moves
            // and the remaining subproblem is strictly smaller.
            let w = choose|w: int| 0 <= w < prefix.len() && prefix[w] == pivot;
            assert(ge_pivot(pivot)(prefix[w]));
            prefix.lemma_filter_contains(ge_pivot(pivot), w);
            assert(high.len() >= 1);
        }
        assert(1 <= pushed && pushed <= n);
        let ghost mid1 = *self;
        proof {
            assert(mid1.stack_a@.subrange(0, pushed as int) =~= high.reverse());
            assert(mid1.stack_a@.subrange(pushed as int, mid1.stack_a@.len() as int)
                =~= orig.stack_a@);
            lemma_filter_no_dup(prefix, ge_pivot(pivot));
            lemma_filter_no_dup(prefix, lt_pivot(pivot));
            lemma_reverse_no_dup(high);
        }
        self.sort_stack_a(pushed);
        let ghost mid2 = *self;
        proof {
            assert(mid2.stack_b@.subrange(0, n - pushed) =~= low);
            assert(mid2.stack_b@.subrange(n - pushed, mid2.stack_b@.len() as int) =~= suffix);
        }
        self.sort_stack_b(n - pushed);
        proof {
            broadcast use vstd::seq_lib::group_to_multiset_ensures;
            broadcast use vstd::multiset::group_multiset_axioms;

            // Sorting the reversed pushed block equals sorting the block.
            high.lemma_reverse_to_multiset();
            lemma_value_le_total();
            high.reverse().lemma_sort_by_ensures(value_le());
            lemma_value_sorted_is(high, value_sorted(high.reverse()));

            // The two blocks partition the prefix values around the pivot.
            lemma_filter_split_mset(prefix, lt_pivot(pivot), ge_pivot(pivot));
            assert forall|x: i32, y: i32| low.contains(x) && high.contains(y) implies x <= y by {
                let xi = choose|xi: int| 0 <= xi < low.len() && low[xi] == x;
                let yi = choose|yi: int| 0 <= yi < high.len() && high[yi] == y;
                prefix.lemma_filter_pred(lt_pivot(pivot), xi);
                prefix.lemma_filter_pred(ge_pivot(pivot), yi);
            }
            lemma_value_sorted_parts(prefix, low, high);
            assert(self.stack_a@ =~= value_sorted(prefix) + orig.stack_a@);
            lemma_value_sorted_len(prefix);

            // the log: the partition plan and the two recursive segments,
            // appended after the untouched pre-call log
            let old_len = orig.ops@.len() as int;
            let m1 = mid1.ops@.len() as int;
            let m2 = mid2.ops@.len() as int;
            let fin = self.ops@.len() as int;
            let p1 = partition_ops_b(prefix, pivot);
            let e1 = mid2.ops@.subrange(m1, m2);
            let e2 = self.ops@.subrange(m2, fin);
            assert forall|i: int| 0 <= i < m2 implies self.ops@[i] == mid2.ops@[i] by {
                assert(self.ops@.subrange(0, m2)[i] == self.ops@[i]);
            }
            assert forall|i: int| 0 <= i < m1 implies mid2.ops@[i] == mid1.ops@[i] by {
                assert(mid2.ops@.subrange(0, m1)[i] == mid2.ops@[i]);
            }
            assert(self.ops@.subrange(0, old_len) =~= orig.ops@);
            assert forall|i: int| 0 <= i < fin - old_len implies self.ops@[old_len + i]
                == (p1 + e1 + e2)[i] by {
                if i < p1.len() {
                    assert(mid1.ops@[old_len + i] == p1[i]);
                } else if i < p1.len() + e1.len() {
                    assert(e1[i - p1.len()] == mid2.ops@[m1 + (i - p1.len())]);
                } else {
                    assert(e2[i - p1.len() - e1.len()]
                        == self.ops@[m2 + (i - p1.len() - e1.len())]);
                }
            }
            assert(self.ops@.subrange(old_len, fin) =~= p1 + e1 + e2);
            lemma_apply_ops_concat(p1, e1, orig.stack_a@, orig.stack_b@);
            lemma_apply_ops_concat(p1 + e1, e2, orig.stack_a@, orig.stack_b@);
            assert forall|i: int| 0 <= i < orig.saves@.len() implies self.saves@[i]
                == orig.saves@[i] by {
                assert(mid2.saves@[i] == mid1.saves@[i]);
            }
        }
    }
}

} // verus!
