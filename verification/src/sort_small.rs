//! Table-driven optimal operation sequences for sorting the two or three
//! frontmost elements of a stack, indexed by the permutation rank (Lehmer id)
//! of that prefix.
//!
//! The rank of a prefix is the factorial-number-system folding of its Lehmer
//! digits, where digit `i` counts the later positions holding a strictly
//! smaller value; it is a bijection from the `n!` relative orderings onto
//! `[0, n!)`, with `0` the already-ascending prefix.  The `A` tables sort the
//! prefix in place at the front of stack A; the `B` tables drain the prefix
//! of stack B onto the front of stack A in ascending order.

use vstd::prelude::*;
use vstd::multiset::Multiset;
use vstd::relations::sorted_by;

use crate::ops::{apply_ops, Op};
use crate::state::{lemma_value_sorted_is, value_le, value_sorted, State};

verus! {

/// Which block of which stack a small sort targets.
#[derive(Clone, Copy, Debug, PartialEq, Eq, Structural)]
pub enum Block {
    BlkATop,
    BlkABot,
    BlkBTop,
    BlkBBot,
}

/// `n` factorial.
pub open spec fn fact(n: nat) -> nat
    decreases n,
{
    if n == 0 {
        1
    } else {
        n * fact((n - 1) as nat)
    }
}

/// How many of the positions `(i, j)` of `s` hold a value strictly smaller
/// than the one at position `i`.
pub open spec fn smaller_after(s: Seq<i32>, i: int, j: int) -> int
    decreases j - i,
{
    if j <= i + 1 {
        0
    } else {
        smaller_after(s, i, j - 1) + if s[j - 1] < s[i] {
            1int
        } else {
            0int
        }
    }
}

/// Lehmer digit `i` of `s`: the number of later positions holding a strictly
/// smaller value.
pub open spec fn lehmer_digit(s: Seq<i32>, i: int) -> int {
    smaller_after(s, i, s.len() as int)
}

/// The digits from position `i` on, folded with factorial weights.
pub open spec fn lehmer_sum(s: Seq<i32>, i: int) -> int
    decreases s.len() - i,
{
    if i >= s.len() {
        0
    } else {
        lehmer_digit(s, i) * (fact((s.len() - 1 - i) as nat) as int) + lehmer_sum(s, i + 1)
    }
}

/// The permutation rank of `s`: its Lehmer digits folded into one integer in
/// `[0, len!)`; `0` is the ascending ordering.
pub open spec fn lehmer_id(s: Seq<i32>) -> int {
    lehmer_sum(s, 0)
}

proof fn lemma_fact_pos(n: nat)
    ensures
        fact(n) >= 1,
    decreases n,
{
    if n > 0 {
        lemma_fact_pos((n - 1) as nat);
        assert(fact(n) == n * fact((n - 1) as nat));
        assert(n * fact((n - 1) as nat) >= 1) by (nonlinear_arith)
            requires
                n >= 1,
                fact((n - 1) as nat) >= 1,
        {}
    }
}

proof fn lemma_smaller_after_bounds(s: Seq<i32>, i: int, j: int)
    ensures
        0 <= smaller_after(s, i, j),
        j >= i + 1 ==> smaller_after(s, i, j) <= j - i - 1,
    decreases j - i,
{
    if j > i + 1 {
        lemma_smaller_after_bounds(s, i, j - 1);
    }
}

proof fn lemma_lehmer_sum_bound(s: Seq<i32>, i: int)
    requires
        0 <= i <= s.len(),
    ensures
        0 <= lehmer_sum(s, i) < fact((s.len() - i) as nat),
    decreases s.len() - i,
{
    if i >= s.len() {
        lemma_fact_pos(0);
    } else {
        let k = s.len() - 1 - i;
        let f = fact(k as nat) as int;
        let d = lehmer_digit(s, i);
        lemma_lehmer_sum_bound(s, i + 1);
        lemma_smaller_after_bounds(s, i, s.len() as int);
        lemma_fact_pos(k as nat);
        assert(0 <= d <= k);
        assert(d * f >= 0) by (nonlinear_arith)
            requires
                d >= 0,
                f >= 1,
        {}
        assert(d * f <= k * f) by (nonlinear_arith)
            requires
                0 <= d <= k,
                f >= 1,
        {}
        assert(fact((s.len() - i) as nat) == (k + 1) * f);
        assert(k * f + f == (k + 1) * f) by (nonlinear_arith) {}
    }
}

/// The permutation rank always falls inside the table: `[0, len!)`.
pub proof fn lemma_lehmer_id_range(s: Seq<i32>)
    ensures
        0 <= lehmer_id(s) < fact(s.len()),
{
    lemma_lehmer_sum_bound(s, 0);
}

/// The factorial values a five-element prefix can need.
pub proof fn lemma_fact_values()
    ensures
        fact(0) == 1,
        fact(1) == 1,
        fact(2) == 2,
        fact(3) == 6,
        fact(4) == 24,
        fact(5) == 120,
{
    assert(fact(0) == 1);
    assert(fact(1) == 1);
    assert(fact(2) == 2);
    assert(fact(3) == 6);
    assert(fact(4) == 24);
    assert(fact(5) == 120);
}

fn fact_small(k: usize) -> (r: usize)
    requires
        k <= 4,
    ensures
        r as int == fact(k as nat),
{
    proof {
        lemma_fact_values();
    }
    if k == 0 {
        1
    } else if k == 1 {
        1
    } else if k == 2 {
        2
    } else if k == 3 {
        6
    } else {
        24
    }
}

/// The permutation rank (Lehmer id) of a short slice of distinct values.
pub fn permutation_id(slice: &[i32]) -> (r: usize)
    requires
        slice@.len() <= 5,
    ensures
        r as int == lehmer_id(slice@),
        r < fact(slice@.len() as nat),
{
    let n = slice.len();
    proof {
        lemma_lehmer_sum_bound(slice@, 0);
        lemma_fact_values();
    }
    let mut id: usize = 0;
    let mut i: usize = 0;
    while i < n
        invariant
            n == slice@.len(),
            n <= 5,
            i <= n,
            id as int + lehmer_sum(slice@, i as int) == lehmer_id(slice@),
            0 <= lehmer_sum(slice@, i as int),
            0 <= lehmer_id(slice@) < fact(n as nat),
            fact(n as nat) <= 120,
        decreases n - i,
    {
        let mut cnt: usize = 0;
        let mut j: usize = i + 1;
        while j < n
            invariant
                n == slice@.len(),
                i < n,
                i + 1 <= j <= n,
                cnt as int == smaller_after(slice@, i as int, j as int),
                cnt <= j,
            decreases n - j,
        {
            if slice[j] < slice[i] {
                cnt += 1;
            }
            j += 1;
        }
        let f = fact_small(n - 1 - i);
        proof {
            lemma_lehmer_sum_bound(slice@, i + 1);
            assert(lehmer_sum(slice@, i as int) == cnt * f + lehmer_sum(slice@, i + 1));
        }
        id = id + cnt * f;
        i += 1;
    }
    id
}

/// Sequences sorting the two frontmost elements of A, by permutation rank.
pub open spec fn table_a2(id: int) -> Seq<Op> {
    if id == 0 {
        seq![]
    } else {
        seq![Op::Sa]
    }
}

/// Sequences draining the two frontmost elements of B onto A ascending.
pub open spec fn table_b2(id: int) -> Seq<Op> {
    if id == 0 {
        seq![Op::Sb, Op::Pa, Op::Pa]
    } else {
        seq![Op::Pa, Op::Pa]
    }
}

/// Sequences sorting the three frontmost elements of A, by permutation rank.
pub open spec fn table_a3(id: int) -> Seq<Op> {
    if id == 0 {
        seq![]
    } else if id == 1 {
        seq![Op::Ra, Op::Sa, Op::Rra]
    } else if id == 2 {
        seq![Op::Sa]
    } else if id == 3 {
        seq![Op::Ra, Op::Sa, Op::Rra, Op::Sa]
    } else if id == 4 {
        seq![Op::Sa, Op::Ra, Op::Sa, Op::Rra]
    } else {
        seq![Op::Sa, Op::Ra, Op::Sa, Op::Rra, Op::Sa]
    }
}

/// Sequences draining the three frontmost elements of B onto A ascending.
pub open spec fn table_b3(id: int) -> Seq<Op> {
    if id == 0 {
        seq![Op::Sb, Op::Pa, Op::Sb, Op::Pa, Op::Sa, Op::Pa]
    } else if id == 1 {
        seq![Op::Sb, Op::Pa, Op::Sb, Op::Pa, Op::Pa]
    } else if id == 2 {
        seq![Op::Pa, Op::Sb, Op::Pa, Op::Sa, Op::Pa]
    } else if id == 3 {
        seq![Op::Sb, Op::Pa, Op::Pa, Op::Pa]
    } else if id == 4 {
        seq![Op::Pa, Op::Sb, Op::Pa, Op::Pa]
    } else {
        seq![Op::Pa, Op::Pa, Op::Pa]
    }
}

/// The operation sequence a small sort emits: nothing for a trivial prefix
/// (except a single element on top of B, which takes one `pa` to reach its
/// final resting stack), otherwise the table row selected by the prefix's
/// permutation rank.
pub open spec fn small_plan(blk: Block, len: int, a: Seq<i32>, b: Seq<i32>) -> Seq<Op> {
    if len <= 1 {
        if len == 1 && blk == Block::BlkBTop {
            seq![Op::Pa]
        } else {
            seq![]
        }
    } else {
        if blk == Block::BlkATop {
            if len == 2 {
                table_a2(lehmer_id(a.subrange(0, len)))
            } else {
                table_a3(lehmer_id(a.subrange(0, len)))
            }
        } else {
            if len == 2 {
                table_b2(lehmer_id(b.subrange(0, len)))
            } else {
                table_b3(lehmer_id(b.subrange(0, len)))
            }
        }
    }
}

/// Look up the operation sequence that sorts the front `len` elements of the
/// chosen stack.
pub fn sort_small(state: &State, blk: Block, len: usize) -> (r: Vec<Op>)
    requires
        state.wf(),
        blk == Block::BlkATop || blk == Block::BlkBTop,
        len <= 3,
        blk == Block::BlkATop ==> len <= state.stack_a@.len(),
        blk == Block::BlkBTop ==> len <= state.stack_b@.len(),
    ensures
        r@ == small_plan(blk, len as int, state.stack_a@, state.stack_b@),
{
    let mut r: Vec<Op> = Vec::new();
    if len <= 1 {
        if len == 1 && blk == Block::BlkBTop {
            r.push(Op::Pa);
            assert(r@ =~= seq![Op::Pa]);
        } else {
            assert(r@ =~= Seq::<Op>::empty());
        }
        return r;
    }
    let mut v: Vec<i32> = Vec::new();
    let mut i: usize = 0;
    let ghost prefix = if blk == Block::BlkATop {
        state.stack_a@.subrange(0, len as int)
    } else {
        state.stack_b@.subrange(0, len as int)
    };
    while i < len
        invariant
            state.wf(),
            blk == Block::BlkATop || blk == Block::BlkBTop,
            blk == Block::BlkATop ==> len <= state.stack_a@.len(),
            blk == Block::BlkBTop ==> len <= state.stack_b@.len(),
            i <= len,
            prefix == (if blk == Block::BlkATop {
                state.stack_a@.subrange(0, len as int)
            } else {
                state.stack_b@.subrange(0, len as int)
            }),
            v@ =~= prefix.subrange(0, i as int),
        decreases len - i,
    {
        if blk == Block::BlkATop {
            v.push(state.stack_a.index(i));
        } else {
            v.push(state.stack_b.index(i));
        }
        proof {
            assert(v@ =~= prefix.subrange(0, i + 1));
        }
        i += 1;
    }
    proof {
        assert(v@ =~= prefix);
        lemma_fact_values();
    }
    let id = permutation_id(v.as_slice());
    if blk == Block::BlkATop {
        if len == 2 {
            if id != 0 {
                r.push(Op::Sa);
            }
            assert(r@ =~= table_a2(id as int));
        } else {
            if id == 0 {
            } else if id == 1 {
                r.push(Op::Ra);
                r.push(Op::Sa);
                r.push(Op::Rra);
            } else if id == 2 {
                r.push(Op::Sa);
            } else if id == 3 {
                r.push(Op::Ra);
                r.push(Op::Sa);
                r.push(Op::Rra);
                r.push(Op::Sa);
            } else if id == 4 {
                r.push(Op::Sa);
                r.push(Op::Ra);
                r.push(Op::Sa);
                r.push(Op::Rra);
            } else {
                r.push(Op::Sa);
                r.push(Op::Ra);
                r.push(Op::Sa);
                r.push(Op::Rra);
                r.push(Op::Sa);
            }
            assert(r@ =~= table_a3(id as int));
        }
    } else {
        if len == 2 {
            if id == 0 {
                r.push(Op::Sb);
                r.push(Op::Pa);
                r.push(Op::Pa);
            } else {
                r.push(Op::Pa);
                r.push(Op::Pa);
            }
            assert(r@ =~= table_b2(id as int));
        } else {
            if id == 0 {
                r.push(Op::Sb);
                r.push(Op::Pa);
                r.push(Op::Sb);
                r.push(Op::Pa);
                r.push(Op::Sa);
                r.push(Op::Pa);
            } else if id == 1 {
                r.push(Op::Sb);
                r.push(Op::Pa);
                r.push(Op::Sb);
                r.push(Op::Pa);
                r.push(Op::Pa);
            } else if id == 2 {
                r.push(Op::Pa);
                r.push(Op::Sb);
                r.push(Op::Pa);
                r.push(Op::Sa);
                r.push(Op::Pa);
            } else if id == 3 {
                r.push(Op::Sb);
                r.push(Op::Pa);
                r.push(Op::Pa);
                r.push(Op::Pa);
            } else if id == 4 {
                r.push(Op::Pa);
                r.push(Op::Sb);
                r.push(Op::Pa);
                r.push(Op::Pa);
            } else {
                r.push(Op::Pa);
                r.push(Op::Pa);
                r.push(Op::Pa);
            }
            assert(r@ =~= table_b3(id as int));
        }
    }
    r
}

proof fn lemma_digits2(s: Seq<i32>)
    requires
        s.len() == 2,
    ensures
        lehmer_id(s) == if s[1] < s[0] {
            1int
        } else {
            0int
        },
{
    lemma_fact_values();
    assert(smaller_after(s, 1, 2) == 0);
    assert(smaller_after(s, 0, 1) == 0);
    assert(smaller_after(s, 0, 2) == if s[1] < s[0] {
        1int
    } else {
        0int
    });
    assert(lehmer_sum(s, 2) == 0);
    assert(lehmer_sum(s, 1) == 0);
    assert(lehmer_sum(s, 0) == lehmer_digit(s, 0));
}

proof fn lemma_digits3(s: Seq<i32>)
    requires
        s.len() == 3,
    ensures
        lehmer_id(s) == 2 * ((if s[1] < s[0] {
            1int
        } else {
            0int
        }) + (if s[2] < s[0] {
            1int
        } else {
            0int
        })) + (if s[2] < s[1] {
            1int
        } else {
            0int
        }),
{
    lemma_fact_values();
    assert(smaller_after(s, 2, 3) == 0);
    assert(smaller_after(s, 1, 2) == 0);
    assert(smaller_after(s, 0, 1) == 0);
    assert(smaller_after(s, 1, 3) == if s[2] < s[1] {
        1int
    } else {
        0int
    });
    assert(smaller_after(s, 0, 2) == if s[1] < s[0] {
        1int
    } else {
        0int
    });
    assert(smaller_after(s, 0, 3) == smaller_after(s, 0, 2) + if s[2] < s[0] {
        1int
    } else {
        0int
    });
    assert(lehmer_sum(s, 3) == 0);
    assert(lehmer_sum(s, 2) == 0);
    assert(lehmer_sum(s, 1) == lehmer_digit(s, 1));
    assert(lehmer_sum(s, 0) == lehmer_digit(s, 0) * 2 + lehmer_sum(s, 1));
}

/// For the table sizes the permutation rank is injective: two duplicate-free
/// prefixes of the same small length with the same rank compare their
/// elements identically, so a rank selects exactly one relative ordering.
pub proof fn lemma_lehmer_id_injective_small(s: Seq<i32>, t: Seq<i32>)
    requires
        s.len() == t.len(),
        2 <= s.len() <= 3,
        s.no_duplicates(),
        t.no_duplicates(),
        lehmer_id(s) == lehmer_id(t),
    ensures
        forall|i: int, j: int|
            0 <= i < s.len() && 0 <= j < s.len() ==> ((s[i] < s[j]) <==> (t[i] < t[j])),
{
    if s.len() == 2 {
        lemma_digits2(s);
        lemma_digits2(t);
    } else {
        lemma_digits3(s);
        lemma_digits3(t);
    }
}

proof fn lemma_empty_mset()
    ensures
        Seq::<i32>::empty().to_multiset() == Multiset::<i32>::empty(),
{
    broadcast use vstd::seq_lib::group_to_multiset_ensures;
    broadcast use vstd::multiset::group_multiset_axioms;

    let e = Seq::<i32>::empty();
    assert forall|q: i32| e.to_multiset().count(q) == Multiset::<i32>::empty().count(q) by {
        assert(!e.contains(q));
    }
    assert(e.to_multiset() =~= Multiset::<i32>::empty());
}

proof fn lemma_mset2(u: i32, v: i32)
    ensures
        seq![u, v].to_multiset() == Multiset::<i32>::empty().insert(u).insert(v),
{
    broadcast use vstd::seq_lib::group_to_multiset_ensures;
    broadcast use vstd::multiset::group_multiset_axioms;

    lemma_empty_mset();
    let e = Seq::<i32>::empty();
    assert(seq![u, v] =~= e.push(u).push(v));
    assert(e.push(u).to_multiset() =~= e.to_multiset().insert(u));
    assert(e.push(u).push(v).to_multiset() =~= e.push(u).to_multiset().insert(v));
}

proof fn lemma_mset3(u: i32, v: i32, w: i32)
    ensures
        seq![u, v, w].to_multiset() == Multiset::<i32>::empty().insert(u).insert(v).insert(w),
{
    broadcast use vstd::seq_lib::group_to_multiset_ensures;
    broadcast use vstd::multiset::group_multiset_axioms;

    lemma_mset2(u, v);
    let e = Seq::<i32>::empty();
    assert(seq![u, v, w] =~= e.push(u).push(v).push(w));
    assert(e.push(u).push(v) =~= seq![u, v]);
    assert(e.push(u).push(v).push(w).to_multiset()
        =~= e.push(u).push(v).to_multiset().insert(w));
}

proof fn lemma_sorted2(u: i32, v: i32)
    requires
        u <= v,
    ensures
        sorted_by(seq![u, v], value_le()),
{
    let s = seq![u, v];
    assert forall|i: int, j: int| 0 <= i < j < s.len() implies #[trigger] value_le()(s[i], s[j]) by {}
}

proof fn lemma_sorted3(u: i32, v: i32, w: i32)
    requires
        u <= v,
        v <= w,
    ensures
        sorted_by(seq![u, v, w], value_le()),
{
    let s = seq![u, v, w];
    assert forall|i: int, j: int| 0 <= i < j < s.len() implies #[trigger] value_le()(s[i], s[j]) by {}
}

/// A sequence of at most one element is its own ascending rearrangement.
proof fn lemma_value_sorted_trivial(s: Seq<i32>)
    requires
        s.len() <= 1,
    ensures
        value_sorted(s) == s,
{
    lemma_value_sorted_is(s, s);
}

/// The law behind the `A` tables: for a prefix of at most three elements,
/// the selected operation sequence rearranges exactly that prefix into
/// ascending order at the front of stack A and touches nothing else.
#[verifier::rlimit(100)]
pub proof fn lemma_small_plan_a(a: Seq<i32>, b: Seq<i32>, len: int)
    requires
        0 <= len <= 3,
        len <= a.len(),
    ensures
        apply_ops(small_plan(Block::BlkATop, len, a, b), a, b).0 == value_sorted(
            a.subrange(0, len),
        ) + a.subrange(len, a.len() as int),
        apply_ops(small_plan(Block::BlkATop, len, a, b), a, b).1 == b,
{
    reveal_with_fuel(apply_ops, 7);
    let prefix = a.subrange(0, len);
    let suffix = a.subrange(len, a.len() as int);
    if len <= 1 {
        lemma_value_sorted_trivial(prefix);
        assert(small_plan(Block::BlkATop, len, a, b) =~= Seq::<Op>::empty());
        assert(prefix + suffix =~= a);
    } else if len == 2 {
        let x = a[0];
        let y = a[1];
        lemma_digits2(prefix);
        lemma_mset2(x, y);
        assert(prefix =~= seq![x, y]);
        if y < x {
            let a1 = crate::ops::swapped_top(a);
            assert(a1 =~= seq![y, x] + suffix);
            lemma_sorted2(y, x);
            lemma_mset2(y, x);
            assert(seq![y, x].to_multiset() =~= prefix.to_multiset());
            lemma_value_sorted_is(prefix, seq![y, x]);
        } else {
            lemma_sorted2(x, y);
            lemma_value_sorted_is(prefix, seq![x, y]);
            assert(prefix + suffix =~= a);
        }
    } else {
        let x = a[0];
        let y = a[1];
        let z = a[2];
        let rest = a.subrange(3, a.len() as int);
        lemma_digits3(prefix);
        lemma_mset3(x, y, z);
        assert(prefix =~= seq![x, y, z]);
        assert(a =~= seq![x, y, z] + rest);
        let id = lehmer_id(prefix);
        if id == 0 {
            // x <= y, x <= z, y <= z: already ascending
            lemma_sorted3(x, y, z);
            lemma_value_sorted_is(prefix, seq![x, y, z]);
            assert(prefix + suffix =~= a);
        } else if id == 1 {
            // x <= y, x <= z, z < y
            let a1 = crate::ops::rotated(a);
            assert(a1 =~= seq![y, z] + rest + seq![x]);
            let a2 = crate::ops::swapped_top(a1);
            assert(a2 =~= seq![z, y] + rest + seq![x]);
            let a3 = crate::ops::rev_rotated(a2);
            assert(a2.last() == x);
            assert(a3 =~= seq![x, z, y] + rest);
            lemma_sorted3(x, z, y);
            lemma_mset3(x, z, y);
            assert(seq![x, z, y].to_multiset() =~= prefix.to_multiset());
            lemma_value_sorted_is(prefix, seq![x, z, y]);
        } else if id == 2 {
            // y < x <= z
            let a1 = crate::ops::swapped_top(a);
            assert(a1 =~= seq![y, x, z] + rest);
            lemma_sorted3(y, x, z);
            lemma_mset3(y, x, z);
            assert(seq![y, x, z].to_multiset() =~= prefix.to_multiset());
            lemma_value_sorted_is(prefix, seq![y, x, z]);
        } else if id == 3 {
            // z < x <= y
            let a1 = crate::ops::rotated(a);
            assert(a1 =~= seq![y, z] + rest + seq![x]);
            let a2 = crate::ops::swapped_top(a1);
            assert(a2 =~= seq![z, y] + rest + seq![x]);
            let a3 = crate::ops::rev_rotated(a2);
            assert(a2.last() == x);
            assert(a3 =~= seq![x, z, y] + rest);
            let a4 = crate::ops::swapped_top(a3);
            assert(a4 =~= seq![z, x, y] + rest);
            lemma_sorted3(z, x, y);
            lemma_mset3(z, x, y);
            assert(seq![z, x, y].to_multiset() =~= prefix.to_multiset());
            lemma_value_sorted_is(prefix, seq![z, x, y]);
        } else if id == 4 {
            // y <= z < x
            let a1 = crate::ops::swapped_top(a);
            assert(a1 =~= seq![y, x, z] + rest);
            let a2 = crate::ops::rotated(a1);
            assert(a2 =~= seq![x, z] + rest + seq![y]);
            let a3 = crate::ops::swapped_top(a2);
            assert(a3 =~= seq![z, x] + rest + seq![y]);
            let a4 = crate::ops::rev_rotated(a3);
            assert(a3.last() == y);
            assert(a4 =~= seq![y, z, x] + rest);
            lemma_sorted3(y, z, x);
            lemma_mset3(y, z, x);
            assert(seq![y, z, x].to_multiset() =~= prefix.to_multiset());
            lemma_value_sorted_is(prefix, seq![y, z, x]);
        } else {
            // z < y < x: fully descending
            let a1 = crate::ops::swapped_top(a);
            assert(a1 =~= seq![y, x, z] + rest);
            let a2 = crate::ops::rotated(a1);
            assert(a2 =~= seq![x, z] + rest + seq![y]);
            let a3 = crate::ops::swapped_top(a2);
            assert(a3 =~= seq![z, x] + rest + seq![y]);
            let a4 = crate::ops::rev_rotated(a3);
            assert(a3.last() == y);
            assert(a4 =~= seq![y, z, x] + rest);
            let a5 = crate::ops::swapped_top(a4);
            assert(a5 =~= seq![z, y, x] + rest);
            lemma_sorted3(z, y, x);
            lemma_mset3(z, y, x);
            assert(seq![z, y, x].to_multiset() =~= prefix.to_multiset());
            lemma_value_sorted_is(prefix, seq![z, y, x]);
        }
    }
}

/// The law behind the `B` tables: for a prefix of at most three elements on
/// top of stack B, the selected operation sequence drains exactly that
/// prefix onto the front of stack A in ascending order.
#[verifier::rlimit(100)]
pub proof fn lemma_small_plan_b(a: Seq<i32>, b: Seq<i32>, len: int)
    requires
        0 <= len <= 3,
        len <= b.len(),
    ensures
        apply_ops(small_plan(Block::BlkBTop, len, a, b), a, b).0 == value_sorted(
            b.subrange(0, len),
        ) + a,
        apply_ops(small_plan(Block::BlkBTop, len, a, b), a, b).1 == b.subrange(
            len,
            b.len() as int,
        ),
{
    reveal_with_fuel(apply_ops, 7);
    let prefix = b.subrange(0, len);
    let rest = b.subrange(len, b.len() as int);
    if len == 0 {
        lemma_value_sorted_trivial(prefix);
        assert(small_plan(Block::BlkBTop, len, a, b) =~= Seq::<Op>::empty());
        assert(value_sorted(prefix) + a =~= a);
        assert(rest =~= b);
    } else if len == 1 {
        let x = b[0];
        lemma_value_sorted_trivial(prefix);
        assert(prefix =~= seq![x]);
        assert(b.len() > 0);
        assert(seq![b[0]] + a == prefix + a);
        assert(b.drop_first() =~= rest);
    } else if len == 2 {
        let x = b[0];
        let y = b[1];
        lemma_digits2(prefix);
        lemma_mset2(x, y);
        assert(prefix =~= seq![x, y]);
        assert(b =~= seq![x, y] + rest);
        if y < x {
            // pa, pa
            let b1 = b.drop_first();
            assert(b1 =~= seq![y] + rest);
            let a1 = seq![x] + a;
            let b2 = b1.drop_first();
            assert(b2 =~= rest);
            let a2 = seq![b1[0]] + a1;
            assert(a2 =~= seq![y, x] + a);
            lemma_sorted2(y, x);
            lemma_mset2(y, x);
            assert(seq![y, x].to_multiset() =~= prefix.to_multiset());
            lemma_value_sorted_is(prefix, seq![y, x]);
        } else {
            // sb, pa, pa
            let b1 = crate::ops::swapped_top(b);
            assert(b1 =~= seq![y, x] + rest);
            let b2 = b1.drop_first();
            assert(b2 =~= seq![x] + rest);
            let a1 = seq![b1[0]] + a;
            assert(a1 =~= seq![y] + a);
            let b3 = b2.drop_first();
            assert(b3 =~= rest);
            let a2 = seq![b2[0]] + a1;
            assert(a2 =~= seq![x, y] + a);
            lemma_sorted2(x, y);
            lemma_value_sorted_is(prefix, seq![x, y]);
        }
    } else {
        let x = b[0];
        let y = b[1];
        let z = b[2];
        lemma_digits3(prefix);
        lemma_mset3(x, y, z);
        assert(prefix =~= seq![x, y, z]);
        assert(b =~= seq![x, y, z] + rest);
        let id = lehmer_id(prefix);
        if id == 0 {
            // x <= y, x <= z, y <= z: sb pa sb pa sa pa
            let b1 = crate::ops::swapped_top(b);
            assert(b1 =~= seq![y, x, z] + rest);
            let b2 = b1.drop_first();
            let a1 = seq![b1[0]] + a;
            assert(b2 =~= seq![x, z] + rest);
            assert(a1 =~= seq![y] + a);
            let b3 = crate::ops::swapped_top(b2);
            assert(b3 =~= seq![z, x] + rest);
            let b4 = b3.drop_first();
            let a2 = seq![b3[0]] + a1;
            assert(b4 =~= seq![x] + rest);
            assert(a2 =~= seq![z, y] + a);
            let a3 = crate::ops::swapped_top(a2);
            assert(a3 =~= seq![y, z] + a);
            let b5 = b4.drop_first();
            let a4 = seq![b4[0]] + a3;
            assert(b5 =~= rest);
            assert(a4 =~= seq![x, y, z] + a);
            lemma_sorted3(x, y, z);
            lemma_value_sorted_is(prefix, seq![x, y, z]);
        } else if id == 1 {
            // x <= y, x <= z, z < y: sb pa sb pa pa
            let b1 = crate::ops::swapped_top(b);
            assert(b1 =~= seq![y, x, z] + rest);
            let b2 = b1.drop_first();
            let a1 = seq![b1[0]] + a;
            assert(b2 =~= seq![x, z] + rest);
            assert(a1 =~= seq![y] + a);
            let b3 = crate::ops::swapped_top(b2);
            assert(b3 =~= seq![z, x] + rest);
            let b4 = b3.drop_first();
            let a2 = seq![b3[0]] + a1;
            assert(b4 =~= seq![x] + rest);
            assert(a2 =~= seq![z, y] + a);
            let b5 = b4.drop_first();
            let a3 = seq![b4[0]] + a2;
            assert(b5 =~= rest);
            assert(a3 =~= seq![x, z, y] + a);
            lemma_sorted3(x, z, y);
            lemma_mset3(x, z, y);
            assert(seq![x, z, y].to_multiset() =~= prefix.to_multiset());
            lemma_value_sorted_is(prefix, seq![x, z, y]);
        } else if id == 2 {
            // y < x <= z: pa sb pa sa pa
            let b1 = b.drop_first();
            let a1 = seq![x] + a;
            assert(b1 =~= seq![y, z] + rest);
            let b2 = crate::ops::swapped_top(b1);
            assert(b2 =~= seq![z, y] + rest);
            let b3 = b2.drop_first();
            let a2 = seq![b2[0]] + a1;
            assert(b3 =~= seq![y] + rest);
            assert(a2 =~= seq![z, x] + a);
            let a3 = crate::ops::swapped_top(a2);
            assert(a3 =~= seq![x, z] + a);
            let b4 = b3.drop_first();
            let a4 = seq![b3[0]] + a3;
            assert(b4 =~= rest);
            assert(a4 =~= seq![y, x, z] + a);
            lemma_sorted3(y, x, z);
            lemma_mset3(y, x, z);
            assert(seq![y, x, z].to_multiset() =~= prefix.to_multiset());
            lemma_value_sorted_is(prefix, seq![y, x, z]);
        } else if id == 3 {
            // z < x <= y: sb pa pa pa
            let b1 = crate::ops::swapped_top(b);
            assert(b1 =~= seq![y, x, z] + rest);
            let b2 = b1.drop_first();
            let a1 = seq![b1[0]] + a;
            assert(b2 =~= seq![x, z] + rest);
            assert(a1 =~= seq![y] + a);
            let b3 = b2.drop_first();
            let a2 = seq![b2[0]] + a1;
            assert(b3 =~= seq![z] + rest);
            assert(a2 =~= seq![x, y] + a);
            let b4 = b3.drop_first();
            let a3 = seq![b3[0]] + a2;
            assert(b4 =~= rest);
            assert(a3 =~= seq![z, x, y] + a);
            lemma_sorted3(z, x, y);
            lemma_mset3(z, x, y);
            assert(seq![z, x, y].to_multiset() =~= prefix.to_multiset());
            lemma_value_sorted_is(prefix, seq![z, x, y]);
        } else if id == 4 {
            // y <= z < x: pa sb pa pa
            let b1 = b.drop_first();
            let a1 = seq![x] + a;
            assert(b1 =~= seq![y, z] + rest);
            let b2 = crate::ops::swapped_top(b1);
            assert(b2 =~= seq![z, y] + rest);
            let b3 = b2.drop_first();
            let a2 = seq![b2[0]] + a1;
            assert(b3 =~= seq![y] + rest);
            assert(a2 =~= seq![z, x] + a);
            let b4 = b3.drop_first();
            let a3 = seq![b3[0]] + a2;
            assert(b4 =~= rest);
            assert(a3 =~= seq![y, z, x] + a);
            lemma_sorted3(y, z, x);
            lemma_mset3(y, z, x);
            assert(seq![y, z, x].to_multiset() =~= prefix.to_multiset());
            lemma_value_sorted_is(prefix, seq![y, z, x]);
        } else {
            // z < y < x: pa pa pa
            let b1 = b.drop_first();
            let a1 = seq![x] + a;
            assert(b1 =~= seq![y, z] + rest);
            let b2 = b1.drop_first();
            let a2 = seq![b1[0]] + a1;
            assert(b2 =~= seq![z] + rest);
            assert(a2 =~= seq![y, x] + a);
            let b3 = b2.drop_first();
            let a3 = seq![b2[0]] + a2;
            assert(b3 =~= rest);
            assert(a3 =~= seq![z, y, x] + a);
            lemma_sorted3(z, y, x);
            lemma_mset3(z, y, x);
            assert(seq![z, y, x].to_multiset() =~= prefix.to_multiset());
            lemma_value_sorted_is(prefix, seq![z, y, x]);
        }
    }
}

} // verus!
