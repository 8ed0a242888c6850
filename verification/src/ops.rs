//! The closed vocabulary of eleven primitive stack operations, and their
//! meaning as transformations of the two stacks' logical contents.
//!
//! All operations are total: applying one to a stack with too few elements
//! leaves that stack unchanged.

use vstd::prelude::*;

verus! {

/// One atomic stack manipulation: push the other stack's front onto self
/// (`Pa`/`Pb`), swap the two frontmost elements (`Sa`/`Sb`/`Ss`), rotate the
/// front to the back (`Ra`/`Rb`/`Rr`), or rotate the back to the front
/// (`Rra`/`Rrb`/`Rrr`).
#[derive(Clone, Copy, Debug, PartialEq, Eq, Structural)]
pub enum Op {
    Pa,
    Pb,
    Sa,
    Sb,
    Ss,
    Ra,
    Rb,
    Rr,
    Rra,
    Rrb,
    Rrr,
}

/// The two frontmost elements exchanged; a shorter sequence is unchanged.
pub open spec fn swapped_top(s: Seq<i32>) -> Seq<i32> {
    if s.len() >= 2 {
        s.update(0, s[1]).update(1, s[0])
    } else {
        s
    }
}

/// The front element moved to the back; an empty sequence is unchanged.
pub open spec fn rotated(s: Seq<i32>) -> Seq<i32> {
    if s.len() > 0 {
        s.drop_first().push(s[0])
    } else {
        s
    }
}

/// The back element moved to the front; an empty sequence is unchanged.
pub open spec fn rev_rotated(s: Seq<i32>) -> Seq<i32> {
    if s.len() > 0 {
        seq![s.last()] + s.drop_last()
    } else {
        s
    }
}

/// The pair of stack contents produced by one operation.
pub open spec fn apply_op(op: Op, a: Seq<i32>, b: Seq<i32>) -> (Seq<i32>, Seq<i32>) {
    match op {
        Op::Pa => if b.len() > 0 {
            (seq![b[0]] + a, b.drop_first())
        } else {
            (a, b)
        },
        Op::Pb => if a.len() > 0 {
            (a.drop_first(), seq![a[0]] + b)
        } else {
            (a, b)
        },
        Op::Sa => (swapped_top(a), b),
        Op::Sb => (a, swapped_top(b)),
        Op::Ss => (swapped_top(a), swapped_top(b)),
        Op::Ra => (rotated(a), b),
        Op::Rb => (a, rotated(b)),
        Op::Rr => (rotated(a), rotated(b)),
        Op::Rra => (rev_rotated(a), b),
        Op::Rrb => (a, rev_rotated(b)),
        Op::Rrr => (rev_rotated(a), rev_rotated(b)),
    }
}

/// The pair of stack contents produced by a whole operation sequence, first
/// operation first.
pub open spec fn apply_ops(ops: Seq<Op>, a: Seq<i32>, b: Seq<i32>) -> (Seq<i32>, Seq<i32>)
    decreases ops.len(),
{
    if ops.len() == 0 {
        (a, b)
    } else {
        let next = apply_op(ops[0], a, b);
        apply_ops(ops.drop_first(), next.0, next.1)
    }
}

/// Rotating the front to the back and then the back to the front restores
/// the stack: an adjacent rotate/reverse-rotate pair is a no-op.
pub proof fn lemma_rotate_cancel(s: Seq<i32>)
    ensures
        rev_rotated(rotated(s)) == s,
{
    if s.len() > 0 {
        assert(rotated(s).last() == s[0]);
        assert(rev_rotated(rotated(s)) =~= s);
    } else {
        assert(rev_rotated(rotated(s)) =~= s);
    }
}

/// Concatenated operation sequences apply one after the other.
pub proof fn lemma_apply_ops_concat(s: Seq<Op>, t: Seq<Op>, a: Seq<i32>, b: Seq<i32>)
    ensures
        apply_ops(s + t, a, b) == {
            let mid = apply_ops(s, a, b);
            apply_ops(t, mid.0, mid.1)
        },
    decreases s.len(),
{
    if s.len() == 0 {
        assert(s + t =~= t);
    } else {
        let next = apply_op(s[0], a, b);
        assert((s + t)[0] == s[0]);
        assert((s + t).drop_first() =~= s.drop_first() + t);
        lemma_apply_ops_concat(s.drop_first(), t, next.0, next.1);
        assert(apply_ops(s + t, a, b) == apply_ops(s.drop_first() + t, next.0, next.1));
    }
}

/// Appending one operation to a sequence applies it after the rest.
pub proof fn lemma_apply_ops_snoc(ops: Seq<Op>, op: Op, a: Seq<i32>, b: Seq<i32>)
    ensures
        apply_ops(ops.push(op), a, b) == {
            let mid = apply_ops(ops, a, b);
            apply_op(op, mid.0, mid.1)
        },
    decreases ops.len(),
{
    if ops.len() == 0 {
        reveal_with_fuel(apply_ops, 2);
        assert(ops.push(op).drop_first() =~= Seq::<Op>::empty());
        assert(ops.push(op)[0] == op);
    } else {
        let next = apply_op(ops[0], a, b);
        assert(ops.push(op)[0] == ops[0]);
        assert(ops.push(op).drop_first() =~= ops.drop_first().push(op));
        lemma_apply_ops_snoc(ops.drop_first(), op, next.0, next.1);
        let mid = apply_ops(ops, a, b);
        assert(mid == apply_ops(ops.drop_first(), next.0, next.1));
        assert(apply_ops(ops.push(op), a, b) == apply_ops(ops.drop_first().push(op), next.0, next.1));
        assert(apply_ops(ops.drop_first().push(op), next.0, next.1) == apply_op(op, mid.0, mid.1));
    }
}

proof fn lemma_swapped_top_mset(s: Seq<i32>)
    ensures
        swapped_top(s).to_multiset() == s.to_multiset(),
{
    broadcast use vstd::seq_lib::group_to_multiset_ensures;
    broadcast use vstd::multiset::group_multiset_axioms;

    if s.len() >= 2 {
        let u1 = s.update(0, s[1]);
        let u2 = u1.update(1, s[0]);
        assert(s.contains(s[0]));
        assert(u1[0] == s[1]);
        assert(u1.contains(s[1]));
        assert(u1.to_multiset() == s.to_multiset().insert(s[1]).remove(s[0]));
        assert(u2.to_multiset() == u1.to_multiset().insert(s[0]).remove(u1[1]));
        assert(u1[1] == s[1]);
        assert(s.to_multiset().count(s[0]) > 0);
        assert(u1.to_multiset().count(s[1]) > 0);
        assert(u2.to_multiset() =~= s.to_multiset());
    }
}

proof fn lemma_rotated_mset(s: Seq<i32>)
    ensures
        rotated(s).to_multiset() == s.to_multiset(),
{
    broadcast use vstd::seq_lib::group_to_multiset_ensures;
    broadcast use vstd::multiset::group_multiset_axioms;

    if s.len() > 0 {
        assert(s =~= s.drop_first().insert(0, s[0]));
        assert(s.drop_first().insert(0, s[0]).to_multiset()
            == s.drop_first().to_multiset().insert(s[0]));
        assert(rotated(s).to_multiset() == s.drop_first().to_multiset().insert(s[0]));
    }
}

proof fn lemma_rev_rotated_mset(s: Seq<i32>)
    ensures
        rev_rotated(s).to_multiset() == s.to_multiset(),
{
    broadcast use vstd::seq_lib::group_to_multiset_ensures;
    broadcast use vstd::multiset::group_multiset_axioms;

    if s.len() > 0 {
        assert(s =~= s.drop_last().push(s.last()));
        assert(s.drop_last().push(s.last()).to_multiset()
            == s.drop_last().to_multiset().insert(s.last()));
        assert(rev_rotated(s) =~= s.drop_last().insert(0, s.last()));
        assert(s.drop_last().insert(0, s.last()).to_multiset()
            == s.drop_last().to_multiset().insert(s.last()));
    }
}

/// No operation creates or destroys elements: taken together, the two stacks
/// hold the same multiset of values after any operation.
pub proof fn lemma_apply_op_conserves(op: Op, a: Seq<i32>, b: Seq<i32>)
    ensures
        (apply_op(op, a, b).0 + apply_op(op, a, b).1).to_multiset() == (a + b).to_multiset(),
{
    broadcast use vstd::seq_lib::lemma_multiset_commutative;
    broadcast use vstd::multiset::group_multiset_axioms;

    let r = apply_op(op, a, b);
    match op {
        Op::Pa => {
            if b.len() > 0 {
                assert(b =~= seq![b[0]] + b.drop_first());
                assert((r.0 + r.1).to_multiset() =~= (a + b).to_multiset());
            }
        }
        Op::Pb => {
            if a.len() > 0 {
                assert(a =~= seq![a[0]] + a.drop_first());
                assert((r.0 + r.1).to_multiset() =~= (a + b).to_multiset());
            }
        }
        _ => {
            lemma_swapped_top_mset(a);
            lemma_swapped_top_mset(b);
            lemma_rotated_mset(a);
            lemma_rotated_mset(b);
            lemma_rev_rotated_mset(a);
            lemma_rev_rotated_mset(b);
            assert((r.0 + r.1).to_multiset() =~= (a + b).to_multiset());
        }
    }
}

/// Conservation extends to whole operation sequences.
pub proof fn lemma_apply_ops_conserves(ops: Seq<Op>, a: Seq<i32>, b: Seq<i32>)
    ensures
        (apply_ops(ops, a, b).0 + apply_ops(ops, a, b).1).to_multiset() == (a + b).to_multiset(),
    decreases ops.len(),
{
    if ops.len() > 0 {
        let next = apply_op(ops[0], a, b);
        lemma_apply_op_conserves(ops[0], a, b);
        lemma_apply_ops_conserves(ops.drop_first(), next.0, next.1);
    }
}

/// Every operation, in a fixed order; stands in for iterating the `Op`
/// variants.
pub fn all_ops() -> (r: Vec<Op>)
    ensures
        r@ =~= seq![
            Op::Pa, Op::Pb, Op::Sa, Op::Sb, Op::Ss, Op::Ra, Op::Rb, Op::Rr, Op::Rra, Op::Rrb,
            Op::Rrr,
        ],
{
    let mut r: Vec<Op> = Vec::new();
    r.push(Op::Pa);
    r.push(Op::Pb);
    r.push(Op::Sa);
    r.push(Op::Sb);
    r.push(Op::Ss);
    r.push(Op::Ra);
    r.push(Op::Rb);
    r.push(Op::Rr);
    r.push(Op::Rra);
    r.push(Op::Rrb);
    r.push(Op::Rrr);
    r
}

/// The operation's lowercase rendering token.
pub fn op_token(op: Op) -> (r: &'static str)
    ensures
        op == Op::Pa ==> r@ == "pa"@,
        op == Op::Pb ==> r@ == "pb"@,
        op == Op::Sa ==> r@ == "sa"@,
        op == Op::Sb ==> r@ == "sb"@,
        op == Op::Ss ==> r@ == "ss"@,
        op == Op::Ra ==> r@ == "ra"@,
        op == Op::Rb ==> r@ == "rb"@,
        op == Op::Rr ==> r@ == "rr"@,
        op == Op::Rra ==> r@ == "rra"@,
        op == Op::Rrb ==> r@ == "rrb"@,
        op == Op::Rrr ==> r@ == "rrr"@,
{
    match op {
        Op::Pa => "pa",
        Op::Pb => "pb",
        Op::Sa => "sa",
        Op::Sb => "sb",
        Op::Ss => "ss",
        Op::Ra => "ra",
        Op::Rb => "rb",
        Op::Rr => "rr",
        Op::Rra => "rra",
        Op::Rrb => "rrb",
        Op::Rrr => "rrr",
    }
}

} // verus!
