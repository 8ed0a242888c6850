//! Bounded backtracking search for shortcuts in a finished operation log.
//!
//! For a log position `index`, the search restores the state recorded in
//! `saves[index]`, applies a speculative chain of up to `max_depth + 1`
//! operations, and looks whether the resulting stack pair already occurs as a
//! later snapshot within a window of `max_len` positions.  A match means the
//! original operations between `index` and the match can be replaced by the
//! shorter speculative chain.  The search is local and greedy: among all
//! candidates it keeps the largest skip, and equal skips favor the candidate
//! examined last (an incidental tie-break, kept deterministic here).

use vstd::prelude::*;

use crate::ops::{all_ops, apply_op, apply_ops, lemma_apply_ops_snoc, lemma_rotate_cancel, Op};
use crate::state::{SaveState, State};

verus! {

/// A shortcut found at one log position: the replacement chain and how many
/// log positions it saves.
pub struct CompressorSkip {
    pub ops: Vec<Op>,
    pub skip: usize,
}

/// The search configuration and the finished state whose log is searched.
pub struct Compressor<'s> {
    pub max_depth: usize,
    pub max_len: usize,
    pub skips: Vec<CompressorSkip>,
    pub skip: usize,
    pub ops: Vec<Op>,
    pub state: &'s State,
}

/// One node of the speculative search: the chain applied so far and its
/// length.
pub struct CompressorState {
    pub ops: Vec<Op>,
    pub depth: usize,
    pub skip: usize,
}

/// An element-for-element copy of an operation list.
fn copy_ops(v: &Vec<Op>) -> (r: Vec<Op>)
    ensures
        r@ == v@,
{
    let mut r: Vec<Op> = Vec::new();
    let mut i: usize = 0;
    while i < v.len()
        invariant
            i <= v@.len(),
            r@ =~= v@.subrange(0, i as int),
        decreases v@.len() - i,
    {
        r.push(v[i]);
        proof {
            assert(r@ =~= v@.subrange(0, i + 1));
        }
        i += 1;
    }
    proof {
        assert(r@ =~= v@);
    }
    r
}

/// The elision law for a no-op rotation pair.  In a replayable log, an `ra`
/// immediately followed by `rra` restores the state recorded before the
/// pair; if at least one further logged operation follows and the search
/// window covers it, any search result satisfying [`Compressor::compress`]'s
/// completeness guarantee at that position reports a skip of at least 2.
pub proof fn lemma_no_op_pair_compresses(
    st: State,
    p: int,
    max_depth: usize,
    max_len: usize,
    skip: usize,
)
    requires
        st.inv(),
        0 <= p,
        p + 3 < st.saves@.len(),
        st.ops@[p] == Op::Ra,
        st.ops@[p + 1] == Op::Rra,
        max_len >= 3,
        forall|e: Seq<Op>, fut: int|
            #![trigger apply_ops(
                Seq::<Op>::empty() + e,
                st.saves@[p].stack_a@,
                st.saves@[p].stack_b@,
            ), st.saves@[fut]]
            1 <= e.len() <= max_depth + 1 && p < fut < st.saves@.len() && fut <= p + max_len
                && fut - p > e.len() - 1 && apply_ops(
                Seq::<Op>::empty() + e,
                st.saves@[p].stack_a@,
                st.saves@[p].stack_b@,
            ) == (st.saves@[fut].stack_a@, st.saves@[fut].stack_b@)
                ==> skip + e.len() >= fut - p + 1,
    ensures
        skip >= 2,
{
    st.lemma_log_replays(p);
    st.lemma_log_replays(p + 1);
    st.lemma_log_replays(p + 2);
    lemma_rotate_cancel(st.saves@[p].stack_a@);
    // the pair restores the state: snapshot p + 2 equals snapshot p
    assert(st.saves@[p + 2].stack_a@ == st.saves@[p].stack_a@);
    assert(st.saves@[p + 2].stack_b@ == st.saves@[p].stack_b@);
    // so the single operation logged after the pair reaches snapshot p + 3
    let o = st.ops@[p + 2];
    let chain = Seq::<Op>::empty() + seq![o];
    assert(chain.drop_first() =~= Seq::<Op>::empty());
    assert(chain[0] == o);
    assert(apply_ops(chain, st.saves@[p].stack_a@, st.saves@[p].stack_b@) == apply_op(
        o,
        st.saves@[p].stack_a@,
        st.saves@[p].stack_b@,
    )) by {
        reveal_with_fuel(apply_ops, 3);
    }
    assert(apply_ops(chain, st.saves@[p].stack_a@, st.saves@[p].stack_b@)
        == (st.saves@[p + 3].stack_a@, st.saves@[p + 3].stack_b@));
    assert(skip + seq![o].len() >= (p + 3) - p + 1);
}

impl<'s> Compressor<'s> {
    pub fn new(state: &'s State, max_depth: usize, max_len: usize) -> (r: Self)
        ensures
            r.state == state,
            r.max_depth == max_depth,
            r.max_len == max_len,
            r.skips@.len() == 0,
            r.skip == 0,
            r.ops@.len() == 0,
    {
        Compressor { max_depth, max_len, skips: Vec::new(), skip: 0, ops: Vec::new(), state }
    }

    /// Search position `index` for a shortcut, extending the speculative
    /// chain `comp.ops` one operation at a time up to `max_depth` extra
    /// levels.  Returns the best skip found and the full replacement chain
    /// that realizes it: applying the chain to the state recorded in
    /// `saves[index]` reproduces the snapshot `skip + chain_len - 1`
    /// positions further on.  A zero skip means no shortcut was found and
    /// carries an empty chain; conversely, whenever any chain within the
    /// depth budget reaches a later snapshot inside the window, the reported
    /// skip is at least as large as that chain's.
    pub fn compress(&mut self, comp: CompressorState, index: usize) -> (r: (usize, Vec<Op>))
        requires
            old(self).state.inv(),
            index < old(self).state.saves@.len(),
            comp.ops@.len() == comp.depth,
            comp.depth <= old(self).max_depth,
        ensures
            *final(self) == *old(self),
            r.0 == 0 ==> r.1@.len() == 0,
            r.0 > 0 ==> exists|fut: int|
                {
                    &&& index < fut < old(self).state.saves@.len()
                    &&& fut <= index + old(self).max_len
                    &&& 1 <= r.1@.len() <= old(self).max_depth + 1
                    &&& #[trigger] apply_ops(
                        r.1@,
                        old(self).state.saves@[index as int].stack_a@,
                        old(self).state.saves@[index as int].stack_b@,
                    ) == (old(self).state.saves@[fut].stack_a@, old(self).state.saves@[fut].stack_b@)
                    &&& r.0 + r.1@.len() == fut - index + 1
                },
            forall|e: Seq<Op>, fut: int|
                #![trigger apply_ops(
                    comp.ops@ + e,
                    old(self).state.saves@[index as int].stack_a@,
                    old(self).state.saves@[index as int].stack_b@,
                ), old(self).state.saves@[fut]]
                1 <= e.len() <= old(self).max_depth - comp.depth + 1
                    && index < fut < old(self).state.saves@.len()
                    && fut <= index + old(self).max_len
                    && fut - index > comp.depth + e.len() - 1 && apply_ops(
                    comp.ops@ + e,
                    old(self).state.saves@[index as int].stack_a@,
                    old(self).state.saves@[index as int].stack_b@,
                ) == (old(self).state.saves@[fut].stack_a@, old(self).state.saves@[fut].stack_b@)
                    ==> r.0 + comp.depth + e.len() >= fut - index + 1,
        decreases old(self).max_depth - comp.depth,
    {
        let all = all_ops();
        let nsaves = self.state.saves.len();
        let mut best_skip: usize = 0;
        let mut best_ops: Vec<Op> = Vec::new();
        let mut ci: usize = 0;
        while ci < all.len()
            invariant
                *self == *old(self),
                self.state.inv(),
                nsaves == self.state.saves@.len(),
                index < self.state.saves@.len(),
                comp.ops@.len() == comp.depth,
                comp.depth <= self.max_depth,
                ci <= all@.len(),
                best_skip == 0 ==> best_ops@.len() == 0,
                best_skip > 0 ==> exists|fut: int|
                    {
                        &&& index < fut < self.state.saves@.len()
                        &&& fut <= index + self.max_len
                        &&& 1 <= best_ops@.len() <= self.max_depth + 1
                        &&& #[trigger] apply_ops(
                            best_ops@,
                            self.state.saves@[index as int].stack_a@,
                            self.state.saves@[index as int].stack_b@,
                        ) == (self.state.saves@[fut].stack_a@, self.state.saves@[fut].stack_b@)
                        &&& best_skip + best_ops@.len() == fut - index + 1
                    },
                forall|oi: int, e: Seq<Op>, fut: int|
                    #![trigger all@[oi], apply_ops(
                        comp.ops@ + e,
                        self.state.saves@[index as int].stack_a@,
                        self.state.saves@[index as int].stack_b@,
                    ), self.state.saves@[fut]]
                    0 <= oi < ci && 1 <= e.len() <= self.max_depth - comp.depth + 1
                        && e[0] == all@[oi] && index < fut < self.state.saves@.len()
                        && fut <= index + self.max_len
                        && fut - index > comp.depth + e.len() - 1 && apply_ops(
                        comp.ops@ + e,
                        self.state.saves@[index as int].stack_a@,
                        self.state.saves@[index as int].stack_b@,
                    ) == (self.state.saves@[fut].stack_a@, self.state.saves@[fut].stack_b@)
                        ==> best_skip + comp.depth + e.len() >= fut - index + 1,
            decreases all@.len() - ci,
        {
            let op = all[ci];
            let mut sim = self.state.from_save(index);
            let ghost restored_a = sim.stack_a@;
            let ghost restored_b = sim.stack_b@;
            let mut t: usize = 0;
            while t < comp.ops.len()
                invariant
                    t <= comp.ops@.len(),
                    sim.wf(),
                    sim.stack_a@ == apply_ops(comp.ops@.subrange(0, t as int), restored_a, restored_b).0,
                    sim.stack_b@ == apply_ops(comp.ops@.subrange(0, t as int), restored_a, restored_b).1,
                decreases comp.ops@.len() - t,
            {
                let ghost chain_pre = comp.ops@.subrange(0, t as int);
                sim.op_unsaved(comp.ops[t]);
                proof {
                    assert(comp.ops@.subrange(0, t + 1) =~= chain_pre.push(comp.ops@[t as int]));
                    lemma_apply_ops_snoc(chain_pre, comp.ops@[t as int], restored_a, restored_b);
                }
                t += 1;
            }
            proof {
                assert(comp.ops@.subrange(0, comp.ops@.len() as int) =~= comp.ops@);
            }
            let ghost chain = comp.ops@;
            sim.op_unsaved(op);
            proof {
                lemma_apply_ops_snoc(chain, op, restored_a, restored_b);
            }
            let cand = SaveState { stack_a: sim.stack_a, stack_b: sim.stack_b };
            let found = self.state.find_state(&cand, index + 1, self.max_len);
            if let Some(fut) = found {
                if fut - index > comp.depth {
                    let skip = (fut - index) - comp.depth;
                    if skip >= best_skip {
                        let mut with_op = copy_ops(&comp.ops);
                        with_op.push(op);
                        proof {
                            assert(with_op@ == chain.push(op));
                            assert(apply_ops(
                                with_op@,
                                self.state.saves@[index as int].stack_a@,
                                self.state.saves@[index as int].stack_b@,
                            ) == (
                                self.state.saves@[fut as int].stack_a@,
                                self.state.saves@[fut as int].stack_b@,
                            ));
                        }
                        best_skip = skip;
                        best_ops = with_op;
                    }
                }
            }
            proof {
                // completeness for a single-operation extension by this
                // candidate: the last match found bounds the best skip
                assert forall|e: Seq<Op>, fut2: int|
                    e.len() == 1 && e[0] == op && index < fut2 < self.state.saves@.len()
                        && fut2 <= index + self.max_len && fut2 - index > comp.depth
                        && apply_ops(
                        comp.ops@ + e,
                        self.state.saves@[index as int].stack_a@,
                        self.state.saves@[index as int].stack_b@,
                    ) == (self.state.saves@[fut2].stack_a@, self.state.saves@[fut2].stack_b@)
                        implies best_skip + comp.depth + e.len() >= fut2 - index + 1 by {
                    assert(e =~= seq![op]);
                    assert(comp.ops@ + e =~= chain.push(op));
                    match found {
                        Some(m) => {
                            assert(fut2 <= m);
                            assert(best_skip >= m - index - comp.depth);
                        }
                        None => {
                            assert(false);
                        }
                    }
                }
            }
            if comp.depth < self.max_depth {
                let mut deeper_ops = copy_ops(&comp.ops);
                deeper_ops.push(op);
                let deeper = CompressorState {
                    ops: deeper_ops,
                    depth: comp.depth + 1,
                    skip: comp.skip,
                };
                let (s2, o2) = self.compress(deeper, index);
                proof {
                    // completeness for longer extensions starting with this
                    // candidate: the recursive search has already covered
                    // every chain one operation deeper
                    assert forall|e: Seq<Op>, fut2: int|
                        2 <= e.len() <= self.max_depth - comp.depth + 1 && e[0] == op
                            && index < fut2 < self.state.saves@.len()
                            && fut2 <= index + self.max_len
                            && fut2 - index > comp.depth + e.len() - 1 && apply_ops(
                            comp.ops@ + e,
                            self.state.saves@[index as int].stack_a@,
                            self.state.saves@[index as int].stack_b@,
                        ) == (self.state.saves@[fut2].stack_a@, self.state.saves@[fut2].stack_b@)
                            implies s2 + comp.depth + e.len() >= fut2 - index + 1 by {
                        assert(deeper.ops@ + e.drop_first() =~= comp.ops@ + e);
                        assert(apply_ops(
                            deeper.ops@ + e.drop_first(),
                            self.state.saves@[index as int].stack_a@,
                            self.state.saves@[index as int].stack_b@,
                        ) == (
                            self.state.saves@[fut2].stack_a@,
                            self.state.saves@[fut2].stack_b@,
                        ));
                    }
                }
                if s2 > 0 && s2 >= best_skip {
                    best_skip = s2;
                    best_ops = o2;
                }
                proof {
                    assert forall|e: Seq<Op>, fut2: int|
                        2 <= e.len() <= self.max_depth - comp.depth + 1 && e[0] == op
                            && index < fut2 < self.state.saves@.len()
                            && fut2 <= index + self.max_len
                            && fut2 - index > comp.depth + e.len() - 1 && apply_ops(
                            comp.ops@ + e,
                            self.state.saves@[index as int].stack_a@,
                            self.state.saves@[index as int].stack_b@,
                        ) == (self.state.saves@[fut2].stack_a@, self.state.saves@[fut2].stack_b@)
                            implies best_skip + comp.depth + e.len() >= fut2 - index + 1 by {
                        assert(s2 + comp.depth + e.len() >= fut2 - index + 1);
                    }
                }
            }
            ci += 1;
        }
        proof {
            // every chain's first operation was examined
            assert forall|e: Seq<Op>, fut: int|
                1 <= e.len() <= self.max_depth - comp.depth + 1
                    && index < fut < self.state.saves@.len() && fut <= index + self.max_len
                    && fut - index > comp.depth + e.len() - 1 && apply_ops(
                    comp.ops@ + e,
                    self.state.saves@[index as int].stack_a@,
                    self.state.saves@[index as int].stack_b@,
                ) == (self.state.saves@[fut].stack_a@, self.state.saves@[fut].stack_b@)
                    implies best_skip + comp.depth + e.len() >= fut - index + 1 by {
                let oi: int = match e[0] {
                    Op::Pa => 0,
                    Op::Pb => 1,
                    Op::Sa => 2,
                    Op::Sb => 3,
                    Op::Ss => 4,
                    Op::Ra => 5,
                    Op::Rb => 6,
                    Op::Rr => 7,
                    Op::Rra => 8,
                    Op::Rrb => 9,
                    Op::Rrr => 10,
                };
                assert(all@[oi] == e[0]);
            }
        }
        (best_skip, best_ops)
    }
}

} // verus!
