//! Minimization by partition refinement: states are split by acceptance, then blocks are
//! split by where their transitions lead until no block splits any more.
use vstd::prelude::*;

use crate::count::{all_below, lemma_distinct_ints_bounded};
use crate::dfa::TernaryDFA;
use crate::ternary::Ternary;
use crate::count::strictly_increasing;
use crate::vecs::{all_false, copy_states, insert_sorted};

verus! {

/// `p` splits the states `0..n` into nonempty blocks, and `sp[s]` is the block holding `s`.
pub open spec fn blocks_partition(p: Seq<Vec<usize>>, sp: Seq<usize>, n: int) -> bool {
    &&& sp.len() == n
    &&& forall|q: int| 0 <= q < p.len() ==> #[trigger] p[q]@.len() > 0
    &&& forall|q: int, j: int|
        0 <= q < p.len() && 0 <= j < p[q]@.len() ==> #[trigger] p[q]@[j] < n && sp[p[q]@[j] as int] == q
    &&& forall|s: int| 0 <= s < n ==> #[trigger] sp[s] < p.len() && p[sp[s] as int]@.contains(s as usize)
}

/// A partition into nonempty blocks has no more blocks than states.
proof fn lemma_blocks_bounded(p: Seq<Vec<usize>>, sp: Seq<usize>, n: int)
    requires
        n >= 0,
        blocks_partition(p, sp, n),
    ensures
        p.len() <= n,
{
    let firsts = Seq::new(p.len(), |q: int| p[q]@[0] as int);
    assert forall|i: int| 0 <= i < firsts.len() implies 0 <= #[trigger] firsts[i] < n by {
        assert(p[i]@.len() > 0);
        assert(p[i]@[0] < n);
    }
    assert forall|a: int, b: int| 0 <= a < firsts.len() && 0 <= b < firsts.len() && a != b implies firsts[a] != firsts[b] by {
        assert(p[a]@.len() > 0);
        assert(p[b]@.len() > 0);
        assert(sp[p[a]@[0] as int] == a);
        assert(sp[p[b]@[0] as int] == b);
    }
    lemma_distinct_ints_bounded(firsts, 0, n);
}

/// No state lies in two different blocks of `p`.
pub open spec fn blocks_disjoint(p: Seq<Vec<usize>>) -> bool {
    forall|q1: int, q2: int, j1: int, j2: int|
        0 <= q1 < p.len() && 0 <= q2 < p.len() && 0 <= j1 < p[q1]@.len() && 0 <= j2 < p[q2]@.len()
            && #[trigger] p[q1]@[j1] == #[trigger] p[q2]@[j2] ==> q1 == q2
}

/// The blocks of `p` are nonempty and hold only states below `n`.
pub open spec fn blocks_in_range(p: Seq<Vec<usize>>, n: int) -> bool {
    &&& forall|q: int| 0 <= q < p.len() ==> #[trigger] p[q]@.len() > 0
    &&& forall|q: int, j: int| 0 <= q < p.len() && 0 <= j < p[q]@.len() ==> #[trigger] p[q]@[j] < n
}

/// Some block of `p` holds `s`.
pub open spec fn in_some_block(p: Seq<Vec<usize>>, s: usize) -> bool {
    exists|q: int| 0 <= q < p.len() && (#[trigger] p[q])@.contains(s)
}

impl TernaryDFA {
    /// Where state `s` moves in column `k`: its table entry, or `usize::MAX` (no move)
    /// for a state without a row.
    pub open spec fn dest(self, s: int, k: int) -> usize {
        if s < self.transitions@.len() {
            self.entry(s, k)
        } else {
            usize::MAX
        }
    }

    /// What minimization reads is there: with two or more states, an accept flag for each,
    /// a start among them, and every move missing or to one of them.
    pub open spec fn minimizable(self) -> bool {
        let n = self.state_labels@.len();
        n <= 1 || {
            &&& self.accept@.len() >= n
            &&& self.start < n
            &&& forall|s: int, k: int|
                0 <= s < n && 0 <= k < 3 ==> #[trigger] self.dest(s, k) == usize::MAX || self.dest(s, k) < n
        }
    }

    /// The block that state `s` moves to in column `k`, or `usize::MAX` for no move.
    pub open spec fn sig_entry(self, s: int, k: int, sp: Seq<usize>) -> usize {
        if self.dest(s, k) == usize::MAX {
            usize::MAX
        } else {
            sp[self.dest(s, k) as int]
        }
    }

    /// The blocks that state `s` moves to on the three values.
    pub open spec fn signature_of(self, s: int, sp: Seq<usize>) -> Seq<usize> {
        seq![self.sig_entry(s, 0, sp), self.sig_entry(s, 1, sp), self.sig_entry(s, 2, sp)]
    }

    /// Every state has the signature of the first state of its block.
    pub open spec fn stable(self, p: Seq<Vec<usize>>, sp: Seq<usize>) -> bool {
        forall|s: int|
            0 <= s < self.state_labels@.len() ==> #[trigger] self.signature_of(s, sp) == self.signature_of(
                p[sp[s] as int]@[0] as int,
                sp,
            )
    }

    /// States in one block agree on acceptance.
    pub open spec fn blocks_agree_on_accept(self, sp: Seq<usize>) -> bool {
        forall|s: int, t: int|
            0 <= s < self.state_labels@.len() && 0 <= t < self.state_labels@.len() && sp[s] == sp[t]
                ==> #[trigger] self.accept@[s] == #[trigger] self.accept@[t]
    }

    /// Some state of `base` lies in block `q` of the block map `sp`.
    pub open spec fn block_used(sp: Seq<usize>, q: int) -> bool {
        exists|s: int| 0 <= s < sp.len() && #[trigger] sp[s] == q
    }

    /// Some state of `base` in block `q` of `sp` has NFA state `x` in its label.
    pub open spec fn block_label_has(base: TernaryDFA, sp: Seq<usize>, q: int, x: usize) -> bool {
        exists|s: int| 0 <= s < sp.len() && sp[s] == q && #[trigger] base.state_labels@[s]@.contains(x)
    }

    /// `res` is the quotient of `base` by the block map `sp` (state `s` of `base` lies in
    /// block `sp[s]`): every block is used, each block accepts and moves as every one of its
    /// states does, the start is the start's block, and a block is labelled with the union
    /// of its states' labels, in increasing order.
    pub open spec fn quotient_by(res: TernaryDFA, base: TernaryDFA, sp: Seq<usize>) -> bool {
        let n = base.state_labels@.len();
        let m = res.state_labels@.len();
        &&& 1 <= m <= n
        &&& res.transitions@.len() == m
        &&& res.accept@.len() == m
        &&& sp.len() == n
        &&& forall|s: int| 0 <= s < n ==> #[trigger] sp[s] < m
        &&& forall|q: int| 0 <= q < m ==> #[trigger] TernaryDFA::block_used(sp, q)
        &&& forall|s: int| 0 <= s < n ==> res.accept@[#[trigger] sp[s] as int] == base.accept@[s]
        &&& forall|s: int, k: int| 0 <= s < n && 0 <= k < 3 ==> #[trigger] res.entry(sp[s] as int, k) == base.sig_entry(s, k, sp)
        &&& res.start == sp[base.start as int]
        &&& forall|q: int| 0 <= q < m ==> strictly_increasing(#[trigger] res.state_labels@[q]@)
        &&& forall|q: int, x: usize| 0 <= q < m ==> (#[trigger] res.state_labels@[q]@.contains(x)
            <==> TernaryDFA::block_label_has(base, sp, q, x))
    }

    /// Two states share a block of `sp` exactly when no input tells them apart.
    pub open spec fn blocks_are_agreement_classes(self, sp: Seq<usize>) -> bool {
        forall|s: int, t: int|
            #![trigger sp[s], sp[t]]
            0 <= s < self.state_labels@.len() && 0 <= t < self.state_labels@.len() ==> ((sp[s] == sp[t])
                <==> forall|k: nat| #[trigger] self.agree_within(s, t, k))
    }

    /// States `s` and `t` cannot be told apart by up to `k` values: they agree on
    /// acceptance, and on each value either both have no move or both move to states that
    /// cannot be told apart by one value fewer.
    pub open spec fn agree_within(self, s: int, t: int, k: nat) -> bool
        decreases k, 0int,
    {
        if k == 0 {
            self.accept@[s] == self.accept@[t]
        } else {
            &&& self.agree_within(s, t, (k - 1) as nat)
            &&& self.column_agrees(s, t, 0, (k - 1) as nat)
            &&& self.column_agrees(s, t, 1, (k - 1) as nat)
            &&& self.column_agrees(s, t, 2, (k - 1) as nat)
        }
    }

    /// On column `c`, both `s` and `t` have no move, or both move to states that cannot be
    /// told apart by up to `k` values.
    pub open spec fn column_agrees(self, s: int, t: int, c: int, k: nat) -> bool
        decreases k, 1int,
    {
        &&& (self.dest(s, c) == usize::MAX) == (self.dest(t, c) == usize::MAX)
        &&& self.dest(s, c) != usize::MAX ==> self.agree_within(self.dest(s, c) as int, self.dest(t, c) as int, k)
    }

    /// Some input of bounded length tells states `s` and `t` apart.
    pub open spec fn distinguishable(self, s: int, t: int) -> bool {
        exists|k: nat| !#[trigger] self.agree_within(s, t, k)
    }

    /// Agreement does not depend on the order of the two states.
    pub(crate) proof fn lemma_agree_symmetric(self, s: int, t: int, k: nat)
        ensures
            self.agree_within(s, t, k) == self.agree_within(t, s, k),
        decreases k,
    {
        if k > 0 {
            let k1 = (k - 1) as nat;
            self.lemma_agree_symmetric(s, t, k1);
            if self.dest(s, 0) != usize::MAX && self.dest(t, 0) != usize::MAX {
                self.lemma_agree_symmetric(self.dest(s, 0) as int, self.dest(t, 0) as int, k1);
            }
            assert(self.column_agrees(s, t, 0, k1) == self.column_agrees(t, s, 0, k1));
            if self.dest(s, 1) != usize::MAX && self.dest(t, 1) != usize::MAX {
                self.lemma_agree_symmetric(self.dest(s, 1) as int, self.dest(t, 1) as int, k1);
            }
            assert(self.column_agrees(s, t, 1, k1) == self.column_agrees(t, s, 1, k1));
            if self.dest(s, 2) != usize::MAX && self.dest(t, 2) != usize::MAX {
                self.lemma_agree_symmetric(self.dest(s, 2) as int, self.dest(t, 2) as int, k1);
            }
            assert(self.column_agrees(s, t, 2, k1) == self.column_agrees(t, s, 2, k1));
        }
    }

    /// In a well-formed DFA whose every state can still accept, two states that disagree
    /// over `k` values are told apart by some input: read from one it is accepted and from
    /// the other it is not.
    pub(crate) proof fn lemma_disagree_word(self, q: int, r: int, k: nat)
        requires
            self.wf(),
            0 <= q < self.state_labels@.len(),
            0 <= r < self.state_labels@.len(),
            forall|c: int| 0 <= c < self.state_labels@.len() ==> #[trigger] self.can_accept(c),
            !self.agree_within(q, r, k),
        ensures
            exists|u: Seq<Ternary>| #[trigger] self.accepts_from(q as usize, u) != self.accepts_from(r as usize, u),
        decreases k,
    {
        assert(self.state_labels.len() == self.state_labels@.len());
        if k == 0 {
            let u = Seq::<Ternary>::empty();
            assert(self.accepts_from(q as usize, u) != self.accepts_from(r as usize, u));
        } else if !self.agree_within(q, r, (k - 1) as nat) {
            self.lemma_disagree_word(q, r, (k - 1) as nat);
        } else {
            let k1 = (k - 1) as nat;
            let c: int = if !self.column_agrees(q, r, 0, k1) {
                0
            } else if !self.column_agrees(q, r, 1, k1) {
                1
            } else {
                2
            };
            assert(!self.column_agrees(q, r, c, k1));
            let v = if c == 0 {
                Ternary::Neg
            } else if c == 1 {
                Ternary::Zero
            } else {
                Ternary::Pos
            };
            assert(crate::dfa::tindex(v) == c);
            let dq = self.dest(q, c);
            let dr = self.dest(r, c);
            assert(dq == usize::MAX || dq < self.state_labels@.len());
            assert(dr == usize::MAX || dr < self.state_labels@.len());
            let one = seq![v];
            assert(one.drop_last() =~= Seq::<Ternary>::empty());
            assert(one.last() == v);
            assert(self.run_from(q as usize, Seq::<Ternary>::empty()) == Some(q as usize));
            assert(self.run_from(r as usize, Seq::<Ternary>::empty()) == Some(r as usize));
            assert(self.run_from(q as usize, one) == self.next_state(q as usize, v));
            assert(self.run_from(r as usize, one) == self.next_state(r as usize, v));
            assert(self.run_from(q as usize, one) == if dq == usize::MAX { None } else { Some(dq) });
            assert(self.run_from(r as usize, one) == if dr == usize::MAX { None } else { Some(dr) });
            if dq != usize::MAX && dr != usize::MAX {
                assert(!self.agree_within(dq as int, dr as int, k1));
                self.lemma_disagree_word(dq as int, dr as int, k1);
                let u1 = choose|u: Seq<Ternary>| #[trigger] self.accepts_from(dq, u) != self.accepts_from(dr, u);
                self.lemma_run_concat(q as usize, one, u1);
                self.lemma_run_concat(r as usize, one, u1);
                assert(self.accepts_from(q as usize, one + u1) != self.accepts_from(r as usize, one + u1));
            } else if dq != usize::MAX {
                assert(self.can_accept(dq as int));
                let u1 = choose|u: Seq<Ternary>| #[trigger] self.accepts_from(dq, u);
                self.lemma_run_concat(q as usize, one, u1);
                self.lemma_run_concat(r as usize, one, u1);
                assert(self.accepts_from(q as usize, one + u1) != self.accepts_from(r as usize, one + u1));
            } else {
                assert(dr != usize::MAX);
                assert(self.can_accept(dr as int));
                let u1 = choose|u: Seq<Ternary>| #[trigger] self.accepts_from(dr, u);
                self.lemma_run_concat(q as usize, one, u1);
                self.lemma_run_concat(r as usize, one, u1);
                assert(self.accepts_from(q as usize, one + u1) != self.accepts_from(r as usize, one + u1));
            }
        }
    }

    /// Agreement over more values implies agreement over fewer.
    proof fn lemma_agree_fewer(self, s: int, t: int, k: nat, j: nat)
        requires
            j <= k,
            self.agree_within(s, t, k),
        ensures
            self.agree_within(s, t, j),
        decreases k - j,
    {
        if j < k {
            self.lemma_agree_fewer(s, t, (k - 1) as nat, j);
        }
    }

    /// Once agreement over `r + 1` values is agreement over `r`, it stays so for every longer
    /// bound.
    proof fn lemma_agree_settles(self, r: nat, j: nat)
        requires
            self.minimizable(),
            self.state_labels@.len() >= 2,
            forall|s: int, t: int|
                0 <= s < self.state_labels@.len() && 0 <= t < self.state_labels@.len() ==> #[trigger] self.agree_within(s, t, r + 1)
                    == self.agree_within(s, t, r),
        ensures
            forall|s: int, t: int|
                0 <= s < self.state_labels@.len() && 0 <= t < self.state_labels@.len() ==> #[trigger] self.agree_within(s, t, r + j)
                    == self.agree_within(s, t, r),
        decreases j,
    {
        if j > 0 {
            self.lemma_agree_settles(r, (j - 1) as nat);
            let jm = (j - 1) as nat;
            assert forall|s: int, t: int|
                0 <= s < self.state_labels@.len() && 0 <= t < self.state_labels@.len() implies #[trigger] self.agree_within(s, t, r + j)
                    == self.agree_within(s, t, r) by {
                assert(self.agree_within(s, t, r + jm) == self.agree_within(s, t, r));
                assert forall|c: int| 0 <= c < 3 implies #[trigger] self.column_agrees(s, t, c, r + jm) == self.column_agrees(s, t, c, r) by {
                    assert(self.dest(s, c) == usize::MAX || self.dest(s, c) < self.state_labels@.len());
                    assert(self.dest(t, c) == usize::MAX || self.dest(t, c) < self.state_labels@.len());
                    if self.dest(s, c) != usize::MAX && self.dest(t, c) != usize::MAX {
                        assert(self.agree_within(self.dest(s, c) as int, self.dest(t, c) as int, r + jm)
                            == self.agree_within(self.dest(s, c) as int, self.dest(t, c) as int, r));
                    }
                }
                assert(r + j == (r + jm) + 1);
                assert(self.agree_within(s, t, r + j) == (self.agree_within(s, t, r + jm) && self.column_agrees(s, t, 0, r + jm)
                    && self.column_agrees(s, t, 1, r + jm) && self.column_agrees(s, t, 2, r + jm)));
                assert(self.agree_within(s, t, r + 1) == (self.agree_within(s, t, r) && self.column_agrees(s, t, 0, r)
                    && self.column_agrees(s, t, 1, r) && self.column_agrees(s, t, 2, r)));
            }
        }
    }

    /// With blocks that group exactly the states agreeing over `r` values, two states have
    /// equal signatures exactly when every column agrees over `r` values.
    proof fn lemma_signature_columns(self, sp: Seq<usize>, s: int, t: int, r: nat)
        requires
            self.minimizable(),
            self.state_labels@.len() >= 2,
            sp.len() == self.state_labels@.len(),
            self.state_labels@.len() <= usize::MAX,
            forall|x: int| 0 <= x < sp.len() ==> #[trigger] sp[x] < self.state_labels@.len(),
            forall|x: int, y: int| 0 <= x < sp.len() && 0 <= y < sp.len() ==> (sp[x] == sp[y]) == #[trigger] self.agree_within(x, y, r),
            0 <= s < self.state_labels@.len(),
            0 <= t < self.state_labels@.len(),
        ensures
            (self.signature_of(s, sp) == self.signature_of(t, sp)) == (self.column_agrees(s, t, 0, r) && self.column_agrees(s, t, 1, r)
                && self.column_agrees(s, t, 2, r)),
    {
        assert forall|c: int| 0 <= c < 3 implies (#[trigger] self.sig_entry(s, c, sp) == self.sig_entry(t, c, sp)) == self.column_agrees(s, t, c, r) by {
            assert(self.dest(s, c) == usize::MAX || self.dest(s, c) < self.state_labels@.len());
            assert(self.dest(t, c) == usize::MAX || self.dest(t, c) < self.state_labels@.len());
            if self.dest(s, c) != usize::MAX && self.dest(t, c) != usize::MAX {
                assert((sp[self.dest(s, c) as int] == sp[self.dest(t, c) as int]) == self.agree_within(self.dest(s, c) as int, self.dest(t, c) as int, r));
            } else if self.dest(s, c) != usize::MAX {
                assert(sp[self.dest(s, c) as int] < self.state_labels@.len());
            } else if self.dest(t, c) != usize::MAX {
                assert(sp[self.dest(t, c) as int] < self.state_labels@.len());
            }
        }
        let a = self.signature_of(s, sp);
        let b = self.signature_of(t, sp);
        if a == b {
            assert(a[0] == b[0] && a[1] == b[1] && a[2] == b[2]);
            assert(self.sig_entry(s, 0, sp) == self.sig_entry(t, 0, sp));
            assert(self.sig_entry(s, 1, sp) == self.sig_entry(t, 1, sp));
            assert(self.sig_entry(s, 2, sp) == self.sig_entry(t, 2, sp));
        }
        if self.column_agrees(s, t, 0, r) && self.column_agrees(s, t, 1, r) && self.column_agrees(s, t, 2, r) {
            assert(self.sig_entry(s, 0, sp) == self.sig_entry(t, 0, sp));
            assert(self.sig_entry(s, 1, sp) == self.sig_entry(t, 1, sp));
            assert(self.sig_entry(s, 2, sp) == self.sig_entry(t, 2, sp));
            assert(a =~= b);
        }
    }

    /// After one refinement round, two states share a block exactly when they agree over
    /// one more value than before.
    proof fn lemma_round(self, p: Seq<Vec<usize>>, sp: Seq<usize>, np: Seq<Vec<usize>>, nsp: Seq<usize>, r: nat)
        requires
            self.minimizable(),
            self.state_labels@.len() >= 2,
            blocks_partition(p, sp, self.state_labels@.len() as int),
            p.len() <= self.state_labels@.len(),
            blocks_partition(np, nsp, self.state_labels@.len() as int),
            forall|x: int, y: int| 0 <= x < self.state_labels@.len() && 0 <= y < self.state_labels@.len() ==> (sp[x] == sp[y])
                == #[trigger] self.agree_within(x, y, r),
            forall|q: int, j: int| 0 <= q < np.len() && 0 <= j < np[q]@.len()
                ==> sp[#[trigger] np[q]@[j] as int] == sp[np[q]@[0] as int],
            forall|q: int, j: int| 0 <= q < np.len() && 0 <= j < np[q]@.len()
                ==> self.signature_of(#[trigger] np[q]@[j] as int, sp) == self.signature_of(np[q]@[0] as int, sp),
            forall|q: int, j: int, t: usize|
                #![trigger np[q]@[j], self.signature_of(t as int, sp)]
                0 <= q < np.len() && 0 <= j < np[q]@.len() && t < self.state_labels@.len() && sp[t as int]
                    == sp[np[q]@[j] as int] && self.signature_of(t as int, sp) == self.signature_of(np[q]@[j] as int, sp)
                    ==> np[q]@.contains(t),
        ensures
            forall|x: int, y: int| 0 <= x < self.state_labels@.len() && 0 <= y < self.state_labels@.len() ==> (nsp[x] == nsp[y])
                == #[trigger] self.agree_within(x, y, r + 1),
    {
        let n = self.state_labels@.len();
        assert forall|x: int| 0 <= x < sp.len() implies #[trigger] sp[x] < self.state_labels@.len() by {}
        assert(self.state_labels.len() == self.state_labels@.len());
        assert forall|x: int, y: int| 0 <= x < n && 0 <= y < n implies (nsp[x] == nsp[y])
            == #[trigger] self.agree_within(x, y, r + 1) by {
            self.lemma_signature_columns(sp, x, y, r);
            assert(self.agree_within(x, y, r + 1) == (self.agree_within(x, y, r) && self.column_agrees(x, y, 0, r)
                && self.column_agrees(x, y, 1, r) && self.column_agrees(x, y, 2, r)));
            let qx = nsp[x] as int;
            assert(np[qx]@.contains(x as usize));
            let jx = choose|j: int| 0 <= j < np[qx]@.len() && np[qx]@[j] == x as usize;
            if nsp[x] == nsp[y] {
                assert(np[qx]@.contains(y as usize));
                let jy = choose|j: int| 0 <= j < np[qx]@.len() && np[qx]@[j] == y as usize;
                assert(sp[np[qx]@[jx] as int] == sp[np[qx]@[0] as int]);
                assert(sp[np[qx]@[jy] as int] == sp[np[qx]@[0] as int]);
                assert(self.signature_of(np[qx]@[jx] as int, sp) == self.signature_of(np[qx]@[0] as int, sp));
                assert(self.signature_of(np[qx]@[jy] as int, sp) == self.signature_of(np[qx]@[0] as int, sp));
            }
            if self.agree_within(x, y, r + 1) {
                assert(sp[x] == sp[y]);
                assert(self.signature_of(x, sp) == self.signature_of(y, sp));
                assert(self.signature_of(y as usize as int, sp) == self.signature_of(np[qx]@[jx] as int, sp));
                assert(np[qx]@.contains(y as usize));
                let jy = choose|j: int| 0 <= j < np[qx]@.len() && np[qx]@[j] == y as usize;
                assert(nsp[np[qx]@[jy] as int] == qx);
            }
        }
    }

    /// A quotient follows the DFA it is taken from: it is stuck exactly when that DFA is, and
    /// otherwise in the block of that DFA's state.
    pub(crate) proof fn lemma_quotient_run(self, res: TernaryDFA, sp: Seq<usize>, w: Seq<Ternary>)
        requires
            self.minimizable(),
            self.state_labels@.len() >= 2,
            TernaryDFA::quotient_by(res, self, sp),
        ensures
            (self.run_from(self.start, w) is None) == (res.run_from(res.start, w) is None),
            self.run_from(self.start, w) is Some ==> {
                &&& self.run_from(self.start, w).unwrap() < self.state_labels@.len()
                &&& res.run_from(res.start, w).unwrap() == sp[self.run_from(self.start, w).unwrap() as int]
            },
        decreases w.len(),
    {
        assert(self.state_labels.len() == self.state_labels@.len());
        if w.len() > 0 {
            let d = w.drop_last();
            let v = w.last();
            self.lemma_quotient_run(res, sp, d);
            if self.run_from(self.start, d) is Some {
                let c = self.run_from(self.start, d).unwrap();
                let k = crate::dfa::tindex(v);
                assert(0 <= k < 3);
                assert(res.entry(sp[c as int] as int, k) == self.sig_entry(c as int, k, sp));
                assert(self.dest(c as int, k) == usize::MAX || self.dest(c as int, k) < self.state_labels@.len());
                if self.dest(c as int, k) != usize::MAX {
                    assert(sp[self.dest(c as int, k) as int] < res.state_labels@.len());
                }
            }
        }
    }

    /// A quotient follows the DFA it is taken from from any state: it is stuck exactly when
    /// that DFA is, and otherwise in the block of that DFA's state.
    proof fn lemma_quotient_run_from(self, res: TernaryDFA, sp: Seq<usize>, c: usize, w: Seq<Ternary>)
        requires
            self.minimizable(),
            self.state_labels@.len() >= 2,
            TernaryDFA::quotient_by(res, self, sp),
            c < self.state_labels@.len(),
        ensures
            (self.run_from(c, w) is None) == (res.run_from(sp[c as int], w) is None),
            self.run_from(c, w) is Some ==> {
                &&& self.run_from(c, w).unwrap() < self.state_labels@.len()
                &&& res.run_from(sp[c as int], w).unwrap() == sp[self.run_from(c, w).unwrap() as int]
            },
        decreases w.len(),
    {
        assert(self.state_labels.len() == self.state_labels@.len());
        if w.len() > 0 {
            let d = w.drop_last();
            let v = w.last();
            self.lemma_quotient_run_from(res, sp, c, d);
            if self.run_from(c, d) is Some {
                let e = self.run_from(c, d).unwrap();
                let k = crate::dfa::tindex(v);
                assert(0 <= k < 3);
                assert(res.entry(sp[e as int] as int, k) == self.sig_entry(e as int, k, sp));
                assert(self.dest(e as int, k) == usize::MAX || self.dest(e as int, k) < self.state_labels@.len());
                if self.dest(e as int, k) != usize::MAX {
                    assert(sp[self.dest(e as int, k) as int] < res.state_labels@.len());
                }
            }
        }
    }

    /// A quotient keeps reachability from the start and the possibility of acceptance.
    proof fn lemma_quotient_keeps_reach(self, res: TernaryDFA, sp: Seq<usize>)
        requires
            self.minimizable(),
            self.state_labels@.len() >= 2,
            TernaryDFA::quotient_by(res, self, sp),
        ensures
            (forall|s: int| 0 <= s < self.state_labels@.len() ==> #[trigger] self.state_reachable(s)) ==> forall|q: int|
                0 <= q < res.state_labels@.len() ==> #[trigger] res.state_reachable(q),
            (forall|s: int| 0 <= s < self.state_labels@.len() ==> #[trigger] self.can_accept(s)) ==> forall|q: int|
                0 <= q < res.state_labels@.len() ==> #[trigger] res.can_accept(q),
    {
        let n = self.state_labels@.len();
        let m = res.state_labels@.len();
        assert(self.state_labels.len() == n);
        if forall|s: int| 0 <= s < n ==> #[trigger] self.state_reachable(s) {
            assert forall|q: int| 0 <= q < m implies #[trigger] res.state_reachable(q) by {
                assert(TernaryDFA::block_used(sp, q));
                let s = choose|s: int| 0 <= s < sp.len() && #[trigger] sp[s] == q;
                assert(self.state_reachable(s));
                let w = choose|w: Seq<Ternary>| #[trigger] self.run_from(self.start, w) == Some(s as usize);
                self.lemma_quotient_run(res, sp, w);
                assert(res.run_from(res.start, w) == Some(q as usize));
            }
        }
        if forall|s: int| 0 <= s < n ==> #[trigger] self.can_accept(s) {
            assert forall|q: int| 0 <= q < m implies #[trigger] res.can_accept(q) by {
                assert(TernaryDFA::block_used(sp, q));
                let s = choose|s: int| 0 <= s < sp.len() && #[trigger] sp[s] == q;
                assert(self.can_accept(s));
                let u = choose|u: Seq<Ternary>| #[trigger] self.accepts_from(s as usize, u);
                self.lemma_quotient_run_from(res, sp, s as usize, u);
                let e = self.run_from(s as usize, u).unwrap();
                assert(res.accept@[sp[e as int] as int] == self.accept@[e as int]);
                assert(res.accepts_from(q as usize, u));
            }
        }
    }

    /// Two blocks of a quotient agree over `k` values exactly when any two states they
    /// stand for do.
    proof fn lemma_quotient_agree(self, res: TernaryDFA, sp: Seq<usize>, s: int, t: int, k: nat)
        requires
            self.minimizable(),
            self.state_labels@.len() >= 2,
            TernaryDFA::quotient_by(res, self, sp),
            0 <= s < self.state_labels@.len(),
            0 <= t < self.state_labels@.len(),
        ensures
            res.agree_within(sp[s] as int, sp[t] as int, k) == self.agree_within(s, t, k),
        decreases k,
    {
        let n = self.state_labels@.len();
        assert(self.state_labels.len() == n);
        if k > 0 {
            let k1 = (k - 1) as nat;
            self.lemma_quotient_agree(res, sp, s, t, k1);
            assert forall|c: int| 0 <= c < 3 implies res.column_agrees(sp[s] as int, sp[t] as int, c, k1)
                == self.column_agrees(s, t, c, k1) by {
                assert(res.dest(sp[s] as int, c) == self.sig_entry(s, c, sp));
                assert(res.dest(sp[t] as int, c) == self.sig_entry(t, c, sp));
                assert(self.dest(s, c) == usize::MAX || self.dest(s, c) < n);
                assert(self.dest(t, c) == usize::MAX || self.dest(t, c) < n);
                if self.dest(s, c) != usize::MAX {
                    assert(sp[self.dest(s, c) as int] < res.state_labels@.len());
                }
                if self.dest(t, c) != usize::MAX {
                    assert(sp[self.dest(t, c) as int] < res.state_labels@.len());
                }
                if self.dest(s, c) != usize::MAX && self.dest(t, c) != usize::MAX {
                    self.lemma_quotient_agree(res, sp, self.dest(s, c) as int, self.dest(t, c) as int, k1);
                    assert(res.dest(sp[s] as int, c) == sp[self.dest(s, c) as int]);
                    assert(res.dest(sp[t] as int, c) == sp[self.dest(t, c) as int]);
                }
                assert((res.dest(sp[s] as int, c) == usize::MAX) == (self.dest(s, c) == usize::MAX));
                assert((res.dest(sp[t] as int, c) == usize::MAX) == (self.dest(t, c) == usize::MAX));
            }
            assert(res.column_agrees(sp[s] as int, sp[t] as int, 0, k1) == self.column_agrees(s, t, 0, k1));
            assert(res.column_agrees(sp[s] as int, sp[t] as int, 1, k1) == self.column_agrees(s, t, 1, k1));
            assert(res.column_agrees(sp[s] as int, sp[t] as int, 2, k1) == self.column_agrees(s, t, 2, k1));
        }
    }

    /// The quotient by agreement classes has no two blocks that agree, and keeps every
    /// state of a DFA none of whose states agree.
    proof fn lemma_quotient_minimal(self, res: TernaryDFA, sp: Seq<usize>)
        requires
            self.minimizable(),
            self.state_labels@.len() >= 2,
            TernaryDFA::quotient_by(res, self, sp),
            self.blocks_are_agreement_classes(sp),
        ensures
            forall|q: int, r: int|
                0 <= q < res.state_labels@.len() && 0 <= r < res.state_labels@.len() && q != r
                    ==> #[trigger] res.distinguishable(q, r),
            (forall|s: int, t: int|
                0 <= s < self.state_labels@.len() && 0 <= t < self.state_labels@.len() && s != t
                    ==> #[trigger] self.distinguishable(s, t)) ==> res.state_labels@.len() == self.state_labels@.len(),
    {
        let n = self.state_labels@.len();
        let m = res.state_labels@.len();
        assert forall|q: int, r: int| 0 <= q < m && 0 <= r < m && q != r implies #[trigger] res.distinguishable(q, r) by {
            assert(TernaryDFA::block_used(sp, q));
            assert(TernaryDFA::block_used(sp, r));
            let s = choose|s: int| 0 <= s < sp.len() && #[trigger] sp[s] == q;
            let t = choose|t: int| 0 <= t < sp.len() && #[trigger] sp[t] == r;
            assert((sp[s] == sp[t]) <==> forall|k: nat| #[trigger] self.agree_within(s, t, k));
            let k = choose|k: nat| !#[trigger] self.agree_within(s, t, k);
            self.lemma_quotient_agree(res, sp, s, t, k);
            assert(!res.agree_within(q, r, k));
        }
        if forall|s: int, t: int| 0 <= s < n && 0 <= t < n && s != t ==> #[trigger] self.distinguishable(s, t) {
            assert forall|s: int, t: int| 0 <= s < n && 0 <= t < n && s != t implies sp[s] != sp[t] by {
                assert(self.distinguishable(s, t));
                let k = choose|k: nat| !#[trigger] self.agree_within(s, t, k);
                assert((sp[s] == sp[t]) <==> forall|k: nat| #[trigger] self.agree_within(s, t, k));
            }
            let img = Seq::new(n, |s: int| sp[s] as int);
            assert forall|i: int, j: int| 0 <= i < j < img.len() implies img[i] != img[j] by {
                assert(sp[i] != sp[j]);
            }
            lemma_distinct_ints_bounded(img, 0, m as int);
        }
    }

    /// A quotient accepts exactly the words the DFA it is taken from accepts.
    proof fn lemma_quotient_language(self, res: TernaryDFA, sp: Seq<usize>, w: Seq<Ternary>)
        requires
            self.minimizable(),
            self.state_labels@.len() >= 2,
            TernaryDFA::quotient_by(res, self, sp),
        ensures
            res.accepts_word(w) == self.accepts_word(w),
    {
        self.lemma_quotient_run(res, sp, w);
        if self.run_from(self.start, w) is Some {
            let c = self.run_from(self.start, w).unwrap();
            assert(res.accept@[sp[c as int] as int] == self.accept@[c as int]);
        }
    }
}

/// A vector of `n` zeros.
fn zeros(n: usize) -> (v: Vec<usize>)
    ensures
        v@.len() == n,
{
    let mut v: Vec<usize> = Vec::new();
    let mut i: usize = 0;
    while i < n
        invariant
            i <= n,
            v@.len() == i,
        decreases n - i,
    {
        v.push(0);
        i = i + 1;
    }
    v
}

/// For each state, the index of the block that holds it.
fn assign_blocks(partition: &Vec<Vec<usize>>, n: usize) -> (sp: Vec<usize>)
    requires
        blocks_in_range(partition@, n as int),
        blocks_disjoint(partition@),
        forall|s: usize| s < n ==> #[trigger] in_some_block(partition@, s),
    ensures
        blocks_partition(partition@, sp@, n as int),
{
    let mut sp = zeros(n);
    let mut p_idx: usize = 0;
    while p_idx < partition.len()
        invariant
            blocks_in_range(partition@, n as int),
            blocks_disjoint(partition@),
            sp@.len() == n,
            p_idx <= partition@.len(),
            forall|q: int, j: int| 0 <= q < p_idx && 0 <= j < partition@[q]@.len() ==> sp@[#[trigger] partition@[q]@[j] as int] == q,
        decreases partition@.len() - p_idx,
    {
        let part = &partition[p_idx];
        let mut j: usize = 0;
        while j < part.len()
            invariant
                blocks_in_range(partition@, n as int),
                blocks_disjoint(partition@),
                sp@.len() == n,
                p_idx < partition@.len(),
                part@ == partition@[p_idx as int]@,
                j <= part@.len(),
                forall|q: int, jj: int| 0 <= q < p_idx && 0 <= jj < partition@[q]@.len() ==> sp@[#[trigger] partition@[q]@[jj] as int] == q,
                forall|jj: int| 0 <= jj < j ==> sp@[#[trigger] part@[jj] as int] == p_idx,
            decreases part@.len() - j,
        {
            let s = part[j];
            assert(partition@[p_idx as int]@[j as int] == s);
            sp.set(s, p_idx);
            assert forall|q: int, jj: int| 0 <= q < p_idx && 0 <= jj < partition@[q]@.len() implies sp@[#[trigger] partition@[q]@[jj] as int] == q by {
                if partition@[q]@[jj] == s {
                    assert(q == p_idx);
                }
            }
            assert forall|jj: int| 0 <= jj < j + 1 implies sp@[#[trigger] part@[jj] as int] == p_idx by {
                if jj < j && part@[jj] != s {
                }
            }
            j = j + 1;
        }
        p_idx = p_idx + 1;
    }
    assert forall|s: int| 0 <= s < n implies #[trigger] sp@[s] < partition@.len() && partition@[sp@[s] as int]@.contains(s as usize) by {
        assert(in_some_block(partition@, s as usize));
        let q = choose|q: int| 0 <= q < partition@.len() && (#[trigger] partition@[q])@.contains(s as usize);
        let j = choose|j: int| 0 <= j < partition@[q]@.len() && partition@[q]@[j] == s as usize;
        assert(sp@[partition@[q]@[j] as int] == q);
    }
    sp
}

impl TernaryDFA {
    /// Split the first `n` states into the accepting and the rejecting ones (each block
    /// only when nonempty, accepting first).
    fn split_by_accept(&self, n: usize) -> (partition: Vec<Vec<usize>>)
        requires
            n <= self.accept@.len(),
        ensures
            blocks_in_range(partition@, n as int),
            blocks_disjoint(partition@),
            forall|s: usize| s < n ==> #[trigger] in_some_block(partition@, s),
            forall|q: int, j: int| 0 <= q < partition@.len() && 0 <= j < partition@[q]@.len()
                ==> self.accept@[#[trigger] partition@[q]@[j] as int] == self.accept@[partition@[q]@[0] as int],
            forall|q1: int, q2: int| 0 <= q1 < partition@.len() && 0 <= q2 < partition@.len()
                && self.accept@[#[trigger] partition@[q1]@[0] as int] == self.accept@[#[trigger] partition@[q2]@[0] as int] ==> q1 == q2,
    {
        let mut partition: Vec<Vec<usize>> = Vec::new();
        let mut accept_set: Vec<usize> = Vec::new();
        let mut reject_set: Vec<usize> = Vec::new();
        let mut i: usize = 0;
        while i < n
            invariant
                i <= n,
                n <= self.accept@.len(),
                all_below(accept_set@, i as int),
                all_below(reject_set@, i as int),
                forall|j: int| 0 <= j < accept_set@.len() ==> self.accept@[#[trigger] accept_set@[j] as int],
                forall|j: int| 0 <= j < reject_set@.len() ==> !self.accept@[#[trigger] reject_set@[j] as int],
                forall|t: usize| t < i ==> (if self.accept@[t as int] { accept_set@.contains(t) } else { reject_set@.contains(t) }),
            decreases n - i,
        {
            let ghost a0 = accept_set@;
            let ghost r0 = reject_set@;
            assert(forall|t: usize| t < i ==> (if self.accept@[t as int] { a0.contains(t) } else { r0.contains(t) }));
            if self.accept[i] {
                accept_set.push(i);
            } else {
                reject_set.push(i);
            }
            assert forall|t: usize| t < i + 1 implies (if self.accept@[t as int] { accept_set@.contains(t) } else { reject_set@.contains(t) }) by {
                if t == i {
                    if self.accept@[t as int] {
                        assert(accept_set@[accept_set@.len() - 1] == t);
                    } else {
                        assert(reject_set@[reject_set@.len() - 1] == t);
                    }
                } else if self.accept@[t as int] {
                    assert(a0.contains(t));
                    let j = choose|j: int| 0 <= j < a0.len() && a0[j] == t;
                    assert(accept_set@[j] == t);
                } else {
                    assert(r0.contains(t));
                    let j = choose|j: int| 0 <= j < r0.len() && r0[j] == t;
                    assert(reject_set@[j] == t);
                }
            }
            i = i + 1;
        }
        let ghost a = accept_set@;
        let ghost r = reject_set@;
        let has_accepting = accept_set.len() > 0;
        let has_rejecting = reject_set.len() > 0;
        if has_accepting {
            partition.push(accept_set);
        }
        if has_rejecting {
            partition.push(reject_set);
        }
        proof {
            let p = partition@;
            // every block holds states of one acceptance, and different blocks different ones
            assert forall|q: int| 0 <= q < p.len() implies (#[trigger] p[q]@ == a && has_accepting && q == 0) || (p[q]@ == r
                && has_rejecting && q == p.len() - 1) by {
            }
            assert forall|q: int, j: int| 0 <= q < p.len() && 0 <= j < p[q]@.len() implies self.accept@[#[trigger] p[q]@[j] as int]
                == (p[q]@ == a && has_accepting && q == 0) by {
                if p[q]@ == a && has_accepting && q == 0 {
                    assert(self.accept@[a[j] as int]);
                } else {
                    assert(!self.accept@[r[j] as int]);
                }
            }
            assert forall|q1: int, q2: int, j1: int, j2: int|
                0 <= q1 < p.len() && 0 <= q2 < p.len() && 0 <= j1 < p[q1]@.len() && 0 <= j2 < p[q2]@.len()
                    && #[trigger] p[q1]@[j1] == #[trigger] p[q2]@[j2] implies q1 == q2 by {
                assert(self.accept@[p[q1]@[j1] as int] == (p[q1]@ == a && has_accepting && q1 == 0));
                assert(self.accept@[p[q2]@[j2] as int] == (p[q2]@ == a && has_accepting && q2 == 0));
            }
            assert forall|q: int, j: int| 0 <= q < p.len() && 0 <= j < p[q]@.len() implies #[trigger] p[q]@[j] < n by {
                if p[q]@ == a && has_accepting && q == 0 {
                    assert(a[j] < n);
                } else {
                    assert(r[j] < n);
                }
            }
            assert forall|s: usize| s < n implies #[trigger] in_some_block(p, s) by {
                if self.accept@[s as int] {
                    assert(a.contains(s));
                    assert(p[0]@ == a);
                } else {
                    assert(r.contains(s));
                    assert(p[p.len() - 1]@ == r);
                }
            }
            assert forall|q: int, j: int| 0 <= q < p.len() && 0 <= j < p[q]@.len()
                implies self.accept@[#[trigger] p[q]@[j] as int] == self.accept@[p[q]@[0] as int] by {
                assert(self.accept@[p[q]@[0] as int] == (p[q]@ == a && has_accepting && q == 0));
            }
            assert forall|q1: int, q2: int| 0 <= q1 < p.len() && 0 <= q2 < p.len()
                && self.accept@[#[trigger] p[q1]@[0] as int] == self.accept@[#[trigger] p[q2]@[0] as int] implies q1 == q2 by {
                assert(self.accept@[p[q1]@[0] as int] == (p[q1]@ == a && has_accepting && q1 == 0));
                assert(self.accept@[p[q2]@[0] as int] == (p[q2]@ == a && has_accepting && q2 == 0));
            }
        }
        partition
    }
}

/// Whether two signatures are equal.
fn same_sig(a: &[usize; 3], b: &[usize; 3]) -> (r: bool)
    ensures
        r == (a@ == b@),
{
    let r = a[0] == b[0] && a[1] == b[1] && a[2] == b[2];
    if r {
        assert(a@ =~= b@);
    }
    r
}

/// The index of the first signature equal to `sig`, if any.
fn find_sig(sigs: &Vec<[usize; 3]>, sig: &[usize; 3]) -> (r: Option<usize>)
    ensures
        r matches Some(g) ==> g < sigs@.len() && sigs@[g as int]@ == sig@,
        r is None ==> forall|g: int| 0 <= g < sigs@.len() ==> #[trigger] sigs@[g]@ != sig@,
{
    let mut g: usize = 0;
    while g < sigs.len()
        invariant
            g <= sigs@.len(),
            forall|k: int| 0 <= k < g ==> #[trigger] sigs@[k]@ != sig@,
        decreases sigs@.len() - g,
    {
        if same_sig(&sigs[g], sig) {
            return Some(g);
        }
        g = g + 1;
    }
    None
}

impl TernaryDFA {
    /// The block that state `s` moves to in column `idx` (0=Neg, 1=Zero, 2=Pos), or
    /// `usize::MAX` when there is no move.
    fn block_of_move(&self, s: usize, idx: usize, sp: &Vec<usize>) -> (b: usize)
        requires
            self.minimizable(),
            self.state_labels@.len() >= 2,
            s < self.state_labels@.len(),
            idx < 3,
            sp@.len() == self.state_labels@.len(),
        ensures
            b == self.sig_entry(s as int, idx as int, sp@),
    {
        if s < self.transitions.len() && self.transitions[s][idx] != usize::MAX {
            assert(self.dest(s as int, idx as int) < self.state_labels@.len());
            sp[self.transitions[s][idx]]
        } else {
            usize::MAX
        }
    }

    /// The blocks that state `s` moves to on Neg, Zero and Pos.
    fn signature(&self, s: usize, sp: &Vec<usize>) -> (sig: [usize; 3])
        requires
            self.minimizable(),
            self.state_labels@.len() >= 2,
            s < self.state_labels@.len(),
            sp@.len() == self.state_labels@.len(),
        ensures
            sig@ == self.signature_of(s as int, sp@),
    {
        let sig = [self.block_of_move(s, 0, sp), self.block_of_move(s, 1, sp), self.block_of_move(s, 2, sp)];
        assert(sig@ =~= self.signature_of(s as int, sp@));
        sig
    }

    /// Split a block into groups of states with equal signatures, in order of first appearance.
    fn split_block(&self, part: &Vec<usize>, sp: &Vec<usize>) -> (groups: Vec<Vec<usize>>)
        requires
            self.minimizable(),
            self.state_labels@.len() >= 2,
            sp@.len() == self.state_labels@.len(),
            part@.len() > 0,
            all_below(part@, self.state_labels@.len() as int),
        ensures
            groups@.len() >= 1,
            blocks_in_range(groups@, self.state_labels@.len() as int),
            blocks_disjoint(groups@),
            forall|g: int, j: int| 0 <= g < groups@.len() && 0 <= j < groups@[g]@.len() ==> part@.contains(#[trigger] groups@[g]@[j]),
            forall|j: int| 0 <= j < part@.len() ==> #[trigger] in_some_block(groups@, part@[j]),
            forall|g: int, j: int| 0 <= g < groups@.len() && 0 <= j < groups@[g]@.len()
                ==> self.signature_of(#[trigger] groups@[g]@[j] as int, sp@) == self.signature_of(groups@[g]@[0] as int, sp@),
            groups@.len() == 1 ==> groups@[0]@ == part@,
            forall|g: int, j: int, x: usize|
                #![trigger groups@[g]@[j], self.signature_of(x as int, sp@)]
                0 <= g < groups@.len() && 0 <= j < groups@[g]@.len() && part@.contains(x) && self.signature_of(x as int, sp@)
                    == self.signature_of(groups@[g]@[j] as int, sp@) ==> groups@[g]@.contains(x),
    {
        let n = self.state_labels.len();
        let mut sigs: Vec<[usize; 3]> = Vec::new();
        let mut groups: Vec<Vec<usize>> = Vec::new();
        let mut j: usize = 0;
        while j < part.len()
            invariant
                self.minimizable(),
                n == self.state_labels@.len(),
                n >= 2,
                sp@.len() == n,
                all_below(part@, n as int),
                j <= part@.len(),
                sigs@.len() == groups@.len(),
                j == 0 <==> groups@.len() == 0,
                blocks_in_range(groups@, n as int),
                forall|g1: int, g2: int| 0 <= g1 < g2 < sigs@.len() ==> sigs@[g1]@ != sigs@[g2]@,
                forall|g: int, k: int| 0 <= g < groups@.len() && 0 <= k < groups@[g]@.len()
                    ==> self.signature_of(#[trigger] groups@[g]@[k] as int, sp@) == sigs@[g]@,
                forall|g: int, k: int| 0 <= g < groups@.len() && 0 <= k < groups@[g]@.len() ==> part@.contains(#[trigger] groups@[g]@[k]),
                forall|jj: int| 0 <= jj < j ==> #[trigger] in_some_block(groups@, part@[jj]),
                groups@.len() == 1 ==> groups@[0]@ == part@.take(j as int),
            decreases part@.len() - j,
        {
            let s = part[j];
            let sig = self.signature(s, sp);
            let ghost g0 = groups@;
            let ghost s0 = sigs@;
            assert(part@.contains(s));
            match find_sig(&sigs, &sig) {
                Some(g) => {
                    groups[g].push(s);
                    proof {
                        assert(groups@[g as int]@ == g0[g as int]@.push(s));
                        assert forall|h: int| 0 <= h < groups@.len() && h != g implies #[trigger] groups@[h] == g0[h] by {}
                        assert forall|gg: int, k: int| 0 <= gg < groups@.len() && 0 <= k < groups@[gg]@.len()
                            implies self.signature_of(#[trigger] groups@[gg]@[k] as int, sp@) == sigs@[gg]@ by {
                            if gg == g && k == groups@[gg]@.len() - 1 {
                            } else {
                                assert(groups@[gg]@[k] == g0[gg]@[k]);
                            }
                        }
                        assert forall|gg: int, k: int| 0 <= gg < groups@.len() && 0 <= k < groups@[gg]@.len()
                            implies part@.contains(#[trigger] groups@[gg]@[k]) by {
                            if gg == g && k == groups@[gg]@.len() - 1 {
                            } else {
                                assert(groups@[gg]@[k] == g0[gg]@[k]);
                            }
                        }
                        assert forall|jj: int| 0 <= jj < j + 1 implies #[trigger] in_some_block(groups@, part@[jj]) by {
                            if jj == j {
                                assert(groups@[g as int]@[groups@[g as int]@.len() - 1] == s);
                                assert(groups@[g as int]@.contains(s));
                            } else {
                                assert(in_some_block(g0, part@[jj]));
                                let q = choose|q: int| 0 <= q < g0.len() && (#[trigger] g0[q])@.contains(part@[jj]);
                                let k = choose|k: int| 0 <= k < g0[q]@.len() && g0[q]@[k] == part@[jj];
                                assert(groups@[q]@[k] == part@[jj]);
                                assert(groups@[q]@.contains(part@[jj]));
                            }
                        }
                        if groups@.len() == 1 {
                            assert(part@.take(j + 1) =~= part@.take(j as int).push(s));
                        }
                        assert forall|q: int, k: int| 0 <= q < groups@.len() && 0 <= k < groups@[q]@.len()
                            implies #[trigger] groups@[q]@[k] < n by {
                            if q == g && k == groups@[q]@.len() - 1 {
                            } else {
                                assert(groups@[q]@[k] == g0[q]@[k]);
                            }
                        }
                    }
                },
                None => {
                    sigs.push(sig);
                    let mut group: Vec<usize> = Vec::new();
                    group.push(s);
                    groups.push(group);
                    proof {
                        let ng = groups@.len() - 1;
                        assert(groups@[ng]@ == seq![s]);
                        assert forall|h: int| 0 <= h < ng implies #[trigger] groups@[h] == g0[h] by {}
                        assert forall|jj: int| 0 <= jj < j + 1 implies #[trigger] in_some_block(groups@, part@[jj]) by {
                            if jj == j {
                                assert(groups@[ng]@[0] == s);
                                assert(groups@[ng]@.contains(s));
                            } else {
                                assert(in_some_block(g0, part@[jj]));
                                let q = choose|q: int| 0 <= q < g0.len() && (#[trigger] g0[q])@.contains(part@[jj]);
                                assert(groups@[q] == g0[q]);
                            }
                        }
                        if groups@.len() == 1 {
                            assert(part@.take(j + 1) =~= seq![s]);
                        }
                        assert forall|g1: int, g2: int| 0 <= g1 < g2 < sigs@.len() implies sigs@[g1]@ != sigs@[g2]@ by {
                            if g2 == ng {
                                assert(s0[g1]@ != sig@);
                            }
                        }
                    }
                },
            }
            j = j + 1;
        }
        proof {
            assert(part@.take(part@.len() as int) =~= part@);
            assert forall|q1: int, q2: int, j1: int, j2: int|
                0 <= q1 < groups@.len() && 0 <= q2 < groups@.len() && 0 <= j1 < groups@[q1]@.len() && 0 <= j2 < groups@[q2]@.len()
                    && #[trigger] groups@[q1]@[j1] == #[trigger] groups@[q2]@[j2] implies q1 == q2 by {
                assert(self.signature_of(groups@[q1]@[j1] as int, sp@) == sigs@[q1]@);
                assert(self.signature_of(groups@[q2]@[j2] as int, sp@) == sigs@[q2]@);
                if q1 < q2 {
                    assert(sigs@[q1]@ != sigs@[q2]@);
                } else if q2 < q1 {
                    assert(sigs@[q2]@ != sigs@[q1]@);
                }
            }
            assert forall|g: int, k: int| 0 <= g < groups@.len() && 0 <= k < groups@[g]@.len()
                implies self.signature_of(#[trigger] groups@[g]@[k] as int, sp@) == self.signature_of(groups@[g]@[0] as int, sp@) by {
                assert(self.signature_of(groups@[g]@[0] as int, sp@) == sigs@[g]@);
            }
            assert forall|g: int, k: int, x: usize|
                #![trigger groups@[g]@[k], self.signature_of(x as int, sp@)]
                0 <= g < groups@.len() && 0 <= k < groups@[g]@.len() && part@.contains(x) && self.signature_of(x as int, sp@)
                    == self.signature_of(groups@[g]@[k] as int, sp@) implies groups@[g]@.contains(x) by {
                let jx = choose|jx: int| 0 <= jx < part@.len() && part@[jx] == x;
                assert(in_some_block(groups@, part@[jx]));
                let h = choose|h: int| 0 <= h < groups@.len() && (#[trigger] groups@[h])@.contains(part@[jx]);
                let kx = choose|kx: int| 0 <= kx < groups@[h]@.len() && groups@[h]@[kx] == x;
                assert(self.signature_of(groups@[h]@[kx] as int, sp@) == sigs@[h]@);
                assert(self.signature_of(groups@[g]@[k] as int, sp@) == sigs@[g]@);
                if h < g {
                    assert(sigs@[h]@ != sigs@[g]@);
                } else if g < h {
                    assert(sigs@[g]@ != sigs@[h]@);
                }
            }
        }
        groups
    }
}

/// Append copies of `blocks` to `np`.
fn append_blocks(np: &mut Vec<Vec<usize>>, blocks: &Vec<Vec<usize>>)
    ensures
        final(np)@.len() == old(np)@.len() + blocks@.len(),
        forall|q: int| 0 <= q < old(np)@.len() ==> #[trigger] final(np)@[q] == old(np)@[q],
        forall|h: int| 0 <= h < blocks@.len() ==> #[trigger] final(np)@[old(np)@.len() + h]@ == blocks@[h]@,
{
    let mut g: usize = 0;
    while g < blocks.len()
        invariant
            g <= blocks@.len(),
            np@.len() == old(np)@.len() + g,
            forall|q: int| 0 <= q < old(np)@.len() ==> #[trigger] np@[q] == old(np)@[q],
            forall|h: int| 0 <= h < g ==> #[trigger] np@[old(np)@.len() + h]@ == blocks@[h]@,
        decreases blocks@.len() - g,
    {
        np.push(copy_states(&blocks[g]));
        g = g + 1;
    }
}

impl TernaryDFA {
    /// One round of refinement: split every block by signature. Also tells whether any
    /// block was split.
    fn refine(&self, partition: &Vec<Vec<usize>>, sp: &Vec<usize>) -> (res: (Vec<Vec<usize>>, bool))
        requires
            self.minimizable(),
            self.state_labels@.len() >= 2,
            blocks_partition(partition@, sp@, self.state_labels@.len() as int),
        ensures
            blocks_in_range(res.0@, self.state_labels@.len() as int),
            blocks_disjoint(res.0@),
            forall|s: usize| s < self.state_labels@.len() ==> #[trigger] in_some_block(res.0@, s),
            forall|q: int, j: int| 0 <= q < res.0@.len() && 0 <= j < res.0@[q]@.len()
                ==> sp@[#[trigger] res.0@[q]@[j] as int] == sp@[res.0@[q]@[0] as int],
            forall|q: int, j: int| 0 <= q < res.0@.len() && 0 <= j < res.0@[q]@.len()
                ==> self.signature_of(#[trigger] res.0@[q]@[j] as int, sp@) == self.signature_of(res.0@[q]@[0] as int, sp@),
            res.0@.len() >= partition@.len(),
            res.1 ==> res.0@.len() > partition@.len(),
            !res.1 ==> res.0@.len() == partition@.len() && forall|q: int| 0 <= q < partition@.len() ==> #[trigger] res.0@[q]@
                == partition@[q]@,
            forall|q: int, j: int, t: usize|
                #![trigger res.0@[q]@[j], self.signature_of(t as int, sp@)]
                0 <= q < res.0@.len() && 0 <= j < res.0@[q]@.len() && t < self.state_labels@.len() && sp@[t as int]
                    == sp@[res.0@[q]@[j] as int] && self.signature_of(t as int, sp@) == self.signature_of(res.0@[q]@[j] as int, sp@)
                    ==> res.0@[q]@.contains(t),
    {
        let n = self.state_labels.len();
        let mut changed = false;
        let mut new_partition: Vec<Vec<usize>> = Vec::new();
        let mut pi: usize = 0;
        while pi < partition.len()
            invariant
                self.minimizable(),
                n == self.state_labels@.len(),
                n >= 2,
                blocks_partition(partition@, sp@, n as int),
                pi <= partition@.len(),
                blocks_in_range(new_partition@, n as int),
                blocks_disjoint(new_partition@),
                forall|q: int, j: int| 0 <= q < new_partition@.len() && 0 <= j < new_partition@[q]@.len()
                    ==> sp@[#[trigger] new_partition@[q]@[j] as int] < pi,
                forall|q: int, j: int| 0 <= q < new_partition@.len() && 0 <= j < new_partition@[q]@.len()
                    ==> sp@[#[trigger] new_partition@[q]@[j] as int] == sp@[new_partition@[q]@[0] as int],
                forall|q: int, j: int| 0 <= q < new_partition@.len() && 0 <= j < new_partition@[q]@.len()
                    ==> self.signature_of(#[trigger] new_partition@[q]@[j] as int, sp@)
                        == self.signature_of(new_partition@[q]@[0] as int, sp@),
                forall|s: usize| s < n && sp@[s as int] < pi ==> #[trigger] in_some_block(new_partition@, s),
                new_partition@.len() >= pi,
                changed ==> new_partition@.len() > pi,
                !changed ==> new_partition@.len() == pi && forall|q: int| 0 <= q < pi ==> #[trigger] new_partition@[q]@
                    == partition@[q]@,
                forall|q: int, j: int, t: usize|
                    #![trigger new_partition@[q]@[j], self.signature_of(t as int, sp@)]
                    0 <= q < new_partition@.len() && 0 <= j < new_partition@[q]@.len() && t < n && sp@[t as int]
                        == sp@[new_partition@[q]@[j] as int] && self.signature_of(t as int, sp@) == self.signature_of(
                        new_partition@[q]@[j] as int,
                        sp@,
                    ) ==> new_partition@[q]@.contains(t),
            decreases partition@.len() - pi,
        {
            let part = &partition[pi];
            assert(part@.len() > 0);
            assert forall|j: int| 0 <= j < part@.len() implies #[trigger] part@[j] < n && sp@[part@[j] as int] == pi by {
                assert(partition@[pi as int]@[j] == part@[j]);
            }
            let blocks: Vec<Vec<usize>> = if part.len() <= 1 {
                let mut single: Vec<Vec<usize>> = Vec::new();
                single.push(copy_states(part));
                single
            } else {
                // Split by transition signatures
                let groups = self.split_block(part, sp);
                if groups.len() > 1 {
                    changed = true;
                }
                groups
            };
            proof {
                // what the added blocks are: nonempty, disjoint, drawn from `part`, covering it,
                // and uniform in signature; a single block is `part` itself
                assert(blocks@.len() >= 1);
                assert(blocks@.len() == 1 ==> blocks@[0]@ == part@);
                assert(changed ==> blocks@.len() > 1 || new_partition@.len() > pi);
                assert forall|h: int, j: int| 0 <= h < blocks@.len() && 0 <= j < blocks@[h]@.len()
                    implies part@.contains(#[trigger] blocks@[h]@[j]) by {
                    if part@.len() <= 1 {
                        assert(blocks@[h]@[j] == part@[j]);
                    }
                }
                assert forall|h: int, j: int| 0 <= h < blocks@.len() && 0 <= j < blocks@[h]@.len()
                    implies self.signature_of(#[trigger] blocks@[h]@[j] as int, sp@) == self.signature_of(blocks@[h]@[0] as int, sp@) by {
                    if part@.len() <= 1 {
                        assert(j == 0);
                    }
                }
                assert forall|j: int| 0 <= j < part@.len() implies #[trigger] in_some_block(blocks@, part@[j]) by {
                    if part@.len() <= 1 {
                        assert(blocks@[0]@[j] == part@[j]);
                        assert(blocks@[0]@.contains(part@[j]));
                    }
                }
                assert(blocks_disjoint(blocks@));
                assert forall|h: int| 0 <= h < blocks@.len() implies #[trigger] blocks@[h]@.len() > 0 by {}
                assert forall|h: int, j: int, x: usize|
                    #![trigger blocks@[h]@[j], self.signature_of(x as int, sp@)]
                    0 <= h < blocks@.len() && 0 <= j < blocks@[h]@.len() && part@.contains(x) && self.signature_of(x as int, sp@)
                        == self.signature_of(blocks@[h]@[j] as int, sp@) implies blocks@[h]@.contains(x) by {
                }
            }
            let ghost np0 = new_partition@;
            append_blocks(&mut new_partition, &blocks);
            proof {
                let b = blocks@;
                let base: int = np0.len() as int;
                let np = new_partition@;
                assert forall|q: int, j: int| 0 <= q < np.len() && 0 <= j < np[q]@.len()
                    implies #[trigger] np[q]@[j] < n && sp@[np[q]@[j] as int] <= pi by {
                    if q < base {
                        assert(np[q] == np0[q]);
                        assert(np0[q]@[j] == np[q]@[j]);
                    } else {
                        assert(np[base + (q - base)]@ == b[q - base]@);
                        assert(part@.contains(b[q - base]@[j]));
                    }
                }
                assert forall|q: int| 0 <= q < np.len() implies #[trigger] np[q]@.len() > 0 by {
                    if q < base {
                        assert(np[q] == np0[q]);
                    } else {
                        assert(np[base + (q - base)]@ == b[q - base]@);
                    }
                }
                assert forall|q1: int, q2: int, j1: int, j2: int|
                    0 <= q1 < np.len() && 0 <= q2 < np.len() && 0 <= j1 < np[q1]@.len() && 0 <= j2 < np[q2]@.len()
                        && #[trigger] np[q1]@[j1] == #[trigger] np[q2]@[j2] implies q1 == q2 by {
                    if q1 < base && q2 < base {
                        assert(np[q1] == np0[q1]);
                        assert(np[q2] == np0[q2]);
                        assert(np0[q1]@[j1] == np0[q2]@[j2]);
                    } else if q1 >= base && q2 >= base {
                        assert(np[base + (q1 - base)]@ == b[q1 - base]@);
                        assert(np[base + (q2 - base)]@ == b[q2 - base]@);
                        assert(b[q1 - base]@[j1] == b[q2 - base]@[j2]);
                    } else if q1 < base {
                        assert(np[q1] == np0[q1]);
                        assert(sp@[np0[q1]@[j1] as int] < pi);
                        assert(np[base + (q2 - base)]@ == b[q2 - base]@);
                        assert(part@.contains(b[q2 - base]@[j2]));
                    } else {
                        assert(np[q2] == np0[q2]);
                        assert(sp@[np0[q2]@[j2] as int] < pi);
                        assert(np[base + (q1 - base)]@ == b[q1 - base]@);
                        assert(part@.contains(b[q1 - base]@[j1]));
                    }
                }
                assert forall|q: int, j: int| 0 <= q < np.len() && 0 <= j < np[q]@.len()
                    implies sp@[#[trigger] np[q]@[j] as int] == sp@[np[q]@[0] as int] && self.signature_of(np[q]@[j] as int, sp@)
                        == self.signature_of(np[q]@[0] as int, sp@) by {
                    if q < base {
                        assert(np[q] == np0[q]);
                        assert(np0[q]@[j] == np[q]@[j]);
                    } else {
                        assert(np[base + (q - base)]@ == b[q - base]@);
                        assert(part@.contains(b[q - base]@[j]));
                        assert(part@.contains(b[q - base]@[0]));
                        assert(self.signature_of(b[q - base]@[j] as int, sp@) == self.signature_of(b[q - base]@[0] as int, sp@));
                    }
                }
                assert forall|s: usize| s < n && sp@[s as int] < pi + 1 implies #[trigger] in_some_block(np, s) by {
                    if sp@[s as int] < pi {
                        assert(in_some_block(np0, s));
                        let q = choose|q: int| 0 <= q < np0.len() && (#[trigger] np0[q])@.contains(s);
                        assert(np[q] == np0[q]);
                    } else {
                        assert(partition@[pi as int]@.contains(s));
                        let j = choose|j: int| 0 <= j < part@.len() && part@[j] == s;
                        assert(in_some_block(b, part@[j]));
                        let h = choose|h: int| 0 <= h < b.len() && (#[trigger] b[h])@.contains(part@[j]);
                        assert(np[base as int + h]@ == b[h]@);
                    }
                }
                assert forall|q: int, j: int, t: usize|
                    #![trigger np[q]@[j], self.signature_of(t as int, sp@)]
                    0 <= q < np.len() && 0 <= j < np[q]@.len() && t < n && sp@[t as int] == sp@[np[q]@[j] as int]
                        && self.signature_of(t as int, sp@) == self.signature_of(np[q]@[j] as int, sp@) implies np[q]@.contains(t) by {
                    if q < base {
                        assert(np[q] == np0[q]);
                        assert(np0[q]@[j] == np[q]@[j]);
                        assert(np0[q]@.contains(t));
                    } else {
                        let h = q - base;
                        assert(np[base + h]@ == b[h]@);
                        assert(part@.contains(b[h]@[j]));
                        assert(sp@[t as int] == pi);
                        assert(partition@[sp@[t as int] as int]@.contains(t));
                        assert(b[h]@.contains(t));
                    }
                }
                if !changed {
                    assert(b.len() == 1);
                    assert forall|q: int| 0 <= q < pi + 1 implies #[trigger] np[q]@ == partition@[q]@ by {
                        if q < pi {
                            assert(np[q] == np0[q]);
                        } else {
                            let h0: int = 0;
                            assert(np[base + h0]@ == b[h0]@);
                        }
                    }
                }
            }
            pi = pi + 1;
        }
        (new_partition, changed)
    }
}

impl TernaryDFA {
    /// Same table, flags, start and labels as `other`.
    pub open spec fn same_as(self, other: TernaryDFA) -> bool {
        &&& self.transitions@ == other.transitions@
        &&& self.accept@ == other.accept@
        &&& self.start == other.start
        &&& self.state_labels@.len() == other.state_labels@.len()
        &&& forall|i: int| 0 <= i < self.state_labels@.len() ==> #[trigger] self.state_labels@[i]@ == other.state_labels@[i]@
    }

    /// A copy of this DFA.
    fn duplicate(&self) -> (r: TernaryDFA)
        ensures
            r.same_as(*self),
    {
        let mut transitions: Vec<[usize; 3]> = Vec::new();
        let mut i: usize = 0;
        while i < self.transitions.len()
            invariant
                i <= self.transitions@.len(),
                transitions@ == self.transitions@.take(i as int),
            decreases self.transitions@.len() - i,
        {
            transitions.push(self.transitions[i]);
            assert(transitions@ =~= self.transitions@.take(i + 1));
            i = i + 1;
        }
        assert(self.transitions@.take(self.transitions@.len() as int) =~= self.transitions@);
        let mut accept: Vec<bool> = Vec::new();
        let mut i: usize = 0;
        while i < self.accept.len()
            invariant
                i <= self.accept@.len(),
                accept@ == self.accept@.take(i as int),
            decreases self.accept@.len() - i,
        {
            accept.push(self.accept[i]);
            assert(accept@ =~= self.accept@.take(i + 1));
            i = i + 1;
        }
        assert(self.accept@.take(self.accept@.len() as int) =~= self.accept@);
        let mut state_labels: Vec<Vec<usize>> = Vec::new();
        let mut i: usize = 0;
        while i < self.state_labels.len()
            invariant
                i <= self.state_labels@.len(),
                state_labels@.len() == i,
                forall|k: int| 0 <= k < i ==> #[trigger] state_labels@[k]@ == self.state_labels@[k]@,
            decreases self.state_labels@.len() - i,
        {
            state_labels.push(copy_states(&self.state_labels[i]));
            i = i + 1;
        }
        TernaryDFA { transitions, accept, start: self.start, state_labels }
    }

    /// Some state among `part` has NFA state `x` in its label.
    pub open spec fn part_label_has(self, part: Seq<usize>, x: usize) -> bool {
        exists|j: int| 0 <= j < part.len() && #[trigger] self.state_labels@[part[j] as int]@.contains(x)
    }

    /// The union of the labels of the states in `part`, in increasing order.
    fn block_label(&self, part: &Vec<usize>) -> (r: Vec<usize>)
        requires
            all_below(part@, self.state_labels@.len() as int),
        ensures
            strictly_increasing(r@),
            forall|x: usize| #[trigger] r@.contains(x) <==> self.part_label_has(part@, x),
    {
        let mut r: Vec<usize> = Vec::new();
        let mut j: usize = 0;
        while j < part.len()
            invariant
                all_below(part@, self.state_labels@.len() as int),
                j <= part@.len(),
                strictly_increasing(r@),
                forall|x: usize| #[trigger] r@.contains(x) <==> self.part_label_has(part@.take(j as int), x),
            decreases part@.len() - j,
        {
            let l = &self.state_labels[part[j]];
            let ghost r0 = r@;
            let mut i: usize = 0;
            while i < l.len()
                invariant
                    j < part@.len(),
                    l@ == self.state_labels@[part@[j as int] as int]@,
                    i <= l@.len(),
                    strictly_increasing(r@),
                    forall|x: usize| #[trigger] r@.contains(x) <==> (r0.contains(x) || l@.take(i as int).contains(x)),
                decreases l@.len() - i,
            {
                insert_sorted(&mut r, l[i]);
                assert forall|x: usize| #[trigger] r@.contains(x) <==> (r0.contains(x) || l@.take(i + 1).contains(x)) by {
                    let t0 = l@.take(i as int);
                    let t1 = l@.take(i + 1);
                    if t1.contains(x) && x != l@[i as int] {
                        let k = choose|k: int| 0 <= k < t1.len() && t1[k] == x;
                        assert(t0[k] == x);
                    }
                    if t0.contains(x) {
                        let k = choose|k: int| 0 <= k < t0.len() && t0[k] == x;
                        assert(t1[k] == x);
                    }
                    if x == l@[i as int] {
                        assert(l@.take(i + 1)[i as int] == x);
                    }
                }
                i = i + 1;
            }
            assert(l@.take(l@.len() as int) =~= l@);
            assert forall|x: usize| #[trigger] r@.contains(x) <==> self.part_label_has(part@.take(j + 1), x) by {
                let pj = part@.take(j as int);
                let pj1 = part@.take(j + 1);
                if self.part_label_has(pj1, x) {
                    let jj = choose|jj: int| 0 <= jj < pj1.len() && #[trigger] self.state_labels@[pj1[jj] as int]@.contains(x);
                    if jj < j {
                        assert(pj[jj] == pj1[jj]);
                        assert(self.part_label_has(pj, x));
                    }
                }
                if self.part_label_has(pj, x) {
                    let jj = choose|jj: int| 0 <= jj < pj.len() && #[trigger] self.state_labels@[pj[jj] as int]@.contains(x);
                    assert(pj[jj] == pj1[jj]);
                    assert(self.part_label_has(pj1, x));
                }
                if l@.contains(x) {
                    assert(pj1[j as int] == part@[j as int]);
                    assert(self.part_label_has(pj1, x));
                }
            }
            j = j + 1;
        }
        assert(part@.take(part@.len() as int) =~= part@);
        r
    }

    /// The DFA built from a stable partition is a quotient of this one.
    proof fn lemma_built_is_quotient(self, res: TernaryDFA, p: Seq<Vec<usize>>, sp: Seq<usize>)
        requires
            self.minimizable(),
            self.state_labels@.len() >= 2,
            blocks_partition(p, sp, self.state_labels@.len() as int),
            p.len() <= self.state_labels@.len(),
            self.blocks_agree_on_accept(sp),
            self.stable(p, sp),
            res.state_labels@.len() == p.len(),
            res.transitions@.len() == p.len(),
            res.accept@.len() == p.len(),
            forall|q: int| 0 <= q < p.len() ==> strictly_increasing(#[trigger] res.state_labels@[q]@),
            forall|q: int, x: usize| 0 <= q < p.len() ==> (#[trigger] res.state_labels@[q]@.contains(x)
                <==> self.part_label_has(p[q]@, x)),
            forall|q: int| 0 <= q < p.len() ==> #[trigger] res.accept@[q] == self.accept@[p[q]@[0] as int],
            forall|q: int| 0 <= q < p.len() ==> #[trigger] res.transitions@[q]@ == self.signature_of(p[q]@[0] as int, sp),
            res.start == sp[self.start as int],
        ensures
            TernaryDFA::quotient_by(res, self, sp),
    {
        let n = self.state_labels@.len();
        let m = p.len();
        assert(sp[0] < m);
        assert forall|q: int| 0 <= q < m implies #[trigger] TernaryDFA::block_used(sp, q) by {
            assert(p[q]@.len() > 0);
            assert(sp[p[q]@[0] as int] == q);
        }
        assert forall|s: int| 0 <= s < n implies res.accept@[#[trigger] sp[s] as int] == self.accept@[s] by {
            let q = sp[s] as int;
            let r = p[q]@[0];
            assert(p[q]@.len() > 0);
            assert(sp[r as int] == q);
        }
        assert forall|s: int, k: int| 0 <= s < n && 0 <= k < 3 implies #[trigger] res.entry(sp[s] as int, k)
            == self.sig_entry(s, k, sp) by {
            let q = sp[s] as int;
            let r = p[q]@[0];
            assert(p[q]@.len() > 0);
            assert(self.signature_of(s, sp) == self.signature_of(p[sp[s] as int]@[0] as int, sp));
            assert(res.entry(q, k) == self.signature_of(r as int, sp)[k]);
            assert(self.signature_of(s, sp)[k] == self.sig_entry(s, k, sp));
        }
        assert forall|q: int, x: usize| 0 <= q < m implies (#[trigger] res.state_labels@[q]@.contains(x)
            <==> TernaryDFA::block_label_has(self, sp, q, x)) by {
            if self.part_label_has(p[q]@, x) {
                let j = choose|j: int| 0 <= j < p[q]@.len() && #[trigger] self.state_labels@[p[q]@[j] as int]@.contains(x);
                assert(sp[p[q]@[j] as int] == q);
                assert(TernaryDFA::block_label_has(self, sp, q, x));
            }
            if TernaryDFA::block_label_has(self, sp, q, x) {
                let s = choose|s: int| 0 <= s < sp.len() && sp[s] == q && #[trigger] self.state_labels@[s]@.contains(x);
                assert(self.state_labels.len() == self.state_labels@.len());
                assert((s as usize) as int == s);
                assert(p[sp[s] as int]@.contains(s as usize));
                let j = choose|j: int| 0 <= j < p[q]@.len() && p[q]@[j] == s as usize;
                assert(self.state_labels@[p[q]@[j] as int]@.contains(x));
                assert(self.part_label_has(p[q]@, x));
            }
        }
    }

    /// Minimize the DFA using partition refinement: states are first split into accepting
    /// and rejecting, then blocks are split by the blocks their transitions lead to, until
    /// no block splits.
    pub fn minimize(&self) -> (res: TernaryDFA)
        requires
            self.minimizable(),
        ensures
            forall|w: Seq<Ternary>| #[trigger] res.accepts_word(w) == self.accepts_word(w),
            res.state_labels@.len() <= self.state_labels@.len(),
            self.state_labels@.len() <= 1 ==> res.same_as(*self),
            self.state_labels@.len() >= 2 ==> res.wf() && exists|sp: Seq<usize>|
                #[trigger] TernaryDFA::quotient_by(res, *self, sp) && self.blocks_are_agreement_classes(sp),
            self.wf() ==> res.wf(),
            forall|q: int, r: int|
                0 <= q < res.state_labels@.len() && 0 <= r < res.state_labels@.len() && q != r
                    ==> #[trigger] res.distinguishable(q, r),
            (forall|s: int, t: int|
                0 <= s < self.state_labels@.len() && 0 <= t < self.state_labels@.len() && s != t
                    ==> #[trigger] self.distinguishable(s, t)) ==> res.state_labels@.len() == self.state_labels@.len(),
            (forall|s: int| 0 <= s < self.state_labels@.len() ==> #[trigger] self.state_reachable(s)) ==> forall|q: int|
                0 <= q < res.state_labels@.len() ==> #[trigger] res.state_reachable(q),
            (forall|s: int| 0 <= s < self.state_labels@.len() ==> #[trigger] self.can_accept(s)) ==> forall|q: int|
                0 <= q < res.state_labels@.len() ==> #[trigger] res.can_accept(q),
    {
        let n = self.state_labels.len();
        if n <= 1 {
            let r = self.duplicate();
            assert forall|w: Seq<Ternary>| #[trigger] r.accepts_word(w) == self.accepts_word(w) by {
                assert(r.run_from(r.start, w) == self.run_from(self.start, w)) by {
                    self.lemma_same_run(r, self.start, w);
                }
            }
            assert(forall|c: int, k: int| #[trigger] r.entry(c, k) == self.entry(c, k));
            assert(r.state_labels@.len() <= 1);
            proof {
                if forall|s: int| 0 <= s < self.state_labels@.len() ==> #[trigger] self.state_reachable(s) {
                    assert forall|q: int| 0 <= q < r.state_labels@.len() implies #[trigger] r.state_reachable(q) by {
                        assert(self.state_reachable(q));
                        let w = choose|w: Seq<Ternary>| #[trigger] self.run_from(self.start, w) == Some(q as usize);
                        self.lemma_same_run(r, self.start, w);
                    }
                }
                if forall|s: int| 0 <= s < self.state_labels@.len() ==> #[trigger] self.can_accept(s) {
                    assert forall|q: int| 0 <= q < r.state_labels@.len() implies #[trigger] r.can_accept(q) by {
                        assert(self.can_accept(q));
                        let u = choose|u: Seq<Ternary>| #[trigger] self.accepts_from(q as usize, u);
                        self.lemma_same_run(r, q as usize, u);
                        assert(r.accepts_from(q as usize, u));
                    }
                }
            }
            return r;
        }
        // Partition into accepting and non-accepting
        let mut partition = self.split_by_accept(n);
        // Find which partition a state belongs to
        let mut state_partition = assign_blocks(&partition, n);
        proof {
            lemma_blocks_bounded(partition@, state_partition@, n as int);
            assert forall|s: int, t: int|
                0 <= s < n && 0 <= t < n && state_partition@[s] == state_partition@[t]
                    implies #[trigger] self.accept@[s] == #[trigger] self.accept@[t] by {
                let q = state_partition@[s] as int;
                let js = choose|j: int| 0 <= j < partition@[q]@.len() && partition@[q]@[j] == s as usize;
                let jt = choose|j: int| 0 <= j < partition@[q]@.len() && partition@[q]@[j] == t as usize;
                assert(partition@[q]@.contains(s as usize));
                assert(partition@[q]@.contains(t as usize));
                assert(self.accept@[partition@[q]@[js] as int] == self.accept@[partition@[q]@[0] as int]);
                assert(self.accept@[partition@[q]@[jt] as int] == self.accept@[partition@[q]@[0] as int]);
            }
        }
        let ghost mut rounds: nat = 0;
        proof {
            assert forall|x: int, y: int| 0 <= x < n && 0 <= y < n implies (state_partition@[x] == state_partition@[y])
                == #[trigger] self.agree_within(x, y, rounds) by {
                if self.accept@[x] == self.accept@[y] {
                    let qx = state_partition@[x] as int;
                    let qy = state_partition@[y] as int;
                    assert(partition@[qx]@.contains(x as usize));
                    assert(partition@[qy]@.contains(y as usize));
                    let jx = choose|j: int| 0 <= j < partition@[qx]@.len() && partition@[qx]@[j] == x as usize;
                    let jy = choose|j: int| 0 <= j < partition@[qy]@.len() && partition@[qy]@[j] == y as usize;
                    assert(self.accept@[partition@[qx]@[jx] as int] == self.accept@[partition@[qx]@[0] as int]);
                    assert(self.accept@[partition@[qy]@[jy] as int] == self.accept@[partition@[qy]@[0] as int]);
                }
            }
        }
        // Refine partitions
        let mut changed = true;
        while changed
            invariant
                self.minimizable(),
                n == self.state_labels@.len(),
                n >= 2,
                blocks_partition(partition@, state_partition@, n as int),
                partition@.len() <= n,
                self.blocks_agree_on_accept(state_partition@),
                !changed ==> self.stable(partition@, state_partition@),
                forall|x: int, y: int| 0 <= x < n && 0 <= y < n ==> (state_partition@[x] == state_partition@[y])
                    == #[trigger] self.agree_within(x, y, rounds),
                !changed ==> rounds >= 1 && forall|x: int, y: int| 0 <= x < n && 0 <= y < n ==> #[trigger] self.agree_within(x, y, rounds)
                    == self.agree_within(x, y, (rounds - 1) as nat),
            decreases 2 * (n - partition@.len()) + if changed { 1int } else { 0int },
        {
            let (new_partition, ch) = self.refine(&partition, &state_partition);
            let new_sp = assign_blocks(&new_partition, n);
            proof {
                let p = partition@;
                let sp = state_partition@;
                let np = new_partition@;
                let nsp = new_sp@;
                lemma_blocks_bounded(np, nsp, n as int);
                assert forall|s: int, t: int| 0 <= s < n && 0 <= t < n && nsp[s] == nsp[t]
                    implies #[trigger] self.accept@[s] == #[trigger] self.accept@[t] by {
                    let q = nsp[s] as int;
                    assert(np[q]@.contains(s as usize));
                    assert(np[q]@.contains(t as usize));
                    let js = choose|j: int| 0 <= j < np[q]@.len() && np[q]@[j] == s as usize;
                    let jt = choose|j: int| 0 <= j < np[q]@.len() && np[q]@[j] == t as usize;
                    assert(sp[np[q]@[js] as int] == sp[np[q]@[0] as int]);
                    assert(sp[np[q]@[jt] as int] == sp[np[q]@[0] as int]);
                }
                if !ch {
                    assert forall|s: int| 0 <= s < n implies #[trigger] nsp[s] == sp[s] by {
                        let q = nsp[s] as int;
                        assert(np[q]@.contains(s as usize));
                        let j = choose|j: int| 0 <= j < np[q]@.len() && np[q]@[j] == s as usize;
                        assert(np[q]@ == p[q]@);
                        assert(sp[p[q]@[j] as int] == q);
                    }
                    assert(nsp =~= sp);
                    assert forall|s: int| 0 <= s < n implies #[trigger] self.signature_of(s, nsp) == self.signature_of(
                        np[nsp[s] as int]@[0] as int,
                        nsp,
                    ) by {
                        let q = nsp[s] as int;
                        assert(np[q]@.contains(s as usize));
                        let j = choose|j: int| 0 <= j < np[q]@.len() && np[q]@[j] == s as usize;
                        assert(self.signature_of(np[q]@[j] as int, sp) == self.signature_of(np[q]@[0] as int, sp));
                    }
                }
            }
            proof {
                self.lemma_round(partition@, state_partition@, new_partition@, new_sp@, rounds);
                if !ch {
                    assert(new_sp@ =~= state_partition@);
                }
                rounds = rounds + 1;
            }
            changed = ch;
            partition = new_partition;
            state_partition = new_sp;
        }
        // Build minimized DFA
        let minimized_n = partition.len();
        let mut transitions: Vec<[usize; 3]> = Vec::new();
        let mut i: usize = 0;
        while i < minimized_n
            invariant
                i <= minimized_n,
                transitions@.len() == i,
            decreases minimized_n - i,
        {
            transitions.push([usize::MAX, usize::MAX, usize::MAX]);
            i = i + 1;
        }
        let mut min_dfa = TernaryDFA {
            transitions,
            accept: all_false(minimized_n),
            start: state_partition[self.start],
            state_labels: Vec::new(),
        };
        // Pick representative from each partition
        let mut p_idx: usize = 0;
        while p_idx < minimized_n
            invariant
                self.minimizable(),
                n == self.state_labels@.len(),
                n >= 2,
                minimized_n == partition@.len(),
                blocks_partition(partition@, state_partition@, n as int),
                p_idx <= minimized_n,
                min_dfa.transitions@.len() == minimized_n,
                min_dfa.accept@.len() == minimized_n,
                min_dfa.state_labels@.len() == p_idx,
                min_dfa.start == state_partition@[self.start as int],
                forall|q: int| 0 <= q < p_idx ==> strictly_increasing(#[trigger] min_dfa.state_labels@[q]@),
                forall|q: int, x: usize| 0 <= q < p_idx ==> (#[trigger] min_dfa.state_labels@[q]@.contains(x)
                    <==> self.part_label_has(partition@[q]@, x)),
                forall|q: int| 0 <= q < p_idx ==> #[trigger] min_dfa.accept@[q] == self.accept@[partition@[q]@[0] as int],
                forall|q: int| 0 <= q < p_idx ==> #[trigger] min_dfa.transitions@[q]@ == self.signature_of(
                    partition@[q]@[0] as int,
                    state_partition@,
                ),
            decreases minimized_n - p_idx,
        {
            let part = &partition[p_idx];
            assert(part@.len() > 0);
            let rep = part[0];
            assert(partition@[p_idx as int]@[0] == rep);
            min_dfa.accept.set(p_idx, self.accept[rep]);
            assert forall|j: int| 0 <= j < part@.len() implies #[trigger] part@[j] < n by {
                assert(partition@[p_idx as int]@[j] == part@[j]);
            }
            // the block is labelled with the NFA states of all its members
            min_dfa.state_labels.push(self.block_label(part));
            // the row of the block: where its representative moves, as blocks
            let row = self.signature(rep, &state_partition);
            min_dfa.transitions.set(p_idx, row);
            p_idx = p_idx + 1;
        }
        proof {
            let sp = state_partition@;
            let r = (rounds - 1) as nat;
            assert(forall|x: int, y: int| 0 <= x < n && 0 <= y < n ==> #[trigger] self.agree_within(x, y, r + 1)
                == self.agree_within(x, y, r));
            assert forall|s: int, t: int|
                #![trigger sp[s], sp[t]]
                0 <= s < n && 0 <= t < n implies ((sp[s] == sp[t]) <==> forall|k: nat| #[trigger] self.agree_within(s, t, k)) by {
                if forall|k: nat| #[trigger] self.agree_within(s, t, k) {
                    assert(self.agree_within(s, t, rounds));
                }
                if sp[s] == sp[t] {
                    assert(self.agree_within(s, t, rounds));
                    assert forall|k: nat| #[trigger] self.agree_within(s, t, k) by {
                        if k <= rounds {
                            self.lemma_agree_fewer(s, t, rounds, k);
                        } else {
                            self.lemma_agree_settles(r, (k - r) as nat);
                            assert(self.agree_within(s, t, r + (k - r) as nat) == self.agree_within(s, t, r));
                        }
                    }
                }
            }
            assert(self.blocks_are_agreement_classes(sp));
            self.lemma_built_is_quotient(min_dfa, partition@, state_partition@);
            self.lemma_quotient_minimal(min_dfa, sp);
            self.lemma_quotient_keeps_reach(min_dfa, sp);
            assert forall|w: Seq<Ternary>| #[trigger] min_dfa.accepts_word(w) == self.accepts_word(w) by {
                self.lemma_quotient_language(min_dfa, sp, w);
            }
            assert forall|c: int, k: int| 0 <= c < min_dfa.transitions@.len() && 0 <= k < 3 implies #[trigger] min_dfa.entry(c, k)
                == usize::MAX || min_dfa.entry(c, k) < min_dfa.transitions@.len() by {
                let r = partition@[c]@[0];
                assert(r < n);
                assert(min_dfa.entry(c, k) == self.sig_entry(r as int, k, state_partition@));
                if self.dest(r as int, k) != usize::MAX {
                    assert(state_partition@[self.dest(r as int, k) as int] < minimized_n);
                }
            }
        }
        min_dfa
    }

    /// A well-formed DFA can be minimized.
    pub proof fn lemma_wf_minimizable(self)
        requires
            self.wf(),
        ensures
            self.minimizable(),
    {
        assert forall|s: int, k: int| 0 <= s < self.state_labels@.len() && 0 <= k < 3 implies #[trigger] self.dest(s, k)
            == usize::MAX || self.dest(s, k) < self.state_labels@.len() by {
            assert(self.dest(s, k) == self.entry(s, k));
        }
    }

    /// Two DFAs with the same table follow the same runs.
    pub(crate) proof fn lemma_same_run(self, other: TernaryDFA, c: usize, w: Seq<Ternary>)
        requires
            other.transitions@ == self.transitions@,
        ensures
            other.run_from(c, w) == self.run_from(c, w),
        decreases w.len(),
    {
        if w.len() > 0 {
            self.lemma_same_run(other, c, w.drop_last());
        }
    }
}

} // verus!
