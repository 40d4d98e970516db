//! Subset construction: the DFA whose states are the sets of NFA states reachable together.
use vstd::prelude::*;
use vstd::arithmetic::power2::pow2;

use super::TernaryNFA;
use crate::count::{strictly_increasing, all_below, lemma_distinct_subsets_bounded, lemma_sorted_same_set, lemma_distinct_ints_bounded};
use crate::dfa::{TernaryDFA, tindex, ternary_index};
use crate::ternary::{Ternary, PatternElem, elem_accepts, accepted_value};
use crate::vecs::copy_states;

verus! {

/// The NFA states reached from `from` by one move on `val` and then epsilon moves.
pub open spec fn subset_move(nfa: TernaryNFA, from: Set<usize>, val: Ternary) -> Set<usize> {
    nfa.eps_closure_of(nfa.step(from, val))
}

/// Some state of `states` is accepting in `nfa`.
pub open spec fn any_accepting(nfa: TernaryNFA, states: Set<usize>) -> bool {
    exists|s: usize| states.contains(s) && #[trigger] nfa.is_accepting(s)
}

impl TernaryDFA {
    /// The set of NFA states that DFA state `c` stands for.
    pub open spec fn label_set(self, c: int) -> Set<usize> {
        self.state_labels@[c]@.to_set()
    }

    /// The transition of state `c` on `val` is the subset construction's: missing when
    /// no NFA state is reached, else a state labelled with exactly the states reached.
    pub open spec fn entry_follows(self, nfa: TernaryNFA, c: int, val: Ternary) -> bool {
        let next = subset_move(nfa, self.label_set(c), val);
        let e = self.entry(c, tindex(val));
        if next == Set::<usize>::empty() {
            e == usize::MAX
        } else {
            e != usize::MAX && e < self.state_labels@.len() && self.label_set(e as int) == next
        }
    }

    /// All three transitions of state `c` follow the subset construction.
    pub open spec fn row_follows(self, nfa: TernaryNFA, c: int) -> bool {
        &&& self.entry_follows(nfa, c, Ternary::Neg)
        &&& self.entry_follows(nfa, c, Ternary::Zero)
        &&& self.entry_follows(nfa, c, Ternary::Pos)
    }

    /// The labels are pairwise distinct nonempty sorted lists of NFA states, and each state
    /// accepts exactly when its label holds an accepting NFA state.
    pub open spec fn labels_sound(self, nfa: TernaryNFA) -> bool {
        &&& self.accept@.len() == self.state_labels@.len()
        &&& forall|c: int| 0 <= c < self.state_labels@.len() ==> (#[trigger] self.state_labels@[c])@.len() > 0
        &&& forall|c: int| 0 <= c < self.state_labels@.len() ==> strictly_increasing(#[trigger] self.state_labels@[c]@)
        &&& forall|c: int| 0 <= c < self.state_labels@.len() ==> all_below(#[trigger] self.state_labels@[c]@, nfa.size() as int)
        &&& forall|c: int, d: int| 0 <= c < d < self.state_labels@.len() ==> self.state_labels@[c]@ != self.state_labels@[d]@
        &&& forall|c: int| 0 <= c < self.state_labels@.len() ==> #[trigger] self.accept@[c] == any_accepting(nfa, self.label_set(c))
    }

    /// This DFA is the subset construction of `nfa`.
    pub open spec fn is_subset_dfa_of(self, nfa: TernaryNFA) -> bool {
        &&& self.wf()
        &&& self.start == 0
        &&& self.labels_sound(nfa)
        &&& self.label_set(0) == nfa.eps_closure_of(set![nfa.initial()])
        &&& forall|c: int| 0 <= c < self.state_labels@.len() ==> #[trigger] self.row_follows(nfa, c)
    }

    /// After reading `w`, the subset DFA is in the state labelled with the NFA states
    /// reached, or stuck exactly when no NFA state is reached.
    pub(crate) proof fn lemma_subset_run(self, nfa: TernaryNFA, w: Seq<Ternary>)
        requires
            nfa.runnable(),
            self.is_subset_dfa_of(nfa),
        ensures
            nfa.reached(w) == Set::<usize>::empty() ==> self.run_from(self.start, w) is None,
            nfa.reached(w) != Set::<usize>::empty() ==> {
                &&& self.run_from(self.start, w) is Some
                &&& self.run_from(self.start, w).unwrap() < self.state_labels@.len()
                &&& self.label_set(self.run_from(self.start, w).unwrap() as int) == nfa.reached(w)
            },
        decreases w.len(),
    {
        if w.len() == 0 {
            nfa.lemma_closure_base(set![nfa.initial()], nfa.initial());
        } else {
            let d = w.drop_last();
            let v = w.last();
            self.lemma_subset_run(nfa, d);
            if nfa.reached(d) == Set::<usize>::empty() {
                assert(nfa.step(Set::empty(), v) =~= Set::<usize>::empty());
                nfa.lemma_closure_empty();
            } else {
                let c = self.run_from(self.start, d).unwrap();
                assert(self.row_follows(nfa, c as int));
                assert(self.entry_follows(nfa, c as int, v));
                assert(nfa.reached(w) == subset_move(nfa, self.label_set(c as int), v));
                assert(self.run_from(self.start, w) == self.next_state(c, v));
            }
        }
    }

    /// The subset DFA accepts exactly the words the NFA accepts.
    proof fn lemma_subset_language(self, nfa: TernaryNFA, w: Seq<Ternary>)
        requires
            nfa.runnable(),
            self.is_subset_dfa_of(nfa),
        ensures
            self.accepts_word(w) == nfa.accepts_word(w),
    {
        self.lemma_subset_run(nfa, w);
        if nfa.reached(w) != Set::<usize>::empty() {
            let c = self.run_from(self.start, w).unwrap();
            assert(self.accept@[c as int] == any_accepting(nfa, self.label_set(c as int)));
            if nfa.accepts_word(w) {
                let s = choose|s: usize| #[trigger] nfa.reached(w).contains(s) && nfa.is_accepting(s);
                assert(self.label_set(c as int).contains(s));
            }
            if any_accepting(nfa, self.label_set(c as int)) {
                let s = choose|s: usize| self.label_set(c as int).contains(s) && #[trigger] nfa.is_accepting(s);
                assert(nfa.reached(w).contains(s));
            }
        } else {
            if nfa.accepts_word(w) {
                let s = choose|s: usize| #[trigger] nfa.reached(w).contains(s) && nfa.is_accepting(s);
                assert(Set::<usize>::empty().contains(s));
            }
        }
    }
}

impl TernaryDFA {
    /// State `c` stands for the set of NFA states reached on some input.
    pub open spec fn label_reached(self, nfa: TernaryNFA, c: int) -> bool {
        exists|w: Seq<Ternary>| #[trigger] nfa.reached(w) == self.label_set(c)
    }

    /// The state of the construction between steps: every state that is neither in the
    /// worklist nor `pending` has its transitions filled in.
    pub open spec fn building(self, nfa: TernaryNFA, worklist: Seq<usize>, pending: int) -> bool {
        &&& self.start == 0
        &&& self.state_labels@.len() >= 1
        &&& self.labels_sound(nfa)
        &&& self.label_set(0) == nfa.eps_closure_of(set![nfa.initial()])
        &&& forall|i: int| 0 <= i < worklist.len() ==> #[trigger] worklist[i] < self.state_labels@.len()
        &&& forall|c: int| 0 <= c < self.state_labels@.len() ==> #[trigger] self.label_reached(nfa, c)
        &&& forall|c: usize|
            c < self.state_labels@.len() && c != pending && !worklist.contains(c) ==> {
                &&& c < self.transitions@.len()
                &&& #[trigger] self.row_follows(nfa, c as int)
            }
    }

    /// State `c` is the target of an entry of a state numbered below it that is done with:
    /// not waiting in the worklist and, for the state being explored (`pending`), one of
    /// its first `filled` columns.
    pub open spec fn has_recorded_parent(self, c: int, worklist: Seq<usize>, pending: int, filled: int) -> bool {
        exists|p: int, k: int|
            #![trigger self.entry(p, k)]
            0 <= p < c && 0 <= k < 3 && p < self.transitions@.len() && !worklist.contains(p as usize)
                && (p == pending ==> k < filled) && self.entry(p, k) == c
    }

    /// Every state but the first has a recorded parent.
    pub open spec fn parents_recorded(self, worklist: Seq<usize>, pending: int, filled: int) -> bool {
        forall|c: int| 1 <= c < self.state_labels@.len() ==> #[trigger] self.has_recorded_parent(c, worklist, pending, filled)
    }

    /// Some entry of a state numbered below `c` leads to `c`.
    pub open spec fn entered_from_below(self, c: int) -> bool {
        exists|p: int, k: int| #![trigger self.entry(p, k)] 0 <= p < c && 0 <= k < 3 && self.entry(p, k) == c
    }

    /// State `c` had been found once the states `proc[0..=i]` were explored: it is the
    /// start, or was found in the row of one of them.
    pub open spec fn found_by(ci: Seq<int>, c: int, i: int) -> bool {
        c == 0 || ci[c] <= i
    }

    /// State `c` is the entry in column `ck[c]` of the `ci[c]`-th explored state.
    pub open spec fn found_at(self, proc: Seq<usize>, ci: Seq<int>, ck: Seq<int>, c: int) -> bool {
        &&& 0 <= ci[c] < proc.len()
        &&& 0 <= ck[c] < 3
        &&& self.entry(proc[ci[c]] as int, ck[c]) == c
    }

    /// The state explored after `proc[i]` is the highest-numbered state found by then and
    /// not explored yet.
    pub open spec fn explored_next(self, proc: Seq<usize>, ci: Seq<int>, i: int) -> bool {
        &&& TernaryDFA::found_by(ci, proc[i + 1] as int, i)
        &&& forall|c: int|
            0 <= c < self.state_labels@.len() && #[trigger] TernaryDFA::found_by(ci, c, i) && !proc.take(i + 1).contains(
                c as usize,
            ) ==> c <= proc[i + 1]
    }

    /// The states were explored in the order `proc`, starting from state 0 and always taking
    /// next the highest-numbered state found and not yet explored; each state but the first
    /// was found in column `ck[c]` of the row of `proc[ci[c]]`; and states are numbered in the
    /// order in which they first appear when the rows are read in that order, each row from
    /// its first column to its last.
    pub open spec fn explored_in_order(self, proc: Seq<usize>, ci: Seq<int>, ck: Seq<int>) -> bool {
        let n = self.state_labels@.len();
        &&& proc.len() == n
        &&& self.exploration(proc, ci, ck, 3)
        &&& forall|i: int| 0 <= i < n - 1 ==> #[trigger] self.explored_next(proc, ci, i)
    }

    /// The exploration so far: `proc` lists the states explored, the last one with its first
    /// `filled` columns read.
    pub open spec fn exploration(self, proc: Seq<usize>, ci: Seq<int>, ck: Seq<int>, filled: int) -> bool {
        let n = self.state_labels@.len();
        let p = proc.len();
        &&& ci.len() == n
        &&& ck.len() == n
        &&& proc.no_duplicates()
        &&& forall|i: int| 0 <= i < p ==> #[trigger] proc[i] < n
        &&& p > 0 ==> proc[0] == 0
        &&& forall|c: int| 1 <= c < n ==> #[trigger] self.found_at(proc, ci, ck, c)
        &&& forall|c: int| 1 <= c < n && #[trigger] ci[c] == p - 1 ==> ck[c] < filled
        &&& forall|c: int, d: int|
            #![trigger ci[c], ci[d]]
            1 <= c < d < n ==> (ci[c] < ci[d] || (ci[c] == ci[d] && ck[c] < ck[d]))
        &&& forall|c: int, i: int, k: int|
            #![trigger self.entry(proc[i] as int, k), ci[c]]
            1 <= c < n && 0 <= i < p && 0 <= k < 3 && (i < ci[c] || (i == ci[c] && k < ck[c]))
                ==> self.entry(proc[i] as int, k) != c
    }

    /// The worklist holds exactly the states not explored yet.
    pub open spec fn worklist_unexplored(self, proc: Seq<usize>, worklist: Seq<usize>) -> bool {
        forall|x: usize| #[trigger] worklist.contains(x) <==> (x < self.state_labels@.len() && !proc.contains(x))
    }

    /// Each explored state but the last was followed by the right one.
    pub open spec fn explored_so_far(self, proc: Seq<usize>, ci: Seq<int>) -> bool {
        forall|i: int| 0 <= i < proc.len() - 1 ==> #[trigger] self.explored_next(proc, ci, i)
    }

    /// Taking the highest state of the worklist to explore next keeps the exploration's
    /// account.
    proof fn lemma_explore_pop(
        self,
        proc: Seq<usize>,
        ci: Seq<int>,
        ck: Seq<int>,
        wl0: Seq<usize>,
        wl: Seq<usize>,
        current: usize,
    )
        requires
            self.exploration(proc, ci, ck, 3),
            self.worklist_unexplored(proc, wl0),
            self.explored_so_far(proc, ci),
            strictly_increasing(wl0),
            wl0 == wl.push(current),
            self.state_labels@.len() >= 1,
        ensures
            self.exploration(proc.push(current), ci, ck, 0),
            self.worklist_unexplored(proc.push(current), wl),
            self.explored_so_far(proc.push(current), ci),
    {
        let n = self.state_labels@.len();
        assert(self.state_labels.len() == n);
        let p = proc.len();
        let np = proc.push(current);
        assert(wl0[wl0.len() - 1] == current);
        assert(wl0.contains(current));
        assert(!proc.contains(current));
        assert(current < n);
        assert forall|x: usize| wl.contains(x) implies x < current by {
            let i = choose|i: int| 0 <= i < wl.len() && wl[i] == x;
            assert(wl0[i] == x);
        }
        assert forall|x: usize| #[trigger] wl.contains(x) <==> (x < n && !np.contains(x)) by {
            if wl.contains(x) {
                let i = choose|i: int| 0 <= i < wl.len() && wl[i] == x;
                assert(wl0[i] == x);
                assert(wl0.contains(x));
                if np.contains(x) {
                    let j = choose|j: int| 0 <= j < np.len() && np[j] == x;
                    if j < p {
                        assert(proc[j] == x);
                    }
                }
            }
            if x < n && !np.contains(x) {
                assert(!proc.contains(x)) by {
                    if proc.contains(x) {
                        let j = choose|j: int| 0 <= j < p && proc[j] == x;
                        assert(np[j] == x);
                    }
                }
                assert(wl0.contains(x));
                let i = choose|i: int| 0 <= i < wl0.len() && wl0[i] == x;
                if i == wl0.len() - 1 {
                    assert(np[p as int] == x);
                } else {
                    assert(wl[i] == x);
                }
            }
        }
        if p == 0 {
            if n >= 2 {
                assert(self.found_at(proc, ci, ck, 1));
            }
            assert(current == 0);
        }
        assert(np.no_duplicates()) by {
            assert forall|i: int, j: int| 0 <= i < np.len() && 0 <= j < np.len() && i != j implies np[i] != np[j] by {
                if i == p {
                    assert(proc.contains(np[j]));
                } else if j == p {
                    assert(proc.contains(np[i]));
                } else {
                    assert(np[i] == proc[i] && np[j] == proc[j]);
                }
            }
        }
        assert forall|c: int| 1 <= c < n implies #[trigger] self.found_at(np, ci, ck, c) by {
            assert(self.found_at(proc, ci, ck, c));
            assert(np[ci[c]] == proc[ci[c]]);
        }
        assert forall|c: int| 1 <= c < n && #[trigger] ci[c] == np.len() - 1 implies ck[c] < 0 by {
            assert(self.found_at(proc, ci, ck, c));
        }
        assert forall|i: int| 0 <= i < np.len() implies #[trigger] np[i] < n by {
            if i < p {
                assert(np[i] == proc[i]);
            }
        }
        assert forall|c: int, i: int, k: int|
            #![trigger self.entry(np[i] as int, k), ci[c]]
            1 <= c < n && 0 <= i < np.len() && 0 <= k < 3 && (i < ci[c] || (i == ci[c] && k < ck[c]))
                implies self.entry(np[i] as int, k) != c by {
            assert(self.found_at(proc, ci, ck, c));
            assert(np[i] == proc[i]);
        }
        assert forall|i: int| 0 <= i < np.len() - 1 implies #[trigger] self.explored_next(np, ci, i) by {
            assert(np.take(i + 1) =~= proc.take(i + 1));
            assert(np[i + 1] == if i + 1 < p { proc[i + 1] } else { current });
            if i + 1 < p {
                assert(self.explored_next(proc, ci, i));
            } else {
                if current != 0 {
                    assert(self.found_at(proc, ci, ck, current as int));
                }
                assert forall|c: int|
                    0 <= c < n && #[trigger] TernaryDFA::found_by(ci, c, i) && !np.take(i + 1).contains(c as usize)
                        implies c <= np[i + 1] by {
                    assert(proc.take(i + 1) =~= proc);
                    assert(!proc.contains(c as usize));
                    assert(wl0.contains(c as usize));
                    let j = choose|j: int| 0 <= j < wl0.len() && wl0[j] == c as usize;
                    if j < wl0.len() - 1 {
                        assert(wl0[j] < wl0[wl0.len() - 1]);
                    }
                }
            }
        }
    }

    /// Changing no entry that the exploration has read keeps its account.
    proof fn lemma_explore_frame(self, other: TernaryDFA, proc: Seq<usize>, ci: Seq<int>, ck: Seq<int>, filled: int)
        requires
            self.exploration(proc, ci, ck, filled),
            self.explored_so_far(proc, ci),
            other.state_labels@.len() == self.state_labels@.len(),
            0 <= filled <= 3,
            forall|i: int, k: int|
                0 <= i < proc.len() && 0 <= k < 3 && (i < proc.len() - 1 || k < filled) ==> #[trigger] other.entry(
                    proc[i] as int,
                    k,
                ) == self.entry(proc[i] as int, k),
        ensures
            other.exploration(proc, ci, ck, filled),
            other.explored_so_far(proc, ci),
    {
        let n = self.state_labels@.len();
        assert forall|c: int| 1 <= c < n implies #[trigger] other.found_at(proc, ci, ck, c) by {
            assert(self.found_at(proc, ci, ck, c));
            assert(other.entry(proc[ci[c]] as int, ck[c]) == self.entry(proc[ci[c]] as int, ck[c]));
        }
        assert forall|c: int, i: int, k: int|
            #![trigger other.entry(proc[i] as int, k), ci[c]]
            1 <= c < n && 0 <= i < proc.len() && 0 <= k < 3 && (i < ci[c] || (i == ci[c] && k < ck[c]))
                implies other.entry(proc[i] as int, k) != c by {
            assert(self.found_at(proc, ci, ck, c));
            assert(other.entry(proc[i] as int, k) == self.entry(proc[i] as int, k));
        }
        assert forall|i: int| 0 <= i < proc.len() - 1 implies #[trigger] other.explored_next(proc, ci, i) by {
            assert(self.explored_next(proc, ci, i));
        }
    }

    /// A state found in column `k` of the state being explored is numbered after every state
    /// found before it and is new to every entry read before it.
    proof fn lemma_explore_found(
        self,
        before: TernaryDFA,
        proc: Seq<usize>,
        ci: Seq<int>,
        ck: Seq<int>,
        k: int,
        wl_before: Seq<usize>,
        wl_after: Seq<usize>,
    )
        requires
            before.exploration(proc, ci, ck, k),
            before.explored_so_far(proc, ci),
            before.worklist_unexplored(proc, wl_before),
            proc.len() >= 1,
            0 <= k < 3,
            self.state_labels@.len() == before.state_labels@.len() + 1,
            self.entry(proc[proc.len() - 1] as int, k) == before.state_labels@.len(),
            forall|i: int, kk: int|
                0 <= i < proc.len() && 0 <= kk < 3 && (i < proc.len() - 1 || kk < k) ==> #[trigger] self.entry(
                    proc[i] as int,
                    kk,
                ) == before.entry(proc[i] as int, kk) && (before.entry(proc[i] as int, kk) == usize::MAX
                    || before.entry(proc[i] as int, kk) < before.state_labels@.len()),
            wl_after == wl_before.push(before.state_labels@.len() as usize),
        ensures
            self.exploration(proc, ci.push(proc.len() - 1), ck.push(k), k + 1),
            self.explored_so_far(proc, ci.push(proc.len() - 1)),
            self.worklist_unexplored(proc, wl_after),
    {
        let n0 = before.state_labels@.len();
        let p = proc.len();
        let ci2 = ci.push(p - 1);
        let ck2 = ck.push(k);
        assert(self.state_labels.len() == self.state_labels@.len());
        assert forall|c: int| 1 <= c < n0 + 1 implies #[trigger] self.found_at(proc, ci2, ck2, c) by {
            if c < n0 {
                assert(before.found_at(proc, ci, ck, c));
                assert(ci2[c] == ci[c] && ck2[c] == ck[c]);
                if ci[c] == p - 1 {
                    assert(ck[c] < k);
                }
                assert(self.entry(proc[ci[c]] as int, ck[c]) == before.entry(proc[ci[c]] as int, ck[c]));
            } else {
                assert(ci2[c] == p - 1 && ck2[c] == k);
            }
        }
        assert forall|c: int| 1 <= c < n0 + 1 && #[trigger] ci2[c] == p - 1 implies ck2[c] < k + 1 by {
            if c < n0 {
                assert(ci2[c] == ci[c] && ck2[c] == ck[c]);
            }
        }
        assert forall|c: int, d: int|
            #![trigger ci2[c], ci2[d]]
            1 <= c < d < n0 + 1 implies (ci2[c] < ci2[d] || (ci2[c] == ci2[d] && ck2[c] < ck2[d])) by {
            assert(ci2[c] == ci[c] && ck2[c] == ck[c]);
            assert(before.found_at(proc, ci, ck, c));
            if d < n0 {
                assert(ci2[d] == ci[d] && ck2[d] == ck[d]);
            } else {
                if ci[c] == p - 1 {
                    assert(ck[c] < k);
                }
            }
        }
        assert forall|c: int, i: int, kk: int|
            #![trigger self.entry(proc[i] as int, kk), ci2[c]]
            1 <= c < n0 + 1 && 0 <= i < p && 0 <= kk < 3 && (i < ci2[c] || (i == ci2[c] && kk < ck2[c]))
                implies self.entry(proc[i] as int, kk) != c by {
            if c < n0 {
                assert(ci2[c] == ci[c] && ck2[c] == ck[c]);
                assert(before.found_at(proc, ci, ck, c));
                if ci[c] == p - 1 {
                    assert(ck[c] < k);
                }
                assert(self.entry(proc[i] as int, kk) == before.entry(proc[i] as int, kk));
            } else {
                assert(self.entry(proc[i] as int, kk) == before.entry(proc[i] as int, kk));
            }
        }
        assert(self.exploration(proc, ci2, ck2, k + 1));
        assert forall|i: int| 0 <= i < p - 1 implies #[trigger] self.explored_next(proc, ci2, i) by {
            assert(before.explored_next(proc, ci, i));
            assert(proc[i + 1] < n0);
            assert(ci2[proc[i + 1] as int] == ci[proc[i + 1] as int]);
            assert forall|c: int|
                0 <= c < n0 + 1 && #[trigger] TernaryDFA::found_by(ci2, c, i) && !proc.take(i + 1).contains(c as usize)
                    implies c <= proc[i + 1] by {
                if c < n0 {
                    assert(ci2[c] == ci[c]);
                    assert(TernaryDFA::found_by(ci, c, i));
                } else {
                    assert(ci2[c] == p - 1);
                }
            }
        }
        assert forall|x: usize| #[trigger] wl_after.contains(x) <==> (x < n0 + 1 && !proc.contains(x)) by {
            if wl_after.contains(x) {
                let j = choose|j: int| 0 <= j < wl_after.len() && wl_after[j] == x;
                if j < wl_before.len() {
                    assert(wl_before[j] == x);
                    assert(wl_before.contains(x));
                } else {
                    assert(x == n0);
                    if proc.contains(x) {
                        let i = choose|i: int| 0 <= i < p && proc[i] == x;
                    }
                }
            }
            if x < n0 + 1 && !proc.contains(x) {
                if x < n0 {
                    assert(wl_before.contains(x));
                    let j = choose|j: int| 0 <= j < wl_before.len() && wl_before[j] == x;
                    assert(wl_after[j] == x);
                } else {
                    assert(wl_after[wl_before.len() as int] == x);
                }
            }
        }
    }

    /// A row that follows the construction has only missing moves and states in it.
    proof fn lemma_row_in_range(self, nfa: TernaryNFA, c: int)
        requires
            self.row_follows(nfa, c),
        ensures
            forall|k: int| 0 <= k < 3 ==> #[trigger] self.entry(c, k) == usize::MAX || self.entry(c, k)
                < self.state_labels@.len(),
    {
        assert(self.entry_follows(nfa, c, Ternary::Neg));
        assert(self.entry_follows(nfa, c, Ternary::Zero));
        assert(self.entry_follows(nfa, c, Ternary::Pos));
        assert(tindex(Ternary::Neg) == 0 && tindex(Ternary::Zero) == 1 && tindex(Ternary::Pos) == 2);
    }

    /// A transition that followed the construction still does once states are appended.
    proof fn lemma_entry_kept(self, old_dfa: TernaryDFA, nfa: TernaryNFA, c: int, val: Ternary)
        requires
            old_dfa.entry_follows(nfa, c, val),
            0 <= c < old_dfa.state_labels@.len(),
            old_dfa.state_labels@.len() <= self.state_labels@.len(),
            forall|d: int| 0 <= d < old_dfa.state_labels@.len() ==> #[trigger] self.state_labels@[d] == old_dfa.state_labels@[d],
            self.entry(c, tindex(val)) == old_dfa.entry(c, tindex(val)),
        ensures
            self.entry_follows(nfa, c, val),
    {
        assert(self.state_labels@[c] == old_dfa.state_labels@[c]);
        let e = old_dfa.entry(c, tindex(val));
        if e != usize::MAX && e < old_dfa.state_labels@.len() {
            assert(self.state_labels@[e as int] == old_dfa.state_labels@[e as int]);
        }
    }

    /// A row that followed the construction still does once states are appended.
    proof fn lemma_row_kept(self, old_dfa: TernaryDFA, nfa: TernaryNFA, c: int)
        requires
            old_dfa.row_follows(nfa, c),
            0 <= c < old_dfa.state_labels@.len(),
            c < old_dfa.transitions@.len(),
            old_dfa.state_labels@.len() <= self.state_labels@.len(),
            forall|d: int| 0 <= d < old_dfa.state_labels@.len() ==> #[trigger] self.state_labels@[d] == old_dfa.state_labels@[d],
            self.transitions@[c] == old_dfa.transitions@[c],
        ensures
            self.row_follows(nfa, c),
    {
        self.lemma_entry_kept(old_dfa, nfa, c, Ternary::Neg);
        self.lemma_entry_kept(old_dfa, nfa, c, Ternary::Zero);
        self.lemma_entry_kept(old_dfa, nfa, c, Ternary::Pos);
    }
}

impl TernaryDFA {
    /// In a subset DFA whose labels are all reached sets, each label is epsilon-closed and
    /// each state is reached by reading an input from the start.
    proof fn lemma_labels_closed_reachable(self, nfa: TernaryNFA)
        requires
            nfa.runnable(),
            self.is_subset_dfa_of(nfa),
            forall|c: int| 0 <= c < self.state_labels@.len() ==> #[trigger] self.label_reached(nfa, c),
        ensures
            forall|c: int| 0 <= c < self.state_labels@.len() ==> #[trigger] nfa.eps_closure_of(self.label_set(c))
                == self.label_set(c),
            forall|c: int| 0 <= c < self.state_labels@.len() ==> #[trigger] self.state_reachable(c),
    {
        assert forall|c: int| 0 <= c < self.state_labels@.len() implies #[trigger] nfa.eps_closure_of(self.label_set(c))
            == self.label_set(c) by {
            assert(self.label_reached(nfa, c));
            let w = choose|w: Seq<Ternary>| #[trigger] nfa.reached(w) == self.label_set(c);
            if w.len() == 0 {
                nfa.lemma_closure_idempotent(set![nfa.initial()]);
            } else {
                nfa.lemma_closure_idempotent(nfa.step(nfa.reached(w.drop_last()), w.last()));
            }
        }
        assert forall|c: int| 0 <= c < self.state_labels@.len() implies #[trigger] self.state_reachable(c) by {
            assert(self.label_reached(nfa, c));
            let w = choose|w: Seq<Ternary>| #[trigger] nfa.reached(w) == self.label_set(c);
            assert(self.state_labels@[c]@.len() > 0);
            assert(self.label_set(c).contains(self.state_labels@[c]@[0]));
            self.lemma_subset_run(nfa, w);
            let c2 = self.run_from(self.start, w).unwrap();
            assert(strictly_increasing(self.state_labels@[c]@));
            assert(strictly_increasing(self.state_labels@[c2 as int]@));
            lemma_sorted_same_set(self.state_labels@[c2 as int]@, self.state_labels@[c]@);
            if c2 < c {
                assert(self.state_labels@[c2 as int]@ != self.state_labels@[c]@);
            } else if c < c2 {
                assert(self.state_labels@[c]@ != self.state_labels@[c2 as int]@);
            }
            assert(self.run_from(self.start, w) == Some(c as usize));
        }
    }
}

/// From the single chain state `i`, one move on `v` reaches `i + 1` when `elems[i]`
/// accepts `v`, and nothing otherwise.
proof fn lemma_chain_move(nfa: TernaryNFA, elems: Seq<PatternElem>, i: usize, v: Ternary)
    requires
        nfa.is_chain_of(elems),
        i <= elems.len(),
    ensures
        subset_move(nfa, set![i], v) == (if i < elems.len() && elem_accepts(elems[i as int], v) {
            set![(i + 1) as usize]
        } else {
            Set::<usize>::empty()
        }),
{
    let st = nfa.step(set![i], v);
    nfa.lemma_closure_no_eps(st);
    if i < elems.len() {
        assert(nfa.arcs(i as int)[0] == (elems[i as int], (i + 1) as usize));
    }
    if i < elems.len() && elem_accepts(elems[i as int], v) {
        assert(nfa.arcs(i as int).len() == 1);
        assert(elem_accepts(nfa.arcs(i as int)[0].0, v));
        assert(nfa.arc_on(i, v, (i + 1) as usize));
        assert forall|t: usize| st.contains(t) <==> t == (i + 1) as usize by {
            if st.contains(t) {
                let q = choose|q: usize| set![i].contains(q) && #[trigger] nfa.arc_on(q, v, t);
                assert(q == i);
                let x = choose|x: int|
                    0 <= x < nfa.arcs(q as int).len() && elem_accepts(#[trigger] nfa.arcs(q as int)[x].0, v)
                        && nfa.arcs(q as int)[x].1 == t;
            }
            if t == (i + 1) as usize {
                assert(set![i].contains(i));
            }
        }
        assert(st =~= set![(i + 1) as usize]);
    } else {
        assert forall|t: usize| !st.contains(t) by {
            if st.contains(t) {
                let q = choose|q: usize| set![i].contains(q) && #[trigger] nfa.arc_on(q, v, t);
                assert(q == i);
                let x = choose|x: int|
                    0 <= x < nfa.arcs(q as int).len() && elem_accepts(#[trigger] nfa.arcs(q as int)[x].0, v)
                        && nfa.arcs(q as int)[x].1 == t;
            }
        }
        assert(st =~= Set::<usize>::empty());
    }
}

impl TernaryDFA {
    /// The chain position that state `c` stands for, when its label is a single state.
    spec fn chain_pos(self, c: int) -> usize {
        self.state_labels@[c]@[0]
    }

    /// In the subset DFA of a chain, every state stands for exactly one chain position.
    proof fn lemma_chain_labels(self, nfa: TernaryNFA, elems: Seq<PatternElem>, c: int)
        requires
            nfa.runnable(),
            nfa.is_chain_of(elems),
            self.is_subset_dfa_of(nfa),
            0 <= c < self.state_labels@.len(),
            self.label_reached(nfa, c),
        ensures
            self.chain_pos(c) <= elems.len(),
            self.label_set(c) == set![self.chain_pos(c)],
            self.state_labels@[c]@ == seq![self.chain_pos(c)],
    {
        let w = choose|w: Seq<Ternary>| #[trigger] nfa.reached(w) == self.label_set(c);
        nfa.lemma_chain_reached(elems, w);
        assert(self.state_labels@[c]@.len() > 0);
        assert(self.label_set(c).contains(self.state_labels@[c]@[0]));
        let j = w.len() as usize;
        assert(self.label_set(c) == set![j]);
        let one = seq![j];
        assert(one.to_set() =~= set![j]) by {
            assert(one[0] == j);
            assert(one.contains(j));
        }
        assert(strictly_increasing(one));
        lemma_sorted_same_set(self.state_labels@[c]@, one);
    }

    /// Every chain position has a state of the subset DFA standing for it.
    proof fn lemma_chain_covered(self, nfa: TernaryNFA, elems: Seq<PatternElem>, j: usize)
        requires
            nfa.runnable(),
            nfa.is_chain_of(elems),
            self.is_subset_dfa_of(nfa),
            forall|c: int| 0 <= c < self.state_labels@.len() ==> #[trigger] self.label_reached(nfa, c),
            j <= elems.len(),
        ensures
            exists|c: int| 0 <= c < self.state_labels@.len() && #[trigger] self.chain_pos(c) == j,
        decreases j,
    {
        if j == 0 {
            nfa.lemma_closure_no_eps(set![0usize]);
            self.lemma_chain_labels(nfa, elems, 0);
            assert(self.label_set(0).contains(self.chain_pos(0)));
            assert(self.chain_pos(0) == j);
        } else {
            let i = (j - 1) as usize;
            self.lemma_chain_covered(nfa, elems, i);
            let c = choose|c: int| 0 <= c < self.state_labels@.len() && #[trigger] self.chain_pos(c) == i;
            self.lemma_chain_labels(nfa, elems, c);
            let v = accepted_value(elems[i as int]);
            assert(elem_accepts(elems[i as int], v));
            lemma_chain_move(nfa, elems, i, v);
            assert(self.row_follows(nfa, c));
            assert(self.entry_follows(nfa, c, v));
            let e = self.entry(c, tindex(v));
            assert(set![j].contains(j));
            self.lemma_chain_labels(nfa, elems, e as int);
            assert(self.label_set(e as int).contains(self.chain_pos(e as int)));
            assert(self.chain_pos(e as int) == j);
        }
    }

    /// States standing for different chain positions are told apart by some input.
    proof fn lemma_chain_apart(self, nfa: TernaryNFA, elems: Seq<PatternElem>, c: int, d: int)
        requires
            nfa.runnable(),
            nfa.is_chain_of(elems),
            self.is_subset_dfa_of(nfa),
            forall|x: int| 0 <= x < self.state_labels@.len() ==> #[trigger] self.label_reached(nfa, x),
            0 <= c < self.state_labels@.len(),
            0 <= d < self.state_labels@.len(),
            self.chain_pos(c) < self.chain_pos(d),
        ensures
            !self.agree_within(c, d, (elems.len() - self.chain_pos(c)) as nat),
        decreases elems.len() - self.chain_pos(c),
    {
        nfa.lemma_size_fits();
        self.lemma_chain_labels(nfa, elems, c);
        self.lemma_chain_labels(nfa, elems, d);
        let i = self.chain_pos(c);
        let j = self.chain_pos(d);
        let k = (elems.len() - i) as nat;
        let v = accepted_value(elems[i as int]);
        assert(elem_accepts(elems[i as int], v));
        lemma_chain_move(nfa, elems, i, v);
        lemma_chain_move(nfa, elems, j, v);
        assert(self.row_follows(nfa, c));
        assert(self.row_follows(nfa, d));
        assert(self.entry_follows(nfa, c, v));
        assert(self.entry_follows(nfa, d, v));
        let col = tindex(v);
        assert(self.dest(c, col) == self.entry(c, col));
        assert(self.dest(d, col) == self.entry(d, col));
        assert(set![(i + 1) as usize].contains((i + 1) as usize));
        let c2 = self.entry(c, col) as int;
        self.lemma_chain_labels(nfa, elems, c2);
        assert(self.label_set(c2).contains(self.chain_pos(c2)));
        if self.entry(d, col) != usize::MAX {
            let d2 = self.entry(d, col) as int;
            assert(set![(j + 1) as usize].contains((j + 1) as usize));
            self.lemma_chain_labels(nfa, elems, d2);
            assert(self.label_set(d2).contains(self.chain_pos(d2)));
            self.lemma_chain_apart(nfa, elems, c2, d2);
            assert(!self.column_agrees(c, d, col, (k - 1) as nat));
        } else {
            assert(!self.column_agrees(c, d, col, (k - 1) as nat));
        }
    }

    /// Numbered by discovery, the subset DFA of a chain has its states in chain order.
    proof fn lemma_chain_pos_is_index(self, nfa: TernaryNFA, elems: Seq<PatternElem>, c: int)
        requires
            nfa.runnable(),
            nfa.is_chain_of(elems),
            self.is_subset_dfa_of(nfa),
            forall|x: int| 0 <= x < self.state_labels@.len() ==> #[trigger] self.label_reached(nfa, x),
            forall|x: int| 1 <= x < self.state_labels@.len() ==> #[trigger] self.entered_from_below(x),
            0 <= c < self.state_labels@.len(),
        ensures
            self.chain_pos(c) == c,
        decreases c,
    {
        self.lemma_chain_labels(nfa, elems, c);
        if c == 0 {
            nfa.lemma_closure_no_eps(set![0usize]);
            assert(self.label_set(0).contains(self.chain_pos(0)));
        } else {
            assert(self.entered_from_below(c));
            let (p, k) = choose|p: int, k: int| #![trigger self.entry(p, k)] 0 <= p < c && 0 <= k < 3 && self.entry(p, k) == c;
            self.lemma_chain_pos_is_index(nfa, elems, p);
            self.lemma_chain_labels(nfa, elems, p);
            let v = if k == 0 {
                Ternary::Neg
            } else if k == 1 {
                Ternary::Zero
            } else {
                Ternary::Pos
            };
            assert(tindex(v) == k);
            assert(self.row_follows(nfa, p));
            assert(self.entry_follows(nfa, p, v));
            lemma_chain_move(nfa, elems, p as usize, v);
            assert(self.state_labels.len() == self.state_labels@.len());
            assert(self.entry(p, tindex(v)) != usize::MAX);
            assert(self.label_set(p) == set![p as usize]);
            assert(subset_move(nfa, self.label_set(p), v) != Set::<usize>::empty());
            assert(self.label_set(c) == set![(p + 1) as usize]);
            assert(set![(p + 1) as usize].contains((p + 1) as usize));
            assert(self.label_set(c).contains(self.chain_pos(c)));
            assert(self.chain_pos(c) == p + 1);
            if p + 1 < c {
                self.lemma_chain_pos_is_index(nfa, elems, p + 1);
                self.lemma_chain_labels(nfa, elems, p + 1);
                assert(self.state_labels@[p + 1]@ == self.state_labels@[c]@);
            }
        }
    }

    /// Subset construction, numbering states as it finds them, lays the chain automaton of
    /// a pattern out in chain order: state `i` stands for chain state `i`, accepts exactly
    /// when it is the last, and moves to `i + 1` on the values `elems[i]` accepts and
    /// nowhere on the others. Some input tells any two of its states apart.
    pub proof fn lemma_chain_numbering(self, nfa: TernaryNFA, elems: Seq<PatternElem>)
        requires
            nfa.runnable(),
            nfa.is_chain_of(elems),
            self.is_subset_dfa_of(nfa),
            forall|x: int| 0 <= x < self.state_labels@.len() ==> #[trigger] self.label_reached(nfa, x),
            forall|x: int| 1 <= x < self.state_labels@.len() ==> #[trigger] self.entered_from_below(x),
        ensures
            self.state_labels@.len() == elems.len() + 1,
            forall|c: int, d: int|
                0 <= c < self.state_labels@.len() && 0 <= d < self.state_labels@.len() && c != d
                    ==> #[trigger] self.distinguishable(c, d),
            forall|c: int| 0 <= c <= elems.len() ==> #[trigger] self.state_labels@[c]@ == seq![c as usize],
            forall|c: int| 0 <= c <= elems.len() ==> (#[trigger] self.accept@[c] <==> c == elems.len()),
            forall|c: int, v: Ternary| 0 <= c <= elems.len() ==> #[trigger] self.entry(c, tindex(v)) == (
            if c < elems.len() && elem_accepts(elems[c], v) {
                (c + 1) as usize
            } else {
                usize::MAX
            }),
    {
        self.lemma_chain_subset(nfa, elems);
        assert forall|c: int| 0 <= c <= elems.len() implies #[trigger] self.state_labels@[c]@ == seq![c as usize] by {
            self.lemma_chain_pos_is_index(nfa, elems, c);
            self.lemma_chain_labels(nfa, elems, c);
        }
        assert forall|c: int| 0 <= c <= elems.len() implies (#[trigger] self.accept@[c] <==> c == elems.len()) by {
            self.lemma_chain_pos_is_index(nfa, elems, c);
            self.lemma_chain_labels(nfa, elems, c);
            assert(self.accept@[c] == any_accepting(nfa, self.label_set(c)));
            if any_accepting(nfa, self.label_set(c)) {
                let s = choose|s: usize| self.label_set(c).contains(s) && #[trigger] nfa.is_accepting(s);
            }
            if c == elems.len() {
                assert(self.label_set(c).contains(c as usize));
                assert(nfa.is_accepting(c as usize));
            }
        }
        assert forall|c: int, v: Ternary| 0 <= c <= elems.len() implies #[trigger] self.entry(c, tindex(v)) == (
        if c < elems.len() && elem_accepts(elems[c], v) {
            (c + 1) as usize
        } else {
            usize::MAX
        }) by {
            self.lemma_chain_pos_is_index(nfa, elems, c);
            self.lemma_chain_labels(nfa, elems, c);
            assert(self.row_follows(nfa, c));
            assert(self.entry_follows(nfa, c, v));
            lemma_chain_move(nfa, elems, c as usize, v);
            if c < elems.len() && elem_accepts(elems[c], v) {
                let e = self.entry(c, tindex(v)) as int;
                assert(set![(c + 1) as usize].contains((c + 1) as usize));
                self.lemma_chain_labels(nfa, elems, e);
                assert(self.label_set(e).contains(self.chain_pos(e)));
                self.lemma_chain_pos_is_index(nfa, elems, e);
            }
        }
    }

    /// The subset DFA of the chain of `elems` has one state per chain position, any two of
    /// them told apart by some input, and exactly one accepting state.
    pub(crate) proof fn lemma_chain_subset(self, nfa: TernaryNFA, elems: Seq<PatternElem>)
        requires
            nfa.runnable(),
            nfa.is_chain_of(elems),
            self.is_subset_dfa_of(nfa),
            forall|c: int| 0 <= c < self.state_labels@.len() ==> #[trigger] self.label_reached(nfa, c),
        ensures
            self.state_labels@.len() == elems.len() + 1,
            forall|c: int, d: int|
                0 <= c < self.state_labels@.len() && 0 <= d < self.state_labels@.len() && c != d
                    ==> #[trigger] self.distinguishable(c, d),
            exists|a: int| #[trigger] self.only_accepting(a),
    {
        nfa.lemma_size_fits();
        let n = self.state_labels@.len();
        let m = elems.len();
        assert forall|c: int| 0 <= c < n implies #[trigger] self.chain_pos(c) <= m
            && self.state_labels@[c]@ == seq![self.chain_pos(c)] by {
            self.lemma_chain_labels(nfa, elems, c);
        }
        // distinct positions
        assert forall|c: int, d: int| 0 <= c < n && 0 <= d < n && c != d implies
            #[trigger] self.chain_pos(c) != #[trigger] self.chain_pos(d) by {
            if c < d {
                assert(self.state_labels@[c]@ != self.state_labels@[d]@);
            } else {
                assert(self.state_labels@[d]@ != self.state_labels@[c]@);
            }
            if self.chain_pos(c) == self.chain_pos(d) {
                assert(self.state_labels@[c]@ == self.state_labels@[d]@);
            }
        }
        let pos = Seq::new(n, |c: int| self.chain_pos(c) as int);
        assert forall|a: int, b: int| 0 <= a < b < pos.len() implies pos[a] != pos[b] by {
            assert(self.chain_pos(a) != self.chain_pos(b));
        }
        lemma_distinct_ints_bounded(pos, 0, (m + 1) as int);
        let wit = Seq::new((m + 1) as nat, |j: int| choose|c: int| 0 <= c < n && #[trigger] self.chain_pos(c) == j as usize);
        assert forall|j: int| 0 <= j < wit.len() implies 0 <= #[trigger] wit[j] < n && self.chain_pos(wit[j]) == j as usize by {
            self.lemma_chain_covered(nfa, elems, j as usize);
        }
        assert forall|a: int, b: int| 0 <= a < b < wit.len() implies wit[a] != wit[b] by {
            assert(self.chain_pos(wit[a]) == a as usize);
            assert(self.chain_pos(wit[b]) == b as usize);
        }
        lemma_distinct_ints_bounded(wit, 0, n as int);
        assert forall|c: int, d: int|
            0 <= c < n && 0 <= d < n && c != d implies #[trigger] self.distinguishable(c, d) by {
            assert(self.chain_pos(c) != self.chain_pos(d));
            if self.chain_pos(c) < self.chain_pos(d) {
                self.lemma_chain_apart(nfa, elems, c, d);
                assert(!self.agree_within(c, d, (m - self.chain_pos(c)) as nat));
            } else {
                self.lemma_chain_apart(nfa, elems, d, c);
                self.lemma_agree_symmetric(d, c, (m - self.chain_pos(d)) as nat);
                assert(!self.agree_within(c, d, (m - self.chain_pos(d)) as nat));
            }
        }
        let a = wit[m as int];
        assert(0 <= a < n && self.chain_pos(a) == m as usize);
        assert forall|c: int| 0 <= c < n implies (#[trigger] self.accept@[c] <==> c == a) by {
            self.lemma_chain_labels(nfa, elems, c);
            assert(self.accept@[c] == any_accepting(nfa, self.label_set(c)));
            if any_accepting(nfa, self.label_set(c)) {
                let s = choose|s: usize| self.label_set(c).contains(s) && #[trigger] nfa.is_accepting(s);
                assert(s == self.chain_pos(c));
            }
            if c == a {
                assert(self.label_set(c).contains(self.chain_pos(c)));
                assert(nfa.is_accepting(self.chain_pos(c)));
            }
        }
        assert(self.only_accepting(a));
    }
}

/// The labels of a DFA as plain sequences.
spec fn label_seqs(labels: Seq<Vec<usize>>) -> Seq<Seq<usize>> {
    labels.map_values(|l: Vec<usize>| l@)
}

/// Fill in the transition of state `cur_idx` on `val`, adding a new state (and queueing it)
/// when the set of NFA states reached is new.
fn explore(
    dfa: &mut TernaryDFA,
    nfa: &TernaryNFA,
    cur: &Vec<usize>,
    cur_idx: usize,
    val: Ternary,
    worklist: &mut Vec<usize>,
)
    requires
        nfa.runnable(),
        old(dfa).building(*nfa, old(worklist)@, cur_idx as int),
        old(dfa).transitions@.len() == old(dfa).state_labels@.len(),
        cur_idx < old(dfa).state_labels@.len(),
        cur@ == old(dfa).state_labels@[cur_idx as int]@,
        old(dfa).state_labels@.len() <= pow2(nfa.size()),
    ensures
        final(dfa).building(*nfa, final(worklist)@, cur_idx as int),
        final(dfa).transitions@.len() == final(dfa).state_labels@.len(),
        old(dfa).state_labels@.len() <= final(dfa).state_labels@.len() <= pow2(nfa.size()),
        forall|d: int| 0 <= d < old(dfa).state_labels@.len() ==> #[trigger] final(dfa).state_labels@[d]
            == old(dfa).state_labels@[d],
        forall|d: int| 0 <= d < old(dfa).transitions@.len() && d != cur_idx ==> #[trigger] final(dfa).transitions@[d]
            == old(dfa).transitions@[d],
        final(dfa).entry_follows(*nfa, cur_idx as int, val),
        forall|k: int| 0 <= k < 3 && k != tindex(val) ==> #[trigger] final(dfa).entry(cur_idx as int, k)
            == old(dfa).entry(cur_idx as int, k),
        4 * (pow2(nfa.size()) - final(dfa).state_labels@.len()) + final(worklist)@.len() <= 4 * (pow2(
            nfa.size(),
        ) - old(dfa).state_labels@.len()) + old(worklist)@.len(),
        final(dfa).state_labels@.len() <= old(dfa).state_labels@.len() + 1,
        final(worklist)@ == (if final(dfa).state_labels@.len() == old(dfa).state_labels@.len() {
            old(worklist)@
        } else {
            old(worklist)@.push(old(dfa).state_labels@.len() as usize)
        }),
        final(dfa).state_labels@.len() > old(dfa).state_labels@.len() ==> final(dfa).entry(cur_idx as int, tindex(val))
            == old(dfa).state_labels@.len(),
{
    let idx = ternary_index(val);
    let moved = nfa.move_on(cur.as_slice(), val);
    assert(old(dfa).label_reached(*nfa, cur_idx as int));
    let ghost w = choose|w: Seq<Ternary>| #[trigger] nfa.reached(w) == old(dfa).label_set(cur_idx as int);
    proof {
        assert(w.push(val).drop_last() =~= w);
        assert(nfa.eps_closure_of(moved@.to_set()) == nfa.reached(w.push(val)));
    }
    let closure = nfa.epsilon_closure(moved.as_slice());
    let ghost next = subset_move(*nfa, dfa.label_set(cur_idx as int), val);
    assert(closure@.to_set() == next);
    if closure.len() == 0 {
        // Dead state
        assert(closure@.to_set() =~= Set::<usize>::empty());
        let mut row = dfa.transitions[cur_idx];
        row[idx] = usize::MAX;
        dfa.transitions.set(cur_idx, row);
        assert(dfa.entry_follows(*nfa, cur_idx as int, val));
        assert forall|c: int| 0 <= c < dfa.state_labels@.len() implies #[trigger] dfa.label_reached(*nfa, c) by {
            assert(old(dfa).label_reached(*nfa, c));
            assert(dfa.label_set(c) == old(dfa).label_set(c));
        }
        assert forall|c: usize|
            c < dfa.state_labels@.len() && c != cur_idx && !worklist@.contains(c) implies {
                &&& c < dfa.transitions@.len()
                &&& #[trigger] dfa.row_follows(*nfa, c as int)
            } by {
            dfa.lemma_row_kept(*old(dfa), *nfa, c as int);
        }
        return;
    }
    match find_label(&dfa.state_labels, &closure) {
        Some(existing) => {
            let mut row = dfa.transitions[cur_idx];
            row[idx] = existing;
            dfa.transitions.set(cur_idx, row);
            assert(dfa.state_labels.len() == dfa.state_labels@.len());
            assert(closure@.to_set().contains(closure@[0]));
            assert(dfa.label_set(existing as int) == closure@.to_set());
            assert(dfa.entry_follows(*nfa, cur_idx as int, val));
            assert forall|c: int| 0 <= c < dfa.state_labels@.len() implies #[trigger] dfa.label_reached(*nfa, c) by {
                assert(old(dfa).label_reached(*nfa, c));
                assert(dfa.label_set(c) == old(dfa).label_set(c));
            }
            assert forall|c: usize|
                c < dfa.state_labels@.len() && c != cur_idx && !worklist@.contains(c) implies {
                    &&& c < dfa.transitions@.len()
                    &&& #[trigger] dfa.row_follows(*nfa, c as int)
                } by {
                dfa.lemma_row_kept(*old(dfa), *nfa, c as int);
            }
        },
        None => {
            let ghost old_labels = dfa.state_labels@;
            let new_idx = dfa.state_labels.len();
            assert(nfa.flags_cover(nfa.reached(w.push(val))));
            let accepting = has_accepting(nfa, &closure);
            dfa.state_labels.push(closure);
            assert(dfa.state_labels.len() == dfa.state_labels@.len());
            dfa.accept.push(accepting);
            dfa.transitions.push([0, 0, 0]);
            let mut row = dfa.transitions[cur_idx];
            row[idx] = new_idx;
            dfa.transitions.set(cur_idx, row);
            worklist.push(new_idx);
            proof {
                assert(dfa.state_labels@[new_idx as int]@ == closure@);
                assert forall|d: int| 0 <= d < old_labels.len() implies #[trigger] dfa.state_labels@[d] == old_labels[d] by {
                }
                assert(dfa.labels_sound(*nfa)) by {
                    assert forall|c: int, d: int| 0 <= c < d < dfa.state_labels@.len()
                        implies dfa.state_labels@[c]@ != dfa.state_labels@[d]@ by {
                        if d == new_idx {
                            assert(old_labels[c]@ != closure@);
                        }
                    }
                    assert forall|c: int| 0 <= c < dfa.state_labels@.len() implies #[trigger] dfa.accept@[c]
                        == any_accepting(*nfa, dfa.label_set(c)) by {
                        if c < new_idx {
                            assert(dfa.accept@[c] == old(dfa).accept@[c]);
                            assert(dfa.label_set(c) == old(dfa).label_set(c));
                        }
                    }
                }
                let seqs = label_seqs(dfa.state_labels@);
                assert forall|i: int| 0 <= i < seqs.len() implies strictly_increasing(#[trigger] seqs[i]) by {
                    assert(strictly_increasing(dfa.state_labels@[i]@));
                }
                assert forall|i: int| 0 <= i < seqs.len() implies all_below(#[trigger] seqs[i], nfa.size() as int) by {
                    assert(all_below(dfa.state_labels@[i]@, nfa.size() as int));
                }
                assert forall|i: int, j: int| 0 <= i < j < seqs.len() implies seqs[i] != seqs[j] by {
                    assert(dfa.state_labels@[i]@ != dfa.state_labels@[j]@);
                }
                lemma_distinct_subsets_bounded(seqs, nfa.size());
                assert forall|c: int| 0 <= c < dfa.state_labels@.len() implies #[trigger] dfa.label_reached(*nfa, c) by {
                    if c < new_idx {
                        assert(old(dfa).label_reached(*nfa, c));
                        assert(dfa.label_set(c) == old(dfa).label_set(c));
                    } else {
                        assert(nfa.reached(w.push(val)) == dfa.label_set(c));
                    }
                }
                assert(closure@.to_set().contains(closure@[0]));
                assert(dfa.entry_follows(*nfa, cur_idx as int, val));
                assert forall|c: usize|
                    c < dfa.state_labels@.len() && c != cur_idx && !worklist@.contains(c) implies {
                        &&& c < dfa.transitions@.len()
                        &&& #[trigger] dfa.row_follows(*nfa, c as int)
                    } by {
                    if c == new_idx {
                        assert(worklist@[worklist@.len() - 1] == new_idx);
                    } else {
                        assert(!old(worklist)@.contains(c)) by {
                            if old(worklist)@.contains(c) {
                                let k = choose|k: int| 0 <= k < old(worklist)@.len() && old(worklist)@[k] == c;
                                assert(worklist@[k] == c);
                            }
                        }
                        dfa.lemma_row_kept(*old(dfa), *nfa, c as int);
                    }
                }
                assert forall|i: int| 0 <= i < worklist@.len() implies #[trigger] worklist@[i] < dfa.state_labels@.len() by {
                    if i < old(worklist)@.len() {
                        assert(worklist@[i] == old(worklist)@[i]);
                    }
                }
            }
        },
    }
}

impl TernaryDFA {
    /// Convert an NFA to a DFA using subset construction.
    ///
    /// Each state stands for a nonempty, epsilon-closed set of NFA states that some input
    /// reaches, no two for the same set, and each is reached from the start; there are at
    /// most `2^n - 1` of them. States are numbered as they are found: exploring from the
    /// start and always taking next the highest-numbered state not yet explored, a state
    /// gets the next number where it first appears in a row.
    #[verifier::spinoff_prover]
    pub fn from_nfa(nfa: &TernaryNFA) -> (dfa: TernaryDFA)
        requires
            nfa.runnable(),
        ensures
            dfa.is_subset_dfa_of(*nfa),
            forall|w: Seq<Ternary>| #[trigger] dfa.accepts_word(w) == nfa.accepts_word(w),
            forall|c: int| 0 <= c < dfa.state_labels@.len() ==> #[trigger] dfa.label_reached(*nfa, c),
            forall|c: int| 0 <= c < dfa.state_labels@.len() ==> #[trigger] nfa.eps_closure_of(dfa.label_set(c)) == dfa.label_set(c),
            forall|c: int| 0 <= c < dfa.state_labels@.len() ==> #[trigger] dfa.state_reachable(c),
            dfa.state_labels@.len() <= pow2(nfa.size()) - 1,
            forall|c: int| 1 <= c < dfa.state_labels@.len() ==> #[trigger] dfa.entered_from_below(c),
            exists|proc: Seq<usize>, ci: Seq<int>, ck: Seq<int>| #[trigger] dfa.explored_in_order(proc, ci, ck),
    {
        let mut dfa = TernaryDFA {
            transitions: Vec::new(),
            accept: Vec::new(),
            start: 0,
            state_labels: Vec::new(),
        };
        let mut init: Vec<usize> = Vec::new();
        init.push(nfa.start);
        assert(init@[0] == nfa.initial());
        assert forall|t: usize| init@.to_set().contains(t) <==> t == nfa.initial() by {
            if t == nfa.initial() {
                assert(init@.contains(t));
            }
        }
        assert(init@.to_set() =~= set![nfa.initial()]);
        assert(nfa.closure_in_range(init@.to_set())) by {
            assert forall|t: usize| #[trigger] nfa.eps_closure_of(init@.to_set()).contains(t) implies t < nfa.size() by {
                assert(nfa.reached(Seq::<Ternary>::empty()).contains(t));
            }
        }
        let start_state = nfa.epsilon_closure(init.as_slice());
        assert(nfa.flags_cover(nfa.reached(Seq::<Ternary>::empty())));
        let start_accepts = has_accepting(nfa, &start_state);
        dfa.state_labels.push(start_state);
        dfa.start = 0;
        dfa.accept.push(start_accepts);

        let all_ternary = [Ternary::Neg, Ternary::Zero, Ternary::Pos];
        let mut worklist: Vec<usize> = Vec::new();
        worklist.push(0);
        let ghost mut proc: Seq<usize> = Seq::empty();
        let ghost mut ci: Seq<int> = seq![0int];
        let ghost mut ck: Seq<int> = seq![0int];
        proof {
            assert(dfa.state_labels@[0]@ == start_state@);
            vstd::arithmetic::power2::lemma_pow2_pos(nfa.size());
            assert(dfa.label_set(0) == nfa.eps_closure_of(set![nfa.initial()]));
            assert(dfa.accept@[0] == any_accepting(*nfa, dfa.label_set(0)));
            nfa.lemma_closure_base(set![nfa.initial()], nfa.initial());
            assert(dfa.label_set(0).contains(nfa.initial()));
            assert(dfa.state_labels@[0]@.len() > 0);
            assert(dfa.labels_sound(*nfa));
            assert(nfa.reached(Seq::<Ternary>::empty()) == dfa.label_set(0));
            assert(dfa.label_reached(*nfa, 0));
            assert(worklist@[0] == 0);
            assert(dfa.state_labels@.len() == 1);
            assert(forall|i: int| 0 <= i < worklist@.len() ==> #[trigger] worklist@[i] < dfa.state_labels@.len());
            assert forall|c: usize|
                c < dfa.state_labels@.len() && c as int != -1 && !worklist@.contains(c) implies {
                    &&& c < dfa.transitions@.len()
                    &&& #[trigger] dfa.row_follows(*nfa, c as int)
                } by {
                assert(worklist@[0] == 0);
                assert(c == 0);
                assert(worklist@.contains(c));
            }
            assert(dfa.building(*nfa, worklist@, -1));
            assert(strictly_increasing(worklist@));
            assert(dfa.parents_recorded(worklist@, -1, 0));
            assert(dfa.exploration(proc, ci, ck, 3));
            assert forall|x: usize| #[trigger] worklist@.contains(x) <==> (x < dfa.state_labels@.len() && !proc.contains(x)) by {
                if x == 0 {
                    assert(worklist@[0] == x);
                }
            }
        }
        while worklist.len() > 0
            invariant
                nfa.runnable(),
                dfa.building(*nfa, worklist@, -1),
                dfa.transitions@.len() == dfa.state_labels@.len() || (dfa.transitions@.len() == 0
                    && dfa.state_labels@.len() == 1),
                dfa.state_labels@.len() <= pow2(nfa.size()),
                all_ternary@ == seq![Ternary::Neg, Ternary::Zero, Ternary::Pos],
                strictly_increasing(worklist@),
                dfa.parents_recorded(worklist@, -1, 0),
                dfa.exploration(proc, ci, ck, 3),
                dfa.worklist_unexplored(proc, worklist@),
                dfa.explored_so_far(proc, ci),
            decreases 4 * (pow2(nfa.size()) - dfa.state_labels@.len()) + worklist@.len(),
        {
            let ghost wl0 = worklist@;
            let ghost mstart = 4 * (pow2(nfa.size()) - dfa.state_labels@.len()) + worklist@.len();
            let current_idx = worklist.pop().unwrap();
            proof {
                assert(wl0 == worklist@.push(current_idx));
                assert(wl0[wl0.len() - 1] == current_idx);
                assert forall|c: usize|
                    c < dfa.state_labels@.len() && c != current_idx && !worklist@.contains(c) implies {
                        &&& c < dfa.transitions@.len()
                        &&& #[trigger] dfa.row_follows(*nfa, c as int)
                    } by {
                    assert(!wl0.contains(c)) by {
                        if wl0.contains(c) {
                            let k = choose|k: int| 0 <= k < wl0.len() && wl0[k] == c;
                            if k < worklist@.len() {
                                assert(worklist@[k] == c);
                                assert(worklist@.contains(c));
                            }
                        }
                    }
                }
                assert forall|i: int| 0 <= i < worklist@.len() implies #[trigger] worklist@[i] < dfa.state_labels@.len() by {
                    assert(worklist@[i] == wl0[i]);
                }
                assert(strictly_increasing(worklist@)) by {
                    assert forall|i: int, j: int| 0 <= i < j < worklist@.len() implies worklist@[i] < worklist@[j] by {
                        assert(worklist@[i] == wl0[i] && worklist@[j] == wl0[j]);
                    }
                }
                assert(!worklist@.contains(current_idx)) by {
                    if worklist@.contains(current_idx) {
                        let i = choose|i: int| 0 <= i < worklist@.len() && worklist@[i] == current_idx;
                        assert(wl0[i] < wl0[wl0.len() - 1]);
                    }
                }
                assert forall|c: int| 1 <= c < dfa.state_labels@.len() implies #[trigger] dfa.has_recorded_parent(
                    c,
                    worklist@,
                    current_idx as int,
                    0,
                ) by {
                    assert(dfa.has_recorded_parent(c, wl0, -1, 0));
                    let (p, k) = choose|p: int, k: int|
                        #![trigger dfa.entry(p, k)]
                        0 <= p < c && 0 <= k < 3 && p < dfa.transitions@.len() && !wl0.contains(p as usize)
                            && (p == -1 ==> k < 0) && dfa.entry(p, k) == c;
                    assert(wl0.contains(current_idx));
                    assert(!worklist@.contains(p as usize)) by {
                        if worklist@.contains(p as usize) {
                            let i = choose|i: int| 0 <= i < worklist@.len() && worklist@[i] == p as usize;
                            assert(wl0[i] == p as usize);
                        }
                    }
                }
            }
            proof {
                dfa.lemma_explore_pop(proc, ci, ck, wl0, worklist@, current_idx);
                proc = proc.push(current_idx);
            }
            let ghost m_popped = dfa.state_labels@.len();
            // Ensure transitions vec is large enough
            while dfa.transitions.len() <= current_idx
                invariant
                    dfa.state_labels@.len() == m_popped,
                    nfa.runnable(),
                    dfa.building(*nfa, worklist@, current_idx as int),
                    current_idx < dfa.state_labels@.len(),
                    dfa.transitions@.len() == dfa.state_labels@.len() || (dfa.transitions@.len() == 0
                        && dfa.state_labels@.len() == 1),
                    dfa.state_labels@.len() <= pow2(nfa.size()),
                    all_ternary@ == seq![Ternary::Neg, Ternary::Zero, Ternary::Pos],
                    strictly_increasing(worklist@),
                    !worklist@.contains(current_idx),
                    dfa.parents_recorded(worklist@, current_idx as int, 0),
                    dfa.exploration(proc, ci, ck, 0),
                    dfa.worklist_unexplored(proc, worklist@),
                    dfa.explored_so_far(proc, ci),
                    proc.len() >= 1,
                    proc[proc.len() - 1] == current_idx,
                decreases current_idx + 1 - dfa.transitions@.len(),
            {
                let ghost d0 = dfa;
                dfa.transitions.push([0, 0, 0]);
                proof {
                    assert forall|i: int, kk: int|
                        0 <= i < proc.len() && 0 <= kk < 3 && (i < proc.len() - 1 || kk < 0) implies #[trigger] dfa.entry(
                            proc[i] as int,
                            kk,
                        ) == d0.entry(proc[i] as int, kk) by {
                        assert(proc[i] != current_idx);
                        assert(!worklist@.contains(proc[i])) by {
                            assert(proc.contains(proc[i]));
                        }
                        assert(d0.row_follows(*nfa, proc[i] as int));
                        assert(dfa.transitions@[proc[i] as int] == d0.transitions@[proc[i] as int]);
                    }
                    d0.lemma_explore_frame(dfa, proc, ci, ck, 0);
                    assert forall|c: int| 1 <= c < dfa.state_labels@.len() implies #[trigger] dfa.has_recorded_parent(
                        c,
                        worklist@,
                        current_idx as int,
                        0,
                    ) by {
                        assert(d0.has_recorded_parent(c, worklist@, current_idx as int, 0));
                        let (p, k) = choose|p: int, k: int|
                            #![trigger d0.entry(p, k)]
                            0 <= p < c && 0 <= k < 3 && p < d0.transitions@.len() && !worklist@.contains(p as usize)
                                && (p == current_idx ==> k < 0) && d0.entry(p, k) == c;
                        assert(dfa.transitions@[p] == d0.transitions@[p]);
                        assert(dfa.entry(p, k) == c);
                    }
                    assert forall|c: int| 0 <= c < dfa.state_labels@.len() implies #[trigger] dfa.label_reached(*nfa, c) by {
                        assert(d0.label_reached(*nfa, c));
                        assert(dfa.label_set(c) == d0.label_set(c));
                    }
                    assert forall|c: usize|
                        c < dfa.state_labels@.len() && c != current_idx && !worklist@.contains(c) implies {
                            &&& c < dfa.transitions@.len()
                            &&& #[trigger] dfa.row_follows(*nfa, c as int)
                        } by {
                        assert(d0.row_follows(*nfa, c as int));
                        assert(dfa.transitions@[c as int] == d0.transitions@[c as int]);
                    }
                }
            }
            let current_state = copy_states(&dfa.state_labels[current_idx]);
            let ghost measure0 = 4 * (pow2(nfa.size()) - dfa.state_labels@.len()) + worklist@.len();
            let mut k: usize = 0;
            while k < 3
                invariant
                    nfa.runnable(),
                    k <= 3,
                    all_ternary@ == seq![Ternary::Neg, Ternary::Zero, Ternary::Pos],
                    dfa.building(*nfa, worklist@, current_idx as int),
                    dfa.transitions@.len() == dfa.state_labels@.len(),
                    current_idx < dfa.state_labels@.len(),
                    current_state@ == dfa.state_labels@[current_idx as int]@,
                    dfa.state_labels@.len() <= pow2(nfa.size()),
                    forall|kk: int| 0 <= kk < k ==> dfa.entry_follows(*nfa, current_idx as int, #[trigger] all_ternary@[kk]),
                    4 * (pow2(nfa.size()) - dfa.state_labels@.len()) + worklist@.len() <= measure0,
                    strictly_increasing(worklist@),
                    !worklist@.contains(current_idx),
                    dfa.parents_recorded(worklist@, current_idx as int, k as int),
                    dfa.exploration(proc, ci, ck, k as int),
                    dfa.worklist_unexplored(proc, worklist@),
                    dfa.explored_so_far(proc, ci),
                    proc.len() >= 1,
                    proc[proc.len() - 1] == current_idx,
                decreases 3 - k,
            {
                let val = all_ternary[k];
                let ghost before = dfa;
                let ghost wl_before = worklist@;
                explore(&mut dfa, nfa, &current_state, current_idx, val, &mut worklist);
                proof {
                    assert(all_ternary@[k as int] == val);
                    assert(tindex(val) == k);
                    let old_n = before.state_labels@.len();
                    assert(forall|i: int| 0 <= i < wl_before.len() ==> #[trigger] wl_before[i] < old_n);
                    assert(strictly_increasing(worklist@)) by {
                        if dfa.state_labels@.len() > old_n {
                            assert forall|i: int, j: int| 0 <= i < j < worklist@.len() implies worklist@[i] < worklist@[j] by {
                                if j < wl_before.len() {
                                    assert(worklist@[i] == wl_before[i] && worklist@[j] == wl_before[j]);
                                } else {
                                    assert(worklist@[i] == wl_before[i]);
                                }
                            }
                        }
                    }
                    assert forall|p: int| 0 <= p < old_n && !wl_before.contains(p as usize) implies !#[trigger] worklist@.contains(
                        p as usize,
                    ) by {
                        if worklist@.contains(p as usize) {
                            let i = choose|i: int| 0 <= i < worklist@.len() && worklist@[i] == p as usize;
                            if i < wl_before.len() {
                                assert(wl_before[i] == p as usize);
                            }
                        }
                    }
                    assert(!worklist@.contains(current_idx));
                    assert forall|c: int| 1 <= c < dfa.state_labels@.len() implies #[trigger] dfa.has_recorded_parent(
                        c,
                        worklist@,
                        current_idx as int,
                        k + 1,
                    ) by {
                        if c < old_n {
                            assert(before.has_recorded_parent(c, wl_before, current_idx as int, k as int));
                            let (p, kk) = choose|p: int, kk: int|
                                #![trigger before.entry(p, kk)]
                                0 <= p < c && 0 <= kk < 3 && p < before.transitions@.len() && !wl_before.contains(
                                    p as usize,
                                ) && (p == current_idx ==> kk < k) && before.entry(p, kk) == c;
                            if p != current_idx {
                                assert(dfa.transitions@[p] == before.transitions@[p]);
                            }
                            assert(dfa.entry(p, kk) == c);
                        } else {
                            assert(dfa.entry(current_idx as int, k as int) == c);
                        }
                    }
                    let pl = proc.len();
                    assert forall|i: int, kk: int|
                        0 <= i < pl && 0 <= kk < 3 && (i < pl - 1 || kk < k) implies #[trigger] dfa.entry(
                            proc[i] as int,
                            kk,
                        ) == before.entry(proc[i] as int, kk) && (before.entry(proc[i] as int, kk) == usize::MAX
                            || before.entry(proc[i] as int, kk) < old_n) by {
                        if i < pl - 1 {
                            assert(proc[i] != current_idx);
                            assert(!wl_before.contains(proc[i])) by {
                                assert(proc.contains(proc[i]));
                            }
                            assert(before.row_follows(*nfa, proc[i] as int));
                            before.lemma_row_in_range(*nfa, proc[i] as int);
                            assert(dfa.transitions@[proc[i] as int] == before.transitions@[proc[i] as int]);
                        } else {
                            let v2 = all_ternary@[kk];
                            assert(tindex(v2) == kk);
                            assert(before.entry_follows(*nfa, current_idx as int, v2));
                        }
                    }
                    if dfa.state_labels@.len() > old_n {
                        dfa.lemma_explore_found(before, proc, ci, ck, k as int, wl_before, worklist@);
                        ci = ci.push(pl - 1);
                        ck = ck.push(k as int);
                    } else {
                        before.lemma_explore_frame(dfa, proc, ci, ck, k as int);
                        assert(dfa.exploration(proc, ci, ck, k + 1));
                    }
                    assert forall|kk: int| 0 <= kk < k + 1 implies dfa.entry_follows(*nfa, current_idx as int, #[trigger] all_ternary@[kk]) by {
                        if kk < k {
                            let v2 = all_ternary@[kk];
                            assert(tindex(v2) == kk);
                            assert(tindex(val) == k);
                            dfa.lemma_entry_kept(before, *nfa, current_idx as int, v2);
                        }
                    }
                }
                k = k + 1;
            }
            proof {
                assert(dfa.entry_follows(*nfa, current_idx as int, all_ternary@[0]));
                assert(dfa.entry_follows(*nfa, current_idx as int, all_ternary@[1]));
                assert(dfa.entry_follows(*nfa, current_idx as int, all_ternary@[2]));
                assert(dfa.row_follows(*nfa, current_idx as int));
                assert(measure0 == mstart - 1);
                assert forall|c: int| 1 <= c < dfa.state_labels@.len() implies #[trigger] dfa.has_recorded_parent(
                    c,
                    worklist@,
                    -1,
                    0,
                ) by {
                    assert(dfa.has_recorded_parent(c, worklist@, current_idx as int, 3));
                    let (p, kk) = choose|p: int, kk: int|
                        #![trigger dfa.entry(p, kk)]
                        0 <= p < c && 0 <= kk < 3 && p < dfa.transitions@.len() && !worklist@.contains(p as usize)
                            && (p == current_idx ==> kk < 3) && dfa.entry(p, kk) == c;
                }
            }
        }
        proof {
            assert(dfa.row_follows(*nfa, 0));
            assert forall|c: int, k: int|
                0 <= c < dfa.transitions@.len() && 0 <= k < 3 implies #[trigger] dfa.entry(c, k) == usize::MAX
                    || dfa.entry(c, k) < dfa.transitions@.len() by {
                assert(dfa.transitions.len() == dfa.transitions@.len());
                let cu = c as usize;
                assert(!worklist@.contains(cu));
                assert(dfa.row_follows(*nfa, cu as int));
                if k == 0 {
                    assert(tindex(Ternary::Neg) == k);
                } else if k == 1 {
                    assert(tindex(Ternary::Zero) == k);
                } else {
                    assert(tindex(Ternary::Pos) == k);
                }
            }
            assert(dfa.wf());
            assert forall|c: int| 0 <= c < dfa.state_labels@.len() implies #[trigger] dfa.row_follows(*nfa, c) by {
                assert(dfa.state_labels.len() == dfa.state_labels@.len());
                let cu = c as usize;
                assert(!worklist@.contains(cu));
                assert(dfa.row_follows(*nfa, cu as int));
            }
            assert(dfa.is_subset_dfa_of(*nfa));
            assert forall|w: Seq<Ternary>| #[trigger] dfa.accepts_word(w) == nfa.accepts_word(w) by {
                dfa.lemma_subset_language(*nfa, w);
            }
            dfa.lemma_labels_closed_reachable(*nfa);
            let seqs = label_seqs(dfa.state_labels@);
            assert forall|i: int| 0 <= i < seqs.len() implies strictly_increasing(#[trigger] seqs[i]) by {
                assert(strictly_increasing(dfa.state_labels@[i]@));
            }
            assert forall|i: int| 0 <= i < seqs.len() implies all_below(#[trigger] seqs[i], nfa.size() as int) by {
                assert(all_below(dfa.state_labels@[i]@, nfa.size() as int));
            }
            assert forall|i: int, j: int| 0 <= i < j < seqs.len() implies seqs[i] != seqs[j] by {
                assert(dfa.state_labels@[i]@ != dfa.state_labels@[j]@);
            }
            assert forall|i: int| 0 <= i < seqs.len() implies #[trigger] seqs[i].len() > 0 by {
                assert(dfa.state_labels@[i]@.len() > 0);
            }
            lemma_distinct_subsets_bounded(seqs, nfa.size());
            assert forall|c: int| 1 <= c < dfa.state_labels@.len() implies #[trigger] dfa.entered_from_below(c) by {
                assert(dfa.has_recorded_parent(c, worklist@, -1, 0));
                let (p, kk) = choose|p: int, kk: int|
                    #![trigger dfa.entry(p, kk)]
                    0 <= p < c && 0 <= kk < 3 && p < dfa.transitions@.len() && !worklist@.contains(p as usize)
                        && (p == -1 ==> kk < 0) && dfa.entry(p, kk) == c;
            }
            let n = dfa.state_labels@.len();
            assert(dfa.state_labels.len() == n);
            let pv = proc.map_values(|x: usize| x as int);
            assert forall|i: int, j: int| 0 <= i < j < pv.len() implies pv[i] != pv[j] by {
                assert(proc[i] != proc[j]);
            }
            assert forall|i: int| 0 <= i < pv.len() implies 0 <= #[trigger] pv[i] < n by {
                assert(proc[i] < n);
            }
            lemma_distinct_ints_bounded(pv, 0, n as int);
            assert forall|x: int| 0 <= x < n implies #[trigger] proc.contains(x as usize) by {
                assert(!worklist@.contains(x as usize));
            }
            let pos = Seq::new(n, |x: int| choose|j: int| 0 <= j < proc.len() && proc[j] == x as usize);
            assert forall|x: int| 0 <= x < pos.len() implies 0 <= #[trigger] pos[x] < proc.len() && proc[pos[x]] == x as usize by {
                assert(proc.contains(x as usize));
            }
            assert forall|x: int, y: int| 0 <= x < y < pos.len() implies pos[x] != pos[y] by {
                assert(proc[pos[x]] == x as usize);
                assert(proc[pos[y]] == y as usize);
            }
            lemma_distinct_ints_bounded(pos, 0, proc.len() as int);
            assert(dfa.explored_in_order(proc, ci, ck));
        }
        dfa
    }
}

/// Whether two lists of states are equal.
fn same_states(a: &Vec<usize>, b: &Vec<usize>) -> (r: bool)
    ensures
        r == (a@ == b@),
{
    if a.len() != b.len() {
        return false;
    }
    let mut i: usize = 0;
    while i < a.len()
        invariant
            a@.len() == b@.len(),
            i <= a@.len(),
            forall|k: int| 0 <= k < i ==> a@[k] == b@[k],
        decreases a@.len() - i,
    {
        if a[i] != b[i] {
            return false;
        }
        i = i + 1;
    }
    assert(a@ =~= b@);
    true
}

/// The index of the first label equal to `target`, if any.
fn find_label(labels: &Vec<Vec<usize>>, target: &Vec<usize>) -> (r: Option<usize>)
    ensures
        r matches Some(i) ==> i < labels@.len() && labels@[i as int]@ == target@,
        r is None ==> forall|i: int| 0 <= i < labels@.len() ==> #[trigger] labels@[i]@ != target@,
{
    let mut i: usize = 0;
    while i < labels.len()
        invariant
            i <= labels@.len(),
            forall|k: int| 0 <= k < i ==> #[trigger] labels@[k]@ != target@,
        decreases labels@.len() - i,
    {
        if same_states(&labels[i], target) {
            return Some(i);
        }
        i = i + 1;
    }
    None
}

/// Whether some state of `states` is accepting in `nfa`.
fn has_accepting(nfa: &TernaryNFA, states: &Vec<usize>) -> (r: bool)
    requires
        strictly_increasing(states@),
        nfa.flags_cover(states@.to_set()),
    ensures
        r == any_accepting(*nfa, states@.to_set()),
{
    let mut i: usize = 0;
    while i < states.len()
        invariant
            strictly_increasing(states@),
            nfa.flags_cover(states@.to_set()),
            i <= states@.len(),
            forall|k: int| 0 <= k < i ==> !#[trigger] nfa.is_accepting(states@[k]),
        decreases states@.len() - i,
    {
        assert(states@.to_set().contains(states@[i as int]));
        proof {
            if states@[i as int] >= nfa.flag_count() {
                let s = choose|s: usize| states@.to_set().contains(s) && s < states@[i as int] && #[trigger] nfa.is_accepting(s);
                let j = choose|j: int| 0 <= j < states@.len() && states@[j] == s;
                assert(j < i);
            }
        }
        if nfa.accept[states[i]] {
            assert(states@.to_set().contains(states@[i as int]));
            assert(nfa.is_accepting(states@[i as int]));
            return true;
        }
        i = i + 1;
    }
    proof {
        if any_accepting(*nfa, states@.to_set()) {
            let s = choose|s: usize| states@.to_set().contains(s) && #[trigger] nfa.is_accepting(s);
            let k = choose|k: int| 0 <= k < states@.len() && states@[k] == s;
        }
    }
    false
}

} // verus!
