//! Nondeterministic automata over ternary values, with epsilon transitions.
use vstd::prelude::*;

pub(crate) mod subset;

use crate::count::{strictly_increasing, all_below};
use crate::vecs::{all_false, insert_sorted};
use crate::ternary::{Ternary, PatternElem, TernaryPattern, elem_accepts, pattern_matches};

verus! {

/// An NFA state ID.
type NfaState = usize;

/// A transition in the NFA: on matching element, to state.
#[derive(Clone, Copy, Debug)]
struct NfaTransition {
    elem: PatternElem,
    target: NfaState,
}

/// A ternary NFA for pattern matching.
#[derive(Clone, Debug)]
pub struct TernaryNFA {
    /// Number of states.
    pub state_count: usize,
    /// Transitions: transitions[state] = list of (element, target).
    transitions: Vec<Vec<NfaTransition>>,
    /// Epsilon transitions.
    epsilon: Vec<Vec<NfaState>>,
    /// Start state.
    pub start: NfaState,
    /// Accept states.
    pub accept: Vec<bool>,
}

/// How many entries of `s` are `false`.
pub open spec fn count_false(s: Seq<bool>) -> nat
    decreases s.len(),
{
    if s.len() == 0 {
        0
    } else {
        count_false(s.drop_last()) + if s.last() { 0nat } else { 1nat }
    }
}

proof fn lemma_count_false_set(s: Seq<bool>, i: int)
    requires
        0 <= i < s.len(),
        !s[i],
    ensures
        count_false(s.update(i, true)) + 1 == count_false(s),
    decreases s.len(),
{
    let u = s.update(i, true);
    if i == s.len() - 1 {
        assert(u.drop_last() =~= s.drop_last());
    } else {
        assert(u.drop_last() =~= s.drop_last().update(i, true));
        lemma_count_false_set(s.drop_last(), i);
    }
}

/// The members of a membership table, in increasing order.
fn members_in_order(seen: &Vec<bool>) -> (r: Vec<usize>)
    ensures
        strictly_increasing(r@),
        all_below(r@, seen@.len() as int),
        forall|t: usize| #[trigger] r@.contains(t) <==> (t < seen@.len() && seen@[t as int]),
{
    let mut r: Vec<usize> = Vec::new();
    let mut t: usize = 0;
    while t < seen.len()
        invariant
            t <= seen@.len(),
            strictly_increasing(r@),
            all_below(r@, t as int),
            forall|x: usize| #[trigger] r@.contains(x) <==> (x < t && seen@[x as int]),
        decreases seen@.len() - t,
    {
        let ghost prev = r@;
        if seen[t] {
            r.push(t);
        }
        assert forall|x: usize| #[trigger] r@.contains(x) <==> (x < t + 1 && seen@[x as int]) by {
            if seen@[t as int] {
                assert(r@ == prev.push(t));
                if x == t {
                    assert(r@[r@.len() - 1] == x);
                }
                if r@.contains(x) && x != t {
                    let k = choose|k: int| 0 <= k < r@.len() && r@[k] == x;
                    assert(prev[k] == x);
                }
                if prev.contains(x) {
                    let k = choose|k: int| 0 <= k < prev.len() && prev[k] == x;
                    assert(r@[k] == x);
                }
            }
        }
        t = t + 1;
    }
    r
}

/// Marking `x` as seen and appending it keeps the table and the list in step.
proof fn lemma_mark_seen(seen0: Seq<bool>, c0: Seq<usize>, x: usize, n: usize)
    requires
        seen0.len() == n,
        x < n,
        forall|t: usize| t < n ==> (seen0[t as int] <==> #[trigger] c0.contains(t)),
    ensures
        forall|t: usize| t < n ==> (seen0.update(x as int, true)[t as int] <==> #[trigger] c0.push(x).contains(t)),
{
    assert forall|t: usize| t < n implies (seen0.update(x as int, true)[t as int] <==> #[trigger] c0.push(x).contains(t)) by {
        if t == x {
            assert(c0.push(x)[c0.len() as int] == x);
        } else {
            if c0.contains(t) {
                let k = choose|k: int| 0 <= k < c0.len() && c0[k] == t;
                assert(c0.push(x)[k] == t);
            }
            if c0.push(x).contains(t) {
                let k = choose|k: int| 0 <= k < c0.len() + 1 && c0.push(x)[k] == t;
                assert(c0[k] == t);
            }
        }
    }
}

impl TernaryNFA {
    /// The labelled transitions leaving state `s`, as (element, target) pairs.
    pub closed spec fn arcs(self, s: int) -> Seq<(PatternElem, usize)> {
        self.transitions@[s]@.map_values(|t: NfaTransition| (t.elem, t.target))
    }

    /// The epsilon transitions leaving state `s`, as targets.
    pub closed spec fn eps_arcs(self, s: int) -> Seq<usize> {
        self.epsilon@[s]@
    }

    /// The number of states: those with a list of transitions.
    pub closed spec fn size(self) -> nat {
        self.transitions@.len()
    }

    /// The start state.
    pub closed spec fn initial(self) -> usize {
        self.start
    }

    /// State `s` is accepting.
    pub closed spec fn is_accepting(self, s: usize) -> bool {
        s < self.accept@.len() && self.accept@[s as int]
    }

    /// The number of states the NFA declares.
    pub closed spec fn declared_size(self) -> nat {
        self.state_count as nat
    }

    /// The number of accept flags.
    pub closed spec fn flag_count(self) -> nat {
        self.accept@.len()
    }

    /// Each state has a list of epsilon transitions beside its list of transitions. The two
    /// lists are made together by `new` and nothing changes their number.
    pub closed spec fn tables_sized(self) -> bool {
        self.epsilon@.len() == self.transitions@.len()
    }

    /// Well-formedness: the state count, the transition lists and the accept flags agree,
    /// and every target is a state.
    pub open spec fn wf(self) -> bool {
        &&& self.tables_sized()
        &&& self.declared_size() == self.size()
        &&& self.flag_count() == self.size()
        &&& forall|s: int, i: int|
            0 <= s < self.size() && 0 <= i < self.arcs(s).len() ==> #[trigger] self.arcs(s)[i].1 < self.size()
        &&& forall|s: int, i: int|
            0 <= s < self.size() && 0 <= i < self.eps_arcs(s).len() ==> #[trigger] self.eps_arcs(s)[i]
                < self.size()
    }

    /// This is the chain automaton of `elems`: state `i` steps to `i + 1` on `elems[i]`,
    /// there are no epsilon moves, and only the last state accepts.
    pub open spec fn is_chain_of(self, elems: Seq<PatternElem>) -> bool {
        &&& self.size() == elems.len() + 1
        &&& self.initial() == 0
        &&& forall|i: int| 0 <= i < elems.len() ==> #[trigger] self.arcs(i) == seq![(elems[i], (i + 1) as usize)]
        &&& self.arcs(elems.len() as int).len() == 0
        &&& forall|s: int| 0 <= s < self.size() ==> #[trigger] self.eps_arcs(s).len() == 0
        &&& forall|s: usize| #[trigger] self.is_accepting(s) <==> s == elems.len()
    }

    /// Every state in the epsilon closure of `from` is a state.
    pub open spec fn closure_in_range(self, from: Set<usize>) -> bool {
        forall|t: usize| #[trigger] self.eps_closure_of(from).contains(t) ==> t < self.size()
    }

    /// Every state of `states` without an accept flag comes after an accepting state of
    /// `states`, so that a search for an accepting state in increasing order stops before it.
    pub open spec fn flags_cover(self, states: Set<usize>) -> bool {
        forall|t: usize|
            #[trigger] states.contains(t) && t >= self.flag_count() ==> exists|s: usize|
                states.contains(s) && s < t && #[trigger] self.is_accepting(s)
    }

    /// Every state the NFA can be in after reading any input is one of its states, and the
    /// search for an accepting one among them finds accept flags, so that reading input only
    /// looks up what the NFA has.
    pub open spec fn runnable(self) -> bool {
        &&& self.tables_sized()
        &&& forall|w: Seq<Ternary>, t: usize| #[trigger] self.reached(w).contains(t) ==> t < self.size()
        &&& forall|w: Seq<Ternary>| #[trigger] self.flags_cover(self.reached(w))
    }

    /// Every state the NFA can be in after reading some prefix of `input` is one of its states.
    pub open spec fn reads_in_range(self, input: Seq<Ternary>) -> bool {
        forall|i: int, t: usize| 0 <= i <= input.len() && #[trigger] self.reached(input.take(i)).contains(t) ==> t < self.size()
    }

    /// There is an epsilon transition from `s` to `t`.
    pub open spec fn eps_edge(self, s: usize, t: usize) -> bool {
        s < self.size() && self.eps_arcs(s as int).contains(t)
    }

    /// The states one epsilon transition away from `from`.
    pub open spec fn eps_successors(self, from: Set<usize>) -> Set<usize> {
        Set::new(|t: usize| exists|s: usize| from.contains(s) && #[trigger] self.eps_edge(s, t))
    }

    /// The states reachable from `from` by at most `k` epsilon transitions.
    pub open spec fn eps_within(self, from: Set<usize>, k: nat) -> Set<usize>
        decreases k,
    {
        if k == 0 {
            from
        } else {
            let prev = self.eps_within(from, (k - 1) as nat);
            prev.union(self.eps_successors(prev))
        }
    }

    /// The epsilon closure of `from`: every state reachable by epsilon transitions.
    pub open spec fn eps_closure_of(self, from: Set<usize>) -> Set<usize> {
        Set::new(|t: usize| exists|k: nat| #[trigger] self.eps_within(from, k).contains(t))
    }

    /// State `s` has a transition to `t` whose element accepts `val`.
    pub open spec fn arc_on(self, s: usize, val: Ternary, t: usize) -> bool {
        &&& s < self.size()
        &&& exists|i: int|
            0 <= i < self.arcs(s as int).len() && elem_accepts(#[trigger] self.arcs(s as int)[i].0, val)
                && self.arcs(s as int)[i].1 == t
    }

    /// The states that a transition on `val` reaches from `from`.
    pub open spec fn step(self, from: Set<usize>, val: Ternary) -> Set<usize> {
        Set::new(|t: usize| exists|s: usize| from.contains(s) && #[trigger] self.arc_on(s, val, t))
    }

    /// The set of states the NFA can be in after reading `input`.
    pub open spec fn reached(self, input: Seq<Ternary>) -> Set<usize>
        decreases input.len(),
    {
        if input.len() == 0 {
            self.eps_closure_of(set![self.initial()])
        } else {
            self.eps_closure_of(self.step(self.reached(input.drop_last()), input.last()))
        }
    }

    /// The NFA accepts `input`: some state it can reach after reading it is accepting.
    pub open spec fn accepts_word(self, input: Seq<Ternary>) -> bool {
        exists|s: usize| #[trigger] self.reached(input).contains(s) && self.is_accepting(s)
    }

    proof fn lemma_closure_base(self, from: Set<usize>, s: usize)
        requires
            from.contains(s),
        ensures
            self.eps_closure_of(from).contains(s),
    {
        assert(self.eps_within(from, 0).contains(s));
    }

    proof fn lemma_closure_step(self, from: Set<usize>, s: usize, t: usize)
        requires
            self.eps_closure_of(from).contains(s),
            self.eps_edge(s, t),
        ensures
            self.eps_closure_of(from).contains(t),
    {
        let k = choose|k: nat| #[trigger] self.eps_within(from, k).contains(s);
        let prev = self.eps_within(from, k);
        assert(self.eps_successors(prev).contains(t));
        assert(self.eps_within(from, k + 1).contains(t));
    }

    /// A set that holds `from` and is closed under epsilon transitions holds its closure.
    proof fn lemma_closure_least(self, from: Set<usize>, c: Set<usize>)
        requires
            from.subset_of(c),
            forall|s: usize, t: usize| c.contains(s) && #[trigger] self.eps_edge(s, t) ==> c.contains(t),
        ensures
            self.eps_closure_of(from).subset_of(c),
    {
        assert forall|t: usize| self.eps_closure_of(from).contains(t) implies c.contains(t) by {
            let k = choose|k: nat| #[trigger] self.eps_within(from, k).contains(t);
            self.lemma_within_in(from, c, k);
        }
    }

    proof fn lemma_within_in(self, from: Set<usize>, c: Set<usize>, k: nat)
        requires
            from.subset_of(c),
            forall|s: usize, t: usize| c.contains(s) && #[trigger] self.eps_edge(s, t) ==> c.contains(t),
        ensures
            self.eps_within(from, k).subset_of(c),
        decreases k,
    {
        if k > 0 {
            self.lemma_within_in(from, c, (k - 1) as nat);
        }
    }

    proof fn lemma_closure_empty(self)
        ensures
            self.eps_closure_of(Set::empty()) == Set::<usize>::empty(),
    {
        self.lemma_closure_least(Set::empty(), Set::empty());
        assert(self.eps_closure_of(Set::empty()) =~= Set::<usize>::empty());
    }

    /// In a well-formed NFA, the closure of a set of states holds only states.
    proof fn lemma_wf_closure_in_range(self, from: Set<usize>)
        requires
            self.wf(),
            forall|t: usize| #[trigger] from.contains(t) ==> t < self.size(),
        ensures
            self.closure_in_range(from),
    {
        let c = Set::new(|t: usize| t < self.size());
        assert forall|s: usize, t: usize| c.contains(s) && #[trigger] self.eps_edge(s, t) implies c.contains(t) by {
            let i = choose|i: int| 0 <= i < self.eps_arcs(s as int).len() && self.eps_arcs(s as int)[i] == t;
        }
        self.lemma_closure_least(from, c);
    }

    /// A well-formed NFA whose start is a state only reaches states.
    proof fn lemma_wf_reached(self, w: Seq<Ternary>)
        requires
            self.wf(),
            self.initial() < self.size(),
        ensures
            forall|t: usize| #[trigger] self.reached(w).contains(t) ==> t < self.size(),
        decreases w.len(),
    {
        if w.len() == 0 {
            self.lemma_wf_closure_in_range(set![self.initial()]);
        } else {
            self.lemma_wf_reached(w.drop_last());
            let st = self.step(self.reached(w.drop_last()), w.last());
            assert forall|t: usize| #[trigger] st.contains(t) implies t < self.size() by {
                let q = choose|q: usize| self.reached(w.drop_last()).contains(q) && #[trigger] self.arc_on(q, w.last(), t);
                let i = choose|i: int| 0 <= i < self.arcs(q as int).len() && elem_accepts(#[trigger] self.arcs(q as int)[i].0, w.last())
                    && self.arcs(q as int)[i].1 == t;
                assert(self.arcs(q as int)[i].1 < self.size());
            }
            self.lemma_wf_closure_in_range(st);
        }
    }

    /// A well-formed NFA whose start is a state can read any input.
    pub proof fn lemma_wf_runnable(self)
        requires
            self.wf(),
            self.initial() < self.size(),
        ensures
            self.runnable(),
    {
        assert forall|w: Seq<Ternary>, t: usize| #[trigger] self.reached(w).contains(t) implies t < self.size() by {
            self.lemma_wf_reached(w);
        }
        assert forall|w: Seq<Ternary>| #[trigger] self.flags_cover(self.reached(w)) by {
            self.lemma_wf_reached(w);
        }
    }

    /// The number of states fits in a `usize`.
    pub proof fn lemma_size_fits(self)
        ensures
            self.size() <= usize::MAX,
    {
        assert(self.transitions.len() == self.transitions@.len());
    }

    /// The closure of a closure is itself.
    pub proof fn lemma_closure_idempotent(self, from: Set<usize>)
        ensures
            self.eps_closure_of(self.eps_closure_of(from)) == self.eps_closure_of(from),
    {
        let c = self.eps_closure_of(from);
        assert forall|s: usize, t: usize| c.contains(s) && #[trigger] self.eps_edge(s, t) implies c.contains(t) by {
            self.lemma_closure_step(from, s, t);
        }
        self.lemma_closure_least(c, c);
        assert forall|t: usize| c.contains(t) implies self.eps_closure_of(c).contains(t) by {
            self.lemma_closure_base(c, t);
        }
        assert(self.eps_closure_of(c) =~= c);
    }

    /// Once no state is left, none is reached on any longer input.
    proof fn lemma_reached_empty_extends(self, input: Seq<Ternary>, i: int)
        requires
            0 <= i <= input.len(),
            self.reached(input.take(i)) == Set::<usize>::empty(),
        ensures
            self.reached(input) == Set::<usize>::empty(),
        decreases input.len() - i,
    {
        if i == input.len() {
            assert(input.take(i) =~= input);
        } else {
            let next = input.take(i + 1);
            assert(next.drop_last() =~= input.take(i));
            assert(self.step(Set::empty(), next.last()) =~= Set::<usize>::empty());
            self.lemma_closure_empty();
            self.lemma_reached_empty_extends(input, i + 1);
        }
    }

    /// The epsilon closure grows with its argument and with the epsilon transitions.
    proof fn lemma_closure_monotone(self, big: TernaryNFA, a: Set<usize>, b: Set<usize>)
        requires
            a.subset_of(b),
            forall|s: usize, t: usize| #[trigger] self.eps_edge(s, t) ==> big.eps_edge(s, t),
        ensures
            self.eps_closure_of(a).subset_of(big.eps_closure_of(b)),
    {
        let c = big.eps_closure_of(b);
        assert forall|x: usize| a.contains(x) implies c.contains(x) by {
            big.lemma_closure_base(b, x);
        }
        assert forall|s: usize, t: usize| c.contains(s) && #[trigger] self.eps_edge(s, t) implies c.contains(t) by {
            big.lemma_closure_step(b, s, t);
        }
        self.lemma_closure_least(a, c);
    }

    /// Adding transitions, epsilon transitions or accepting states only adds accepted
    /// words: an NFA whose moves and accepting states include those of another, with the
    /// same states and start, reaches at least the same states on every input and accepts
    /// every input the other accepts.
    pub proof fn lemma_more_moves_accept_more(small: TernaryNFA, big: TernaryNFA, w: Seq<Ternary>)
        requires
            big.size() == small.size(),
            big.initial() == small.initial(),
            forall|s: int, x: (PatternElem, usize)| 0 <= s < small.size() && #[trigger] small.arcs(s).contains(x)
                ==> big.arcs(s).contains(x),
            forall|s: int, t: usize| 0 <= s < small.size() && #[trigger] small.eps_arcs(s).contains(t)
                ==> big.eps_arcs(s).contains(t),
            forall|q: usize| #[trigger] small.is_accepting(q) ==> big.is_accepting(q),
        ensures
            small.reached(w).subset_of(big.reached(w)),
            small.accepts_word(w) ==> big.accepts_word(w),
        decreases w.len(),
    {
        assert forall|s: usize, t: usize| #[trigger] small.eps_edge(s, t) implies big.eps_edge(s, t) by {
            assert(small.eps_arcs(s as int).contains(t));
        }
        if w.len() == 0 {
            small.lemma_closure_monotone(big, set![small.initial()], set![big.initial()]);
        } else {
            let d = w.drop_last();
            let v = w.last();
            TernaryNFA::lemma_more_moves_accept_more(small, big, d);
            let a = small.step(small.reached(d), v);
            let b = big.step(big.reached(d), v);
            assert forall|t: usize| a.contains(t) implies b.contains(t) by {
                let q = choose|q: usize| small.reached(d).contains(q) && #[trigger] small.arc_on(q, v, t);
                let i = choose|i: int|
                    0 <= i < small.arcs(q as int).len() && elem_accepts(#[trigger] small.arcs(q as int)[i].0, v)
                        && small.arcs(q as int)[i].1 == t;
                let x = small.arcs(q as int)[i];
                assert(small.arcs(q as int).contains(x));
                assert(big.arcs(q as int).contains(x));
                let j = choose|j: int| 0 <= j < big.arcs(q as int).len() && big.arcs(q as int)[j] == x;
                assert(elem_accepts(big.arcs(q as int)[j].0, v));
                assert(big.arc_on(q, v, t));
            }
            small.lemma_closure_monotone(big, a, b);
        }
        if small.accepts_word(w) {
            let q = choose|q: usize| #[trigger] small.reached(w).contains(q) && small.is_accepting(q);
            assert(big.reached(w).contains(q));
        }
    }

    /// Adding the transition `from -> to` on `elem` adds `to` to the states one move on `v`
    /// reaches from a set exactly when the set holds `from` and `elem` accepts `v`.
    pub proof fn lemma_transition_added_step(
        before: TernaryNFA,
        after: TernaryNFA,
        from: usize,
        elem: PatternElem,
        to: usize,
        s: Set<usize>,
        v: Ternary,
    )
        requires
            from < before.size(),
            after.size() == before.size(),
            after.arcs(from as int) == before.arcs(from as int).push((elem, to)),
            forall|q: int| 0 <= q < before.size() && q != from ==> #[trigger] after.arcs(q) == before.arcs(q),
        ensures
            after.step(s, v) == before.step(s, v).union(
                if s.contains(from) && elem_accepts(elem, v) {
                    set![to]
                } else {
                    Set::<usize>::empty()
                },
            ),
    {
        let extra = if s.contains(from) && elem_accepts(elem, v) {
            set![to]
        } else {
            Set::<usize>::empty()
        };
        assert forall|t: usize| #[trigger] after.step(s, v).contains(t) <==> before.step(s, v).union(extra).contains(t) by {
            if after.step(s, v).contains(t) {
                let q = choose|q: usize| s.contains(q) && #[trigger] after.arc_on(q, v, t);
                let i = choose|i: int|
                    0 <= i < after.arcs(q as int).len() && elem_accepts(#[trigger] after.arcs(q as int)[i].0, v)
                        && after.arcs(q as int)[i].1 == t;
                if q == from && i == before.arcs(q as int).len() {
                    assert(extra.contains(t));
                } else {
                    assert(after.arcs(q as int)[i] == before.arcs(q as int)[i]);
                    assert(elem_accepts(before.arcs(q as int)[i].0, v));
                    assert(before.arc_on(q, v, t));
                }
            }
            if before.step(s, v).contains(t) {
                let q = choose|q: usize| s.contains(q) && #[trigger] before.arc_on(q, v, t);
                let i = choose|i: int|
                    0 <= i < before.arcs(q as int).len() && elem_accepts(#[trigger] before.arcs(q as int)[i].0, v)
                        && before.arcs(q as int)[i].1 == t;
                assert(after.arcs(q as int)[i] == before.arcs(q as int)[i]);
                assert(elem_accepts(after.arcs(q as int)[i].0, v));
                assert(after.arc_on(q, v, t));
            }
            if extra.contains(t) {
                let i = before.arcs(from as int).len() as int;
                assert(after.arcs(from as int)[i] == (elem, to));
                assert(elem_accepts(after.arcs(from as int)[i].0, v));
                assert(after.arc_on(from, v, t));
            }
        }
        assert(after.step(s, v) =~= before.step(s, v).union(extra));
    }

    /// Adding the epsilon transition `from -> to` enlarges the closure of a set exactly by the
    /// old closure of `to`, and only when `from` was already in the set's closure.
    pub proof fn lemma_epsilon_added_closure(before: TernaryNFA, after: TernaryNFA, from: usize, to: usize, s: Set<usize>)
        requires
            from < before.size(),
            after.size() == before.size(),
            after.eps_arcs(from as int) == before.eps_arcs(from as int).push(to),
            forall|q: int| 0 <= q < before.size() && q != from ==> #[trigger] after.eps_arcs(q) == before.eps_arcs(q),
        ensures
            after.eps_closure_of(s) == before.eps_closure_of(s).union(
                if before.eps_closure_of(s).contains(from) {
                    before.eps_closure_of(set![to])
                } else {
                    Set::<usize>::empty()
                },
            ),
    {
        let old_c = before.eps_closure_of(s);
        let extra = if old_c.contains(from) {
            before.eps_closure_of(set![to])
        } else {
            Set::<usize>::empty()
        };
        let c = old_c.union(extra);
        assert forall|x: usize, y: usize| #[trigger] after.eps_edge(x, y) <==> before.eps_edge(x, y) || (x == from && y == to) by {
            if x == from {
                assert(after.eps_arcs(x as int).contains(y) <==> before.eps_arcs(x as int).contains(y) || y == to) by {
                    if after.eps_arcs(x as int).contains(y) {
                        let i = choose|i: int| 0 <= i < after.eps_arcs(x as int).len() && after.eps_arcs(x as int)[i] == y;
                        if i < before.eps_arcs(x as int).len() {
                            assert(before.eps_arcs(x as int)[i] == y);
                        }
                    }
                    if before.eps_arcs(x as int).contains(y) {
                        let i = choose|i: int| 0 <= i < before.eps_arcs(x as int).len() && before.eps_arcs(x as int)[i] == y;
                        assert(after.eps_arcs(x as int)[i] == y);
                    }
                    if y == to {
                        assert(after.eps_arcs(x as int)[before.eps_arcs(x as int).len() as int] == y);
                    }
                }
            } else if x < before.size() {
                assert(after.eps_arcs(x as int) == before.eps_arcs(x as int));
            }
        }
        // the new closure lies within `c`
        assert forall|x: usize| s.contains(x) implies c.contains(x) by {
            before.lemma_closure_base(s, x);
        }
        assert forall|x: usize, y: usize| c.contains(x) && #[trigger] after.eps_edge(x, y) implies c.contains(y) by {
            if before.eps_edge(x, y) {
                if old_c.contains(x) {
                    before.lemma_closure_step(s, x, y);
                } else {
                    before.lemma_closure_step(set![to], x, y);
                }
            } else {
                assert(x == from && y == to);
                before.lemma_closure_base(set![to], to);
            }
        }
        after.lemma_closure_least(s, c);
        // and holds all of `c`
        assert forall|x: usize, y: usize| #[trigger] before.eps_edge(x, y) implies after.eps_edge(x, y) by {}
        before.lemma_closure_monotone(after, s, s);
        if old_c.contains(from) {
            let nc = after.eps_closure_of(s);
            after.lemma_closure_step(s, from, to);
            assert forall|x: usize, y: usize| nc.contains(x) && #[trigger] after.eps_edge(x, y) implies nc.contains(y) by {
                after.lemma_closure_step(s, x, y);
            }
            assert(set![to].subset_of(nc));
            after.lemma_closure_least(set![to], nc);
            before.lemma_closure_monotone(after, set![to], set![to]);
        }
        assert(after.eps_closure_of(s) =~= c);
    }

    /// Create a new NFA with `n` states.
    pub fn new(n: usize) -> (nfa: Self)
        ensures
            nfa.wf(),
            nfa.size() == n,
            nfa.initial() == 0,
            forall|s: usize| !#[trigger] nfa.is_accepting(s),
            forall|s: int| 0 <= s < n ==> #[trigger] nfa.arcs(s) == Seq::<(PatternElem, usize)>::empty(),
            forall|s: int| 0 <= s < n ==> #[trigger] nfa.eps_arcs(s) == Seq::<usize>::empty(),
    {
        let mut transitions: Vec<Vec<NfaTransition>> = Vec::new();
        let mut epsilon: Vec<Vec<NfaState>> = Vec::new();
        let mut i: usize = 0;
        while i < n
            invariant
                i <= n,
                transitions@.len() == i,
                epsilon@.len() == i,
                forall|j: int| 0 <= j < i ==> (#[trigger] transitions@[j])@.len() == 0,
                forall|j: int| 0 <= j < i ==> (#[trigger] epsilon@[j])@.len() == 0,
            decreases n - i,
        {
            transitions.push(Vec::new());
            epsilon.push(Vec::new());
            i = i + 1;
        }
        let nfa = TernaryNFA { state_count: n, transitions, epsilon, start: 0, accept: all_false(n) };
        assert forall|s: int| 0 <= s < n implies #[trigger] nfa.arcs(s) == Seq::<(PatternElem, usize)>::empty() by {
            assert(nfa.arcs(s) =~= Seq::<(PatternElem, usize)>::empty());
        }
        nfa
    }

    /// Add a transition from `from` to `to` on `elem`.
    pub fn add_transition(&mut self, from: NfaState, elem: PatternElem, to: NfaState)
        requires
            old(self).tables_sized(),
            from < old(self).size(),
        ensures
            final(self).tables_sized(),
            final(self).wf() == (old(self).wf() && to < old(self).size()),
            final(self).size() == old(self).size(),
            final(self).declared_size() == old(self).declared_size(),
            final(self).flag_count() == old(self).flag_count(),
            final(self).initial() == old(self).initial(),
            forall|q: usize| #[trigger] final(self).is_accepting(q) == old(self).is_accepting(q),
            final(self).arcs(from as int) == old(self).arcs(from as int).push((elem, to)),
            forall|s: int| 0 <= s < old(self).size() && s != from ==> #[trigger] final(self).arcs(s)
                == old(self).arcs(s),
            forall|s: int| 0 <= s < old(self).size() ==> #[trigger] final(self).eps_arcs(s)
                == old(self).eps_arcs(s),
    {
        self.transitions[from].push(NfaTransition { elem, target: to });
        assert(self.epsilon@ == old(self).epsilon@);
        assert(forall|q: int| #[trigger] self.eps_arcs(q) == old(self).eps_arcs(q));
        assert forall|s: int| 0 <= s < self.size() && s != from implies #[trigger] self.arcs(s) == old(self).arcs(s) by {
            assert(self.transitions@[s] == old(self).transitions@[s]);
        }
        assert(self.arcs(from as int) =~= old(self).arcs(from as int).push((elem, to)));
        proof {
            if old(self).wf() && to < self.size() {
                assert forall|s: int, i: int|
                    0 <= s < self.size() && 0 <= i < self.arcs(s).len() implies #[trigger] self.arcs(s)[i].1
                        < self.size() by {
                    if s == from && i == self.arcs(s).len() - 1 {
                    } else {
                        assert(self.arcs(s)[i] == old(self).arcs(s)[i]);
                    }
                }
            }
            if self.wf() {
                assert(self.arcs(from as int)[old(self).arcs(from as int).len() as int].1 == to);
                assert forall|s: int, i: int|
                    0 <= s < old(self).size() && 0 <= i < old(self).arcs(s).len() implies #[trigger] old(self).arcs(s)[i].1
                        < old(self).size() by {
                    assert(self.arcs(s)[i] == old(self).arcs(s)[i]);
                }
                assert forall|s: int, i: int|
                    0 <= s < old(self).size() && 0 <= i < old(self).eps_arcs(s).len() implies #[trigger] old(self).eps_arcs(s)[i]
                        < old(self).size() by {
                    assert(self.eps_arcs(s)[i] == old(self).eps_arcs(s)[i]);
                }
            }
        }
    }

    /// Add an epsilon transition from `from` to `to`.
    pub fn add_epsilon(&mut self, from: NfaState, to: NfaState)
        requires
            old(self).tables_sized(),
            from < old(self).size(),
        ensures
            final(self).tables_sized(),
            final(self).wf() == (old(self).wf() && to < old(self).size()),
            final(self).size() == old(self).size(),
            final(self).declared_size() == old(self).declared_size(),
            final(self).flag_count() == old(self).flag_count(),
            final(self).initial() == old(self).initial(),
            forall|q: usize| #[trigger] final(self).is_accepting(q) == old(self).is_accepting(q),
            final(self).eps_arcs(from as int) == old(self).eps_arcs(from as int).push(to),
            forall|s: int| 0 <= s < old(self).size() && s != from ==> #[trigger] final(self).eps_arcs(s)
                == old(self).eps_arcs(s),
            forall|s: int| 0 <= s < old(self).size() ==> #[trigger] final(self).arcs(s)
                == old(self).arcs(s),
    {
        self.epsilon[from].push(to);
        assert(self.transitions@ == old(self).transitions@);
        assert(forall|q: int| #[trigger] self.arcs(q) == old(self).arcs(q));
        assert forall|s: int| 0 <= s < self.size() && s != from implies #[trigger] self.eps_arcs(s) == old(self).eps_arcs(s) by {
            assert(self.epsilon@[s] == old(self).epsilon@[s]);
        }
        assert(self.eps_arcs(from as int) =~= old(self).eps_arcs(from as int).push(to));
        proof {
            if old(self).wf() && to < self.size() {
                assert forall|s: int, i: int|
                    0 <= s < self.size() && 0 <= i < self.eps_arcs(s).len() implies #[trigger] self.eps_arcs(s)[i]
                        < self.size() by {
                    if s == from && i == self.eps_arcs(s).len() - 1 {
                    } else {
                        assert(self.eps_arcs(s)[i] == old(self).eps_arcs(s)[i]);
                    }
                }
            }
            if self.wf() {
                assert(self.eps_arcs(from as int)[old(self).eps_arcs(from as int).len() as int] == to);
                assert forall|s: int, i: int|
                    0 <= s < old(self).size() && 0 <= i < old(self).eps_arcs(s).len() implies #[trigger] old(self).eps_arcs(s)[i]
                        < old(self).size() by {
                    assert(self.eps_arcs(s)[i] == old(self).eps_arcs(s)[i]);
                }
                assert forall|s: int, i: int|
                    0 <= s < old(self).size() && 0 <= i < old(self).arcs(s).len() implies #[trigger] old(self).arcs(s)[i].1
                        < old(self).size() by {
                    assert(self.arcs(s)[i] == old(self).arcs(s)[i]);
                }
            }
        }
    }

    /// Set state `s` as accepting.
    pub fn set_accept(&mut self, s: NfaState)
        requires
            s < old(self).flag_count(),
        ensures
            final(self).tables_sized() == old(self).tables_sized(),
            final(self).flag_count() == old(self).flag_count(),
            final(self).declared_size() == old(self).declared_size(),
            final(self).wf() == old(self).wf(),
            final(self).size() == old(self).size(),
            final(self).initial() == old(self).initial(),
            forall|q: usize| #[trigger] final(self).is_accepting(q) == (q == s || old(self).is_accepting(q)),
            forall|q: int| 0 <= q < old(self).size() ==> #[trigger] final(self).arcs(q) == old(self).arcs(q),
            forall|q: int| 0 <= q < old(self).size() ==> #[trigger] final(self).eps_arcs(q)
                == old(self).eps_arcs(q),
    {
        self.accept.set(s, true);
        assert(self.transitions@ == old(self).transitions@);
        assert(self.epsilon@ == old(self).epsilon@);
        assert(self.size() == old(self).size());
        assert(forall|q: int| #[trigger] self.arcs(q) == old(self).arcs(q));
        assert(forall|q: int| #[trigger] self.eps_arcs(q) == old(self).eps_arcs(q));
        proof {
            if old(self).wf() {
                assert(self.wf());
            }
            if self.wf() {
                assert forall|q: int, i: int|
                    0 <= q < old(self).size() && 0 <= i < old(self).arcs(q).len() implies #[trigger] old(self).arcs(q)[i].1
                        < old(self).size() by {
                    assert(self.arcs(q) == old(self).arcs(q));
                }
                assert forall|q: int, i: int|
                    0 <= q < old(self).size() && 0 <= i < old(self).eps_arcs(q).len() implies #[trigger] old(self).eps_arcs(q)[i]
                        < old(self).size() by {
                    assert(self.eps_arcs(q) == old(self).eps_arcs(q));
                }
            }
        }
    }

    /// Some transition among the first `j` of state `s` accepts `val` and leads to `t`.
    pub open spec fn arc_among(self, s: usize, val: Ternary, t: usize, j: int) -> bool {
        exists|i: int|
            0 <= i < j && elem_accepts(#[trigger] self.arcs(s as int)[i].0, val) && self.arcs(s as int)[i].1 == t
    }

    /// Some state among the first `i` of `states` has a transition on `val` to `t`.
    pub open spec fn stepped_among(self, states: Seq<usize>, val: Ternary, t: usize, i: int) -> bool {
        exists|k: int| 0 <= k < i && #[trigger] self.arc_on(states[k], val, t)
    }

    /// Compute epsilon closure of a set of states.
    pub fn epsilon_closure(&self, states: &[NfaState]) -> (r: Vec<NfaState>)
        requires
            self.tables_sized(),
            self.closure_in_range(states@.to_set()),
        ensures
            strictly_increasing(r@),
            all_below(r@, self.size() as int),
            r@.to_set() == self.eps_closure_of(states@.to_set()),
    {
        let n = self.epsilon.len();
        let ghost from = states@.to_set();
        assert forall|k: int| 0 <= k < states@.len() implies #[trigger] states@[k] < n by {
            assert(from.contains(states@[k]));
            self.lemma_closure_base(from, states@[k]);
        }
        let mut seen = all_false(n);
        let mut closure: Vec<NfaState> = Vec::new();
        let mut i: usize = 0;
        while i < states.len()
            invariant
                n == self.size(),
                i <= states@.len(),
                seen@.len() == n,
                forall|k: int| 0 <= k < states@.len() ==> #[trigger] states@[k] < n,
                closure@ == states@.take(i as int),
                forall|t: usize| t < n ==> (seen@[t as int] <==> #[trigger] closure@.contains(t)),
            decreases states@.len() - i,
        {
            let s = states[i];
            proof {
                lemma_mark_seen(seen@, closure@, s, n);
            }
            closure.push(s);
            seen.set(s, true);
            assert(closure@ =~= states@.take(i + 1));
            i = i + 1;
        }
        assert(closure@ =~= states@);
        assert forall|k: int| 0 <= k < closure@.len() implies self.eps_closure_of(from).contains(#[trigger] closure@[k]) by {
            assert(from.contains(states@[k]));
            self.lemma_closure_base(from, states@[k]);
        }
        let mut idx: usize = 0;
        while idx < closure.len()
            invariant
                self.tables_sized(),
                self.closure_in_range(from),
                n == self.size(),
                from == states@.to_set(),
                seen@.len() == n,
                idx <= closure@.len(),
                all_below(closure@, n as int),
                forall|t: usize| t < n ==> (seen@[t as int] <==> #[trigger] closure@.contains(t)),
                forall|k: int| 0 <= k < closure@.len() ==> self.eps_closure_of(from).contains(#[trigger] closure@[k]),
                forall|t: usize| from.contains(t) ==> #[trigger] closure@.contains(t),
                forall|k: int, t: usize| 0 <= k < idx && #[trigger] self.eps_edge(closure@[k], t) ==> seen@[t as int],
            decreases count_false(seen@) + closure@.len() - idx,
        {
            let s = closure[idx];
            let eps = &self.epsilon[s];
            assert(eps@ == self.eps_arcs(s as int));
            let ghost seen0 = seen@;
            let ghost closure0 = closure@;
            let ghost measure0 = count_false(seen@) + closure@.len();
            assert forall|jj: int| 0 <= jj < eps@.len() implies #[trigger] eps@[jj] < n by {
                assert(self.eps_edge(s, eps@[jj]));
                self.lemma_closure_step(from, s, eps@[jj]);
            }
            let mut j: usize = 0;
            while j < eps.len()
                invariant
                    self.tables_sized(),
                self.closure_in_range(from),
                    n == self.size(),
                    from == states@.to_set(),
                    s < n,
                    eps@ == self.eps_arcs(s as int),
                    seen@.len() == n,
                    j <= eps@.len(),
                    idx < closure0.len(),
                    closure0[idx as int] == s,
                    closure@.len() >= closure0.len(),
                    closure@.subrange(0, closure0.len() as int) == closure0,
                    count_false(seen@) + closure@.len() == measure0,
                    seen0.len() == n,
                    forall|t: usize| t < n && seen0[t as int] ==> seen@[t as int],
                    all_below(closure@, n as int),
                    forall|t: usize| t < n ==> (seen@[t as int] <==> #[trigger] closure@.contains(t)),
                    forall|k: int| 0 <= k < closure@.len() ==> self.eps_closure_of(from).contains(#[trigger] closure@[k]),
                    forall|jj: int| 0 <= jj < eps@.len() ==> #[trigger] eps@[jj] < n,
                    forall|jj: int| 0 <= jj < j ==> seen@[#[trigger] eps@[jj] as int],
                decreases eps@.len() - j,
            {
                let t = eps[j];
                proof {
                    assert(eps@[j as int] == t);
                    assert(self.eps_edge(s, t));
                    assert(self.eps_closure_of(from).contains(s));
                    self.lemma_closure_step(from, s, t);
                    assert(t < n);
                }
                if !seen[t] {
                    proof {
                        lemma_count_false_set(seen@, t as int);
                        assert(self.eps_edge(s, t));
                        self.lemma_closure_step(from, s, t);
                        lemma_mark_seen(seen@, closure@, t, n);
                    }
                    seen.set(t, true);
                    closure.push(t);
                }
                j = j + 1;
            }
            proof {
                assert forall|k: int| 0 <= k < closure0.len() implies #[trigger] closure@[k] == closure0[k] by {
                    assert(closure@.subrange(0, closure0.len() as int)[k] == closure0[k]);
                }
                assert forall|k: int, t: usize| 0 <= k < idx + 1 && #[trigger] self.eps_edge(closure@[k], t)
                    implies seen@[t as int] by {
                    if k == idx {
                        let jj = choose|jj: int| 0 <= jj < eps@.len() && eps@[jj] == t;
                        assert(seen@[eps@[jj] as int]);
                    } else {
                        assert(self.eps_edge(closure0[k], t));
                        assert(closure0[k] == closure@[k]);
                        self.lemma_closure_step(from, closure0[k], t);
                    }
                }
                assert forall|t: usize| from.contains(t) implies #[trigger] closure@.contains(t) by {
                    assert(closure0.contains(t));
                    let k = choose|k: int| 0 <= k < closure0.len() && closure0[k] == t;
                    assert(closure@[k] == t);
                }
            }
            idx = idx + 1;
        }
        proof {
            let c = closure@.to_set();
            assert forall|s: usize, t: usize| c.contains(s) && #[trigger] self.eps_edge(s, t) implies c.contains(t) by {
                let k = choose|k: int| 0 <= k < closure@.len() && closure@[k] == s;
                assert(self.eps_closure_of(from).contains(s));
                self.lemma_closure_step(from, s, t);
            }
            self.lemma_closure_least(from, c);
        }
        let r = members_in_order(&seen);
        proof {
            assert forall|t: usize| r@.to_set().contains(t) <==> self.eps_closure_of(from).contains(t) by {
                if self.eps_closure_of(from).contains(t) {
                    assert(closure@.to_set().contains(t));
                    assert(closure@.contains(t));
                    let k = choose|k: int| 0 <= k < closure@.len() && closure@[k] == t;
                    assert(t < n);
                    assert(seen@[t as int]);
                    assert(r@.contains(t));
                }
                if r@.contains(t) {
                    assert(t < n && seen@[t as int]);
                    assert(closure@.contains(t));
                    let k = choose|k: int| 0 <= k < closure@.len() && closure@[k] == t;
                    assert(self.eps_closure_of(from).contains(closure@[k]));
                }
            }
            assert(r@.to_set() =~= self.eps_closure_of(from));
        }
        r
    }

    /// Compute the set of states reachable from `states` on input `val`.
    pub fn move_on(&self, states: &[NfaState], val: Ternary) -> (r: Vec<NfaState>)
        requires
            self.tables_sized(),
            forall|i: int| 0 <= i < states@.len() ==> #[trigger] states@[i] < self.size(),
        ensures
            strictly_increasing(r@),
            r@.to_set() == self.step(states@.to_set(), val),
            self.wf() ==> all_below(r@, self.size() as int),
    {
        let mut result: Vec<NfaState> = Vec::new();
        let mut i: usize = 0;
        while i < states.len()
            invariant
                self.tables_sized(),
                i <= states@.len(),
                forall|k: int| 0 <= k < states@.len() ==> #[trigger] states@[k] < self.size(),
                strictly_increasing(result@),
                forall|t: usize| #[trigger] result@.contains(t) <==> self.stepped_among(states@, val, t, i as int),
            decreases states@.len() - i,
        {
            let s = states[i];
            let trs = &self.transitions[s];
            let mut j: usize = 0;
            while j < trs.len()
                invariant
                    self.tables_sized(),
                    s < self.size(),
                    i < states@.len(),
                    states@[i as int] == s,
                    trs@ == self.transitions@[s as int]@,
                    j <= trs@.len(),
                    strictly_increasing(result@),
                    forall|t: usize| #[trigger] result@.contains(t) <==> (self.stepped_among(states@, val, t, i as int)
                        || self.arc_among(s, val, t, j as int)),
                decreases trs@.len() - j,
            {
                let tr = trs[j];
                assert(self.arcs(s as int)[j as int] == (tr.elem, tr.target));
                let ok = TernaryPattern::elem_matches(tr.elem, val);
                let ghost before = result@;
                if ok {
                    insert_sorted(&mut result, tr.target);
                }
                assert forall|t: usize| #[trigger] result@.contains(t) <==> (self.stepped_among(states@, val, t, i as int)
                    || self.arc_among(s, val, t, j + 1)) by {
                    assert(before.contains(t) <==> (self.stepped_among(states@, val, t, i as int)
                        || self.arc_among(s, val, t, j as int)));
                    if self.arc_among(s, val, t, j + 1) && !self.arc_among(s, val, t, j as int) {
                        let w = choose|w: int| 0 <= w < j + 1 && elem_accepts(#[trigger] self.arcs(s as int)[w].0, val)
                            && self.arcs(s as int)[w].1 == t;
                        assert(w == j);
                    }
                    if ok && t == tr.target {
                        assert(elem_accepts(self.arcs(s as int)[j as int].0, val));
                        assert(self.arc_among(s, val, t, j + 1));
                    }
                    if self.arc_among(s, val, t, j as int) {
                        let w = choose|w: int| 0 <= w < j && elem_accepts(#[trigger] self.arcs(s as int)[w].0, val)
                            && self.arcs(s as int)[w].1 == t;
                        assert(self.arc_among(s, val, t, j + 1));
                    }
                }
                j = j + 1;
            }
            assert(trs@.len() == self.arcs(s as int).len());
            assert forall|t: usize| #[trigger] result@.contains(t) <==> self.stepped_among(states@, val, t, i + 1) by {
                if self.arc_among(s, val, t, trs@.len() as int) {
                    assert(self.arc_on(states@[i as int], val, t));
                }
                if self.stepped_among(states@, val, t, i + 1) && !self.stepped_among(states@, val, t, i as int) {
                    let k = choose|k: int| 0 <= k < i + 1 && #[trigger] self.arc_on(states@[k], val, t);
                    assert(k == i);
                    assert(self.arc_among(s, val, t, trs@.len() as int));
                }
                if self.stepped_among(states@, val, t, i as int) {
                    let k = choose|k: int| 0 <= k < i && #[trigger] self.arc_on(states@[k], val, t);
                    assert(self.stepped_among(states@, val, t, i + 1));
                }
            }
            i = i + 1;
        }
        proof {
            let from = states@.to_set();
            assert forall|t: usize| result@.to_set().contains(t) <==> self.step(from, val).contains(t) by {
                if self.step(from, val).contains(t) {
                    let q = choose|q: usize| from.contains(q) && #[trigger] self.arc_on(q, val, t);
                    let k = choose|k: int| 0 <= k < states@.len() && states@[k] == q;
                    assert(self.stepped_among(states@, val, t, states@.len() as int));
                }
                if result@.contains(t) {
                    assert(self.stepped_among(states@, val, t, states@.len() as int));
                    let k = choose|k: int| 0 <= k < states@.len() && #[trigger] self.arc_on(states@[k], val, t);
                    assert(from.contains(states@[k]));
                }
            }
            assert(result@.to_set() =~= self.step(from, val));
            if self.wf() {
                assert forall|k: int| 0 <= k < result@.len() implies result@[k] < self.size() by {
                    let t = result@[k];
                    assert(result@.contains(t));
                    assert(self.stepped_among(states@, val, t, states@.len() as int));
                    let kk = choose|kk: int| 0 <= kk < states@.len() && #[trigger] self.arc_on(states@[kk], val, t);
                    let q = states@[kk];
                    let w = choose|w: int| 0 <= w < self.arcs(q as int).len() && elem_accepts(#[trigger] self.arcs(q as int)[w].0, val)
                        && self.arcs(q as int)[w].1 == t;
                    assert(self.arcs(q as int)[w].1 < self.size());
                }
            }
        }
        result
    }

    /// Test if the NFA accepts the given input sequence.
    pub fn accepts(&self, input: &[Ternary]) -> (r: bool)
        requires
            self.tables_sized(),
            self.reads_in_range(input@),
            self.flags_cover(self.reached(input@)),
        ensures
            r == self.accepts_word(input@),
    {
        let mut init: Vec<NfaState> = Vec::new();
        init.push(self.start);
        assert(init@[0] == self.start);
        assert forall|t: usize| init@.to_set().contains(t) <==> t == self.initial() by {
            if t == self.initial() {
                assert(init@.contains(t));
            }
        }
        assert(init@.to_set() =~= set![self.initial()]);
        assert(input@.take(0) =~= Seq::<Ternary>::empty());
        assert(self.closure_in_range(init@.to_set())) by {
            assert forall|t: usize| #[trigger] self.eps_closure_of(init@.to_set()).contains(t) implies t < self.size() by {
                assert(self.reached(input@.take(0)).contains(t));
            }
        }
        let mut current = self.epsilon_closure(init.as_slice());
        assert(input@.take(0).len() == 0);
        let mut i: usize = 0;
        while i < input.len()
            invariant
                self.tables_sized(),
                self.reads_in_range(input@),
                i <= input@.len(),
                all_below(current@, self.size() as int),
                strictly_increasing(current@),
                current@.to_set() == self.reached(input@.take(i as int)),
            decreases input@.len() - i,
        {
            let moved = self.move_on(current.as_slice(), input[i]);
            proof {
                let next = input@.take(i + 1);
                assert(next.drop_last() =~= input@.take(i as int));
                assert(next.last() == input@[i as int]);
                assert(self.eps_closure_of(moved@.to_set()) == self.reached(next));
                assert forall|t: usize| #[trigger] self.eps_closure_of(moved@.to_set()).contains(t) implies t < self.size() by {
                    assert(self.reached(input@.take(i + 1)).contains(t));
                }
            }
            current = self.epsilon_closure(moved.as_slice());
            if current.len() == 0 {
                proof {
                    assert(current@.to_set() =~= Set::<usize>::empty());
                    self.lemma_reached_empty_extends(input@, i + 1);
                }
                return false;
            }
            i = i + 1;
        }
        assert(input@.take(input@.len() as int) =~= input@);
        let mut k: usize = 0;
        while k < current.len()
            invariant
                self.tables_sized(),
                self.reads_in_range(input@),
                k <= current@.len(),
                all_below(current@, self.size() as int),
                current@.to_set() == self.reached(input@),
                strictly_increasing(current@),
                self.flags_cover(self.reached(input@)),
                forall|kk: int| 0 <= kk < k ==> !self.is_accepting(#[trigger] current@[kk]),
            decreases current@.len() - k,
        {
            assert(current@.to_set().contains(current@[k as int]));
            assert(self.reached(input@).contains(current@[k as int]));
            proof {
                if current@[k as int] >= self.flag_count() {
                    let s = choose|s: usize|
                        self.reached(input@).contains(s) && s < current@[k as int] && #[trigger] self.is_accepting(s);
                    assert(current@.to_set().contains(s));
                    let j = choose|j: int| 0 <= j < current@.len() && current@[j] == s;
                    assert(j < k);
                }
            }
            if self.accept[current[k]] {
                assert(current@.to_set().contains(current@[k as int]));
                assert(self.reached(input@).contains(current@[k as int]));
                assert(self.is_accepting(current@[k as int]));
                return true;
            }
            k = k + 1;
        }
        proof {
            assert forall|s: usize| #[trigger] self.reached(input@).contains(s) implies !self.is_accepting(s) by {
                assert(current@.to_set().contains(s));
                let kk = choose|kk: int| 0 <= kk < current@.len() && current@[kk] == s;
            }
        }
        false
    }

    /// With no epsilon transitions, the closure of a set is the set itself.
    proof fn lemma_closure_no_eps(self, from: Set<usize>)
        requires
            forall|s: int| 0 <= s < self.size() ==> #[trigger] self.eps_arcs(s).len() == 0,
        ensures
            self.eps_closure_of(from) == from,
    {
        assert forall|s: usize, t: usize| from.contains(s) && #[trigger] self.eps_edge(s, t) implies from.contains(t) by {
            assert(self.eps_arcs(s as int).len() == 0);
        }
        self.lemma_closure_least(from, from);
        assert forall|t: usize| from.contains(t) implies self.eps_closure_of(from).contains(t) by {
            self.lemma_closure_base(from, t);
        }
        assert(self.eps_closure_of(from) =~= from);
    }

    /// The states a chain automaton (state `i` steps to `i + 1` on `elems[i]`) reaches.
    pub(crate) proof fn lemma_chain_reached(self, elems: Seq<PatternElem>, w: Seq<Ternary>)
        requires
            self.size() == elems.len() + 1,
            self.initial() == 0,
            forall|i: int| 0 <= i < elems.len() ==> #[trigger] self.arcs(i) == seq![(elems[i], (i + 1) as usize)],
            self.arcs(elems.len() as int).len() == 0,
            forall|s: int| 0 <= s < self.size() ==> #[trigger] self.eps_arcs(s).len() == 0,
        ensures
            self.reached(w) == (if w.len() <= elems.len() && forall|i: int| 0 <= i < w.len() ==> #[trigger] elem_accepts(elems[i], w[i]) {
                set![w.len() as usize]
            } else {
                Set::<usize>::empty()
            }),
        decreases w.len(),
    {
        self.lemma_size_fits();
        let m = elems.len();
        if w.len() == 0 {
            self.lemma_closure_no_eps(set![0usize]);
        } else {
            let d = w.drop_last();
            let v = w.last();
            self.lemma_chain_reached(elems, d);
            let prev = self.reached(d);
            let nxt = self.step(prev, v);
            self.lemma_closure_no_eps(nxt);
            let ok_d = d.len() <= m && forall|i: int| 0 <= i < d.len() ==> #[trigger] elem_accepts(elems[i], d[i]);
            let ok_w = w.len() <= m && forall|i: int| 0 <= i < w.len() ==> #[trigger] elem_accepts(elems[i], w[i]);
            if ok_d {
                let j = d.len();
                if j < m && elem_accepts(elems[j as int], v) {
                    assert forall|i: int| 0 <= i < w.len() implies #[trigger] elem_accepts(elems[i], w[i]) by {
                        if i < d.len() {
                            assert(elem_accepts(elems[i], d[i]));
                        }
                    }
                    let ju = j as usize;
                    assert(ju as int == j);
                    assert(self.arcs(ju as int)[0] == (elems[j as int], (j + 1) as usize));
                    assert(elem_accepts(self.arcs(ju as int)[0].0, v));
                    assert(self.arc_on(ju, v, (j + 1) as usize));
                    assert forall|t: usize| nxt.contains(t) <==> t == w.len() as usize by {
                        if nxt.contains(t) {
                            let q = choose|q: usize| prev.contains(q) && #[trigger] self.arc_on(q, v, t);
                            assert(q == j);
                        }
                        if t == w.len() as usize {
                            assert(prev.contains(j as usize));
                        }
                    }
                    assert(nxt =~= set![w.len() as usize]);
                } else {
                    assert(!ok_w) by {
                        if j >= m {
                        } else {
                            assert(!elem_accepts(elems[j as int], w[j as int]));
                        }
                    }
                    assert forall|t: usize| !nxt.contains(t) by {
                        if nxt.contains(t) {
                            let q = choose|q: usize| prev.contains(q) && #[trigger] self.arc_on(q, v, t);
                            assert(q == j);
                            if j < m {
                                let x = choose|x: int| 0 <= x < self.arcs(q as int).len() && elem_accepts(#[trigger] self.arcs(q as int)[x].0, v)
                                    && self.arcs(q as int)[x].1 == t;
                                assert(self.arcs(j as int)[0] == (elems[j as int], (j + 1) as usize));
                            }
                        }
                    }
                    assert(nxt =~= Set::<usize>::empty());
                }
            } else {
                assert(!ok_w) by {
                    if ok_w {
                        assert forall|i: int| 0 <= i < d.len() implies #[trigger] elem_accepts(elems[i], d[i]) by {
                            assert(elem_accepts(elems[i], w[i]));
                        }
                    }
                }
                assert(nxt =~= Set::<usize>::empty());
            }
        }
    }

    /// Compile a TernaryPattern into an NFA using Thompson's construction.
    pub fn from_pattern(pattern: &TernaryPattern) -> (nfa: Self)
        requires
            pattern.elements@.len() < usize::MAX,
        ensures
            nfa.wf(),
            nfa.runnable(),
            nfa.size() == pattern.elements@.len() + 1,
            nfa.is_chain_of(pattern.elements@),
            forall|w: Seq<Ternary>| #[trigger] nfa.accepts_word(w) == pattern_matches(pattern.elements@, w),
    {
        let n = pattern.elements.len();
        let mut nfa = TernaryNFA::new(n + 1);
        let mut i: usize = 0;
        while i < n
            invariant
                n == pattern.elements@.len(),
                i <= n,
                nfa.wf(),
                nfa.size() == n + 1,
                nfa.initial() == 0,
                forall|s: usize| !#[trigger] nfa.is_accepting(s),
                forall|k: int| 0 <= k < i ==> #[trigger] nfa.arcs(k) == seq![(pattern.elements@[k], (k + 1) as usize)],
                forall|k: int| i <= k <= n ==> #[trigger] nfa.arcs(k).len() == 0,
                forall|s: int| 0 <= s < nfa.size() ==> #[trigger] nfa.eps_arcs(s).len() == 0,
            decreases n - i,
        {
            nfa.add_transition(i, pattern.elements[i], i + 1);
            assert(nfa.arcs(i as int) =~= seq![(pattern.elements@[i as int], (i + 1) as usize)]);
            i = i + 1;
        }
        nfa.set_accept(n);
        proof {
            nfa.lemma_wf_runnable();
            let elems = pattern.elements@;
            assert forall|w: Seq<Ternary>| #[trigger] nfa.accepts_word(w) == pattern_matches(elems, w) by {
                nfa.lemma_chain_reached(elems, w);
                if pattern_matches(elems, w) {
                    assert(nfa.reached(w).contains(n));
                } else if nfa.accepts_word(w) {
                    let s = choose|s: usize| #[trigger] nfa.reached(w).contains(s) && nfa.is_accepting(s);
                    assert(s == n);
                }
            }
        }
        nfa
    }
}

} // verus!
