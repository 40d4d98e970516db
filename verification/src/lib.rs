//! Pattern matching on ternary sequences (`-1`, `0`, `+1`): patterns, NFAs built by
//! Thompson's construction, DFAs built by subset construction, and partition-refinement
//! minimization, each with a proof that it keeps the language it is given.

mod count;
mod dfa;
mod minimize;
mod nfa;
mod ternary;
mod vecs;

pub use ternary::{Ternary, PatternElem, TernaryPattern};
pub use nfa::TernaryNFA;
pub use dfa::TernaryDFA;

use vstd::prelude::*;

use crate::count::{strictly_increasing, lemma_distinct_ints_bounded, lemma_sorted_same_set};
use crate::ternary::{pattern_matches, accepted_value, elem_accepts};

verus! {

/// The pattern occurs in `input` starting at position `p` of the input. The empty pattern
/// occurs at every position.
pub open spec fn occurs_at(elems: Seq<PatternElem>, input: Seq<Ternary>, p: int) -> bool {
    &&& 0 <= p < input.len()
    &&& p + elems.len() <= input.len()
    &&& pattern_matches(elems, input.subrange(p, p + elems.len()))
}

/// The pattern occurs at `p` exactly when the input splits into a part of length `p`, a
/// part that the pattern matches, and a rest, with `p` a position of the input.
pub proof fn lemma_occurs_at_split(elems: Seq<PatternElem>, input: Seq<Ternary>, p: int)
    ensures
        occurs_at(elems, input, p) <==> 0 <= p < input.len() && exists|w: Seq<Ternary>, rest: Seq<Ternary>|
            #![trigger pattern_matches(elems, w), input.take(p) + w + rest]
            pattern_matches(elems, w) && input == input.take(p) + w + rest,
{
    let m = elems.len();
    if occurs_at(elems, input, p) {
        let w = input.subrange(p, p + m);
        let rest = input.skip(p + m);
        assert(input =~= input.take(p) + w + rest);
        assert(pattern_matches(elems, w));
    }
    if 0 <= p < input.len() && exists|w: Seq<Ternary>, rest: Seq<Ternary>|
        #![trigger pattern_matches(elems, w), input.take(p) + w + rest]
        pattern_matches(elems, w) && input == input.take(p) + w + rest {
        let (w, rest) = choose|w: Seq<Ternary>, rest: Seq<Ternary>|
            #![trigger pattern_matches(elems, w), input.take(p) + w + rest]
            pattern_matches(elems, w) && input == input.take(p) + w + rest;
        assert(w.len() == m);
        assert(input.subrange(p, p + m) =~= w);
    }
}

/// The empty pattern occurs at every position of the input, and a one-element pattern
/// occurs exactly at the positions whose value the element accepts.
pub proof fn lemma_occurs_short(e: PatternElem, input: Seq<Ternary>, p: int)
    ensures
        occurs_at(Seq::<PatternElem>::empty(), input, p) <==> 0 <= p < input.len(),
        occurs_at(seq![e], input, p) <==> 0 <= p < input.len() && elem_accepts(e, input[p]),
{
    if 0 <= p < input.len() {
        assert(pattern_matches(Seq::<PatternElem>::empty(), input.subrange(p, p)));
        let w = input.subrange(p, p + 1);
        assert(w =~= seq![input[p]]);
        crate::ternary::lemma_pattern_single(e, input[p]);
    }
}

/// `w` is read through by the pattern: it is no longer than the pattern and each of its
/// values is accepted by the element at its position.
pub open spec fn prefix_matches(elems: Seq<PatternElem>, w: Seq<Ternary>) -> bool {
    &&& w.len() <= elems.len()
    &&& forall|j: int| 0 <= j < w.len() ==> #[trigger] elem_accepts(elems[j], w[j])
}

/// In the subset DFA of a pattern's chain, an input runs through exactly when the pattern
/// reads it through, and then ends in the state labelled with its length.
proof fn lemma_chain_subset_run(nfa: TernaryNFA, base: TernaryDFA, elems: Seq<PatternElem>, w: Seq<Ternary>)
    requires
        nfa.runnable(),
        nfa.is_chain_of(elems),
        base.is_subset_dfa_of(nfa),
    ensures
        prefix_matches(elems, w) <==> base.run_from(base.start, w) is Some,
        prefix_matches(elems, w) ==> {
            &&& base.run_from(base.start, w).unwrap() < base.state_labels@.len()
            &&& base.state_labels@[base.run_from(base.start, w).unwrap() as int]@ == seq![w.len() as usize]
        },
{
    nfa.lemma_chain_reached(elems, w);
    base.lemma_subset_run(nfa, w);
    if prefix_matches(elems, w) {
        nfa.lemma_size_fits();
        let j = w.len() as usize;
        assert(nfa.reached(w) == set![j]);
        assert(set![j].contains(j));
        let c = base.run_from(base.start, w).unwrap() as int;
        let one = seq![j];
        assert(one[0] == j);
        assert(one.to_set() =~= set![j]);
        assert(strictly_increasing(base.state_labels@[c]@));
        lemma_sorted_same_set(base.state_labels@[c]@, one);
    }
}

/// Convenience: compile a pattern to a minimized DFA. The result has one state per
/// position in the pattern (none for a dead end, as missing moves reject) and exactly one
/// accepting state, the one reached after a whole match. An input runs through exactly when
/// the pattern reads it through, and then ends in the state labelled with its length.
pub fn compile(pattern: &TernaryPattern) -> (dfa: TernaryDFA)
    requires
        pattern.elements@.len() < usize::MAX,
    ensures
        dfa.wf(),
        forall|w: Seq<Ternary>| #[trigger] dfa.accepts_word(w) == pattern_matches(pattern.elements@, w),
        dfa.transitions@.len() == pattern.elements@.len() + 1,
        exists|a: int| #[trigger] dfa.only_accepting(a),
        forall|w: Seq<Ternary>| prefix_matches(pattern.elements@, w) <==> #[trigger] dfa.run_from(dfa.start, w) is Some,
        forall|w: Seq<Ternary>| prefix_matches(pattern.elements@, w) ==> {
            &&& #[trigger] dfa.run_from(dfa.start, w).unwrap() < dfa.state_labels@.len()
            &&& dfa.state_labels@[dfa.run_from(dfa.start, w).unwrap() as int]@ == seq![w.len() as usize]
        },
{
    let nfa = TernaryNFA::from_pattern(pattern);
    let dfa = TernaryDFA::from_nfa(&nfa);
    proof {
        assert(nfa.is_chain_of(pattern.elements@));
        dfa.lemma_chain_subset(nfa, pattern.elements@);
        dfa.lemma_wf_minimizable();
    }
    let min = dfa.minimize();
    assert forall|w: Seq<Ternary>| #[trigger] min.accepts_word(w) == pattern_matches(pattern.elements@, w) by {
        assert(min.accepts_word(w) == dfa.accepts_word(w));
        assert(dfa.accepts_word(w) == nfa.accepts_word(w));
    }
    proof {
        let n = dfa.state_labels@.len();
        let a = choose|a: int| #[trigger] dfa.only_accepting(a);
        let elems = pattern.elements@;
        if n <= 1 {
            assert(min.only_accepting(a));
            assert forall|w: Seq<Ternary>| prefix_matches(elems, w) <==> #[trigger] min.run_from(min.start, w) is Some by {
                lemma_chain_subset_run(nfa, dfa, elems, w);
                dfa.lemma_same_run(min, dfa.start, w);
            }
            assert forall|w: Seq<Ternary>| prefix_matches(elems, w) implies {
                &&& #[trigger] min.run_from(min.start, w).unwrap() < min.state_labels@.len()
                &&& min.state_labels@[min.run_from(min.start, w).unwrap() as int]@ == seq![w.len() as usize]
            } by {
                lemma_chain_subset_run(nfa, dfa, elems, w);
                dfa.lemma_same_run(min, dfa.start, w);
                let c = dfa.run_from(dfa.start, w).unwrap() as int;
                assert(min.state_labels@[c]@ == dfa.state_labels@[c]@);
            }
        } else {
            let sp = choose|sp: Seq<usize>|
                #[trigger] TernaryDFA::quotient_by(min, dfa, sp) && dfa.blocks_are_agreement_classes(sp);
            let m = min.state_labels@.len();
            assert forall|s: int, t: int| 0 <= s < n && 0 <= t < n && s != t implies sp[s] != sp[t] by {
                assert(dfa.distinguishable(s, t));
                let k = choose|k: nat| !#[trigger] dfa.agree_within(s, t, k);
                assert((sp[s] == sp[t]) <==> forall|k: nat| #[trigger] dfa.agree_within(s, t, k));
            }
            let img = Seq::new(n, |s: int| sp[s] as int);
            assert forall|i: int, j: int| 0 <= i < j < img.len() implies img[i] != img[j] by {
                assert(sp[i] != sp[j]);
            }
            lemma_distinct_ints_bounded(img, 0, m as int);
            let qa = sp[a] as int;
            assert forall|q: int| 0 <= q < min.accept@.len() implies (#[trigger] min.accept@[q] <==> q == qa) by {
                assert(TernaryDFA::block_used(sp, q));
                let s = choose|s: int| 0 <= s < sp.len() && #[trigger] sp[s] == q;
                assert(min.accept@[sp[s] as int] == dfa.accept@[s]);
                if s != a {
                    assert(sp[s] != sp[a]);
                }
            }
            assert(min.only_accepting(qa));
            assert forall|w: Seq<Ternary>| prefix_matches(elems, w) <==> #[trigger] min.run_from(min.start, w) is Some by {
                lemma_chain_subset_run(nfa, dfa, elems, w);
                dfa.lemma_quotient_run(min, sp, w);
            }
            assert forall|w: Seq<Ternary>| prefix_matches(elems, w) implies {
                &&& #[trigger] min.run_from(min.start, w).unwrap() < min.state_labels@.len()
                &&& min.state_labels@[min.run_from(min.start, w).unwrap() as int]@ == seq![w.len() as usize]
            } by {
                lemma_chain_subset_run(nfa, dfa, elems, w);
                dfa.lemma_quotient_run(min, sp, w);
                let c = dfa.run_from(dfa.start, w).unwrap() as int;
                let q = sp[c] as int;
                let j = w.len() as usize;
                assert(min.run_from(min.start, w).unwrap() == q);
                assert forall|x: usize| min.state_labels@[q]@.to_set().contains(x) <==> seq![j].to_set().contains(x) by {
                    assert(seq![j][0] == j);
                    if min.state_labels@[q]@.to_set().contains(x) {
                        assert(min.state_labels@[q]@.contains(x));
                        assert(TernaryDFA::block_label_has(dfa, sp, q, x));
                        let s = choose|s: int| 0 <= s < sp.len() && sp[s] == q && #[trigger] dfa.state_labels@[s]@.contains(x);
                        if s != c {
                            assert(sp[s] != sp[c]);
                        }
                        let i = choose|i: int| 0 <= i < dfa.state_labels@[c]@.len() && dfa.state_labels@[c]@[i] == x;
                        assert(seq![j].contains(x));
                    }
                    if seq![j].to_set().contains(x) {
                        let i = choose|i: int| 0 <= i < seq![j].len() && seq![j][i] == x;
                        assert(x == j);
                        assert(dfa.state_labels@[c]@[0] == j);
                        assert(dfa.state_labels@[c]@.contains(x));
                        assert(TernaryDFA::block_label_has(dfa, sp, q, x));
                        assert(min.state_labels@[q]@.contains(x));
                    }
                }
                assert(min.state_labels@[q]@.to_set() =~= seq![j].to_set());
                assert(strictly_increasing(seq![j]));
                lemma_sorted_same_set(min.state_labels@[q]@, seq![j]);
            }
        }
    }
    min
}

/// No DFA accepts the inputs that match a pattern with fewer states than the pattern has
/// positions: the prefixes of a matching input of each length lead to pairwise different
/// states. The DFA that `compile` gives has exactly that many.
pub proof fn lemma_no_smaller_dfa(elems: Seq<PatternElem>, other: TernaryDFA)
    requires
        other.wf(),
        forall|w: Seq<Ternary>| #[trigger] other.accepts_word(w) == pattern_matches(elems, w),
    ensures
        other.transitions@.len() >= elems.len() + 1,
{
    let n = elems.len();
    let v = Seq::new(n, |i: int| accepted_value(elems[i]));
    assert(pattern_matches(elems, v));
    assert(other.accepts_word(v));
    assert forall|j: int| 0 <= j <= n implies #[trigger] other.run_from(other.start, v.take(j)) is Some by {
        assert(v.take(j) + v.skip(j) =~= v);
        other.lemma_run_concat(other.start, v.take(j), v.skip(j));
    }
    let states = Seq::new((n + 1) as nat, |j: int| other.run_from(other.start, v.take(j)).unwrap() as int);
    assert forall|j: int| 0 <= j < states.len() implies 0 <= #[trigger] states[j] < other.transitions@.len() by {
        assert(other.run_from(other.start, v.take(j)) is Some);
        other.lemma_run_in_range(other.start, v.take(j));
    }
    assert forall|i: int, j: int| 0 <= i < j < states.len() implies states[i] != states[j] by {
        let u = v.skip(j);
        let si = other.run_from(other.start, v.take(i)).unwrap();
        let sj = other.run_from(other.start, v.take(j)).unwrap();
        assert(other.run_from(other.start, v.take(i)) is Some);
        assert(other.run_from(other.start, v.take(j)) is Some);
        assert(v.take(j) + u =~= v);
        other.lemma_run_concat(other.start, v.take(j), u);
        other.lemma_run_concat(other.start, v.take(i), u);
        if si == sj {
            assert(other.run_from(other.start, v.take(i) + u) == other.run_from(other.start, v));
            assert(other.accepts_word(v.take(i) + u));
            assert((v.take(i) + u).len() < n);
            assert(!pattern_matches(elems, v.take(i) + u));
        }
    }
    lemma_distinct_ints_bounded(states, 0, other.transitions@.len() as int);
}

/// A DFA whose states are all reachable from the start, can all still reach acceptance,
/// and are pairwise told apart by some input is the smallest for its language: every
/// well-formed DFA that accepts the same inputs has at least as many states. (`minimize`
/// gives such a DFA from one whose states are all reachable and can all reach acceptance.)
pub proof fn lemma_no_smaller_equivalent(a: TernaryDFA, other: TernaryDFA)
    requires
        a.wf(),
        forall|c: int| 0 <= c < a.state_labels@.len() ==> #[trigger] a.state_reachable(c),
        forall|c: int| 0 <= c < a.state_labels@.len() ==> #[trigger] a.can_accept(c),
        forall|q: int, r: int|
            0 <= q < a.state_labels@.len() && 0 <= r < a.state_labels@.len() && q != r
                ==> #[trigger] a.distinguishable(q, r),
        other.wf(),
        forall|w: Seq<Ternary>| #[trigger] other.accepts_word(w) == a.accepts_word(w),
    ensures
        other.transitions@.len() >= a.transitions@.len(),
{
    let n = a.state_labels@.len();
    assert(a.state_labels.len() == n);
    // an input leading to each state, and one leading on from it to acceptance
    let to = Seq::new(n, |q: int| choose|w: Seq<Ternary>| #[trigger] a.run_from(a.start, w) == Some(q as usize));
    assert forall|q: int| 0 <= q < n implies #[trigger] a.run_from(a.start, to[q]) == Some(q as usize) by {
        assert(a.state_reachable(q));
    }
    // where `other` is after each of those inputs
    assert forall|q: int| 0 <= q < n implies #[trigger] other.run_from(other.start, to[q]) is Some by {
        assert(a.run_from(a.start, to[q]) == Some(q as usize));
        assert(a.can_accept(q));
        let u = choose|u: Seq<Ternary>| #[trigger] a.accepts_from(q as usize, u);
        a.lemma_run_concat(a.start, to[q], u);
        assert(a.accepts_word(to[q] + u));
        assert(other.accepts_word(to[q] + u));
        other.lemma_run_concat(other.start, to[q], u);
    }
    let there = Seq::new(n, |q: int| other.run_from(other.start, to[q]).unwrap() as int);
    assert forall|q: int| 0 <= q < n implies 0 <= #[trigger] there[q] < other.transitions@.len() by {
        assert(other.run_from(other.start, to[q]) is Some);
        other.lemma_run_in_range(other.start, to[q]);
    }
    assert forall|q: int, r: int| 0 <= q < r < there.len() implies there[q] != there[r] by {
        if there[q] == there[r] {
            assert(a.run_from(a.start, to[q]) == Some(q as usize));
            assert(a.run_from(a.start, to[r]) == Some(r as usize));
            assert(other.run_from(other.start, to[q]) is Some);
            assert(other.run_from(other.start, to[r]) is Some);
            assert(a.distinguishable(q, r));
            let k = choose|k: nat| !#[trigger] a.agree_within(q, r, k);
            a.lemma_disagree_word(q, r, k);
            let u = choose|u: Seq<Ternary>| #[trigger] a.accepts_from(q as usize, u) != a.accepts_from(r as usize, u);
            a.lemma_run_concat(a.start, to[q], u);
            a.lemma_run_concat(a.start, to[r], u);
            other.lemma_run_concat(other.start, to[q], u);
            other.lemma_run_concat(other.start, to[r], u);
            assert(other.accepts_word(to[q] + u) == other.accepts_word(to[r] + u));
            assert(a.accepts_word(to[q] + u) == a.accepts_from(q as usize, u));
            assert(a.accepts_word(to[r] + u) == a.accepts_from(r as usize, u));
            assert(other.accepts_word(to[q] + u) == a.accepts_word(to[q] + u));
            assert(other.accepts_word(to[r] + u) == a.accepts_word(to[r] + u));
        }
    }
    lemma_distinct_ints_bounded(there, 0, other.transitions@.len() as int);
}

/// Convenience: match a pattern against a ternary sequence.
pub fn matches(pattern: &TernaryPattern, input: &[Ternary]) -> (r: bool)
    requires
        pattern.elements@.len() < usize::MAX,
    ensures
        r == pattern_matches(pattern.elements@, input@),
{
    let dfa = compile(pattern);
    dfa.accepts(input)
}

/// Convenience: find all occurrences of a pattern in a ternary stream.
pub fn find_matches(pattern: &TernaryPattern, input: &[Ternary]) -> (r: Vec<usize>)
    requires
        pattern.elements@.len() < usize::MAX,
    ensures
        strictly_increasing(r@),
        forall|p: usize| #[trigger] r@.contains(p) <==> occurs_at(pattern.elements@, input@, p as int),
{
    let dfa = compile(pattern);
    let r = dfa.find_all(input);
    proof {
        let elems = pattern.elements@;
        let m = elems.len();
        assert forall|p: usize| #[trigger] r@.contains(p) <==> occurs_at(elems, input@, p as int) by {
            if occurs_at(elems, input@, p as int) {
                assert(dfa.accepts_word(input@.subrange(p as int, p + m)));
                assert(dfa.matches_at(input@, p as int));
            }
            if r@.contains(p) {
                let k = choose|k: int| 0 <= k <= input@.len() - p && #[trigger] dfa.accepts_word(input@.subrange(p as int, p + k));
                assert(pattern_matches(elems, input@.subrange(p as int, p + k)));
                assert(k == m);
            }
        }
    }
    r
}

} // verus!
