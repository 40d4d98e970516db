//! Deterministic automata over ternary values, with a dead marker for missing moves.
use vstd::prelude::*;

use crate::count::strictly_increasing;
use crate::ternary::Ternary;

verus! {

/// A ternary DFA for pattern matching.
#[derive(Clone, Debug)]
pub struct TernaryDFA {
    /// DFA transitions: transitions[state][value] = target state index, or
    /// `usize::MAX` where there is no move. Indexed by: 0=Neg, 1=Zero, 2=Pos.
    pub transitions: Vec<[usize; 3]>,
    /// Accept states.
    pub accept: Vec<bool>,
    /// Start state index.
    pub start: usize,
    /// State labels (sets of NFA states for each DFA state).
    pub state_labels: Vec<Vec<usize>>,
}

/// The column of a ternary value in a transition row.
pub open spec fn tindex(t: Ternary) -> int {
    match t {
        Ternary::Neg => 0,
        Ternary::Zero => 1,
        Ternary::Pos => 2,
    }
}

/// Convert a ternary value to an index (0=Neg, 1=Zero, 2=Pos).
pub(crate) fn ternary_index(t: Ternary) -> (i: usize)
    ensures
        i == tindex(t),
        t == Ternary::Neg ==> i == 0,
        t == Ternary::Zero ==> i == 1,
        t == Ternary::Pos ==> i == 2,
{
    match t {
        Ternary::Neg => 0,
        Ternary::Zero => 1,
        Ternary::Pos => 2,
    }
}

/// A transition row has one column for each value, in the order `Neg`, `Zero`, `Pos`.
pub proof fn lemma_columns(t: Ternary, u: Ternary)
    ensures
        tindex(Ternary::Neg) == 0,
        tindex(Ternary::Zero) == 1,
        tindex(Ternary::Pos) == 2,
        0 <= tindex(t) < 3,
        tindex(t) == tindex(u) <==> t == u,
{
}

impl TernaryDFA {
    /// The entry of the transition table for state `c` and column `k`.
    pub open spec fn entry(self, c: int, k: int) -> usize {
        self.transitions@[c]@[k]
    }

    /// The state reached from `c` on `val`, or `None` where the move is missing.
    pub open spec fn next_state(self, c: usize, val: Ternary) -> Option<usize> {
        if c >= self.transitions@.len() || self.entry(c as int, tindex(val)) == usize::MAX {
            None
        } else {
            Some(self.entry(c as int, tindex(val)))
        }
    }

    /// The state reached from `c` after reading `input`, or `None` once a move is missing.
    pub open spec fn run_from(self, c: usize, input: Seq<Ternary>) -> Option<usize>
        decreases input.len(),
    {
        if input.len() == 0 {
            Some(c)
        } else {
            match self.run_from(c, input.drop_last()) {
                Some(d) => self.next_state(d, input.last()),
                None => None,
            }
        }
    }

    /// State `c` is accepting.
    pub open spec fn is_accepting(self, c: usize) -> bool {
        c < self.accept@.len() && self.accept@[c as int]
    }

    /// The DFA accepts `input`: reading it from the start ends in an accepting state.
    pub open spec fn accepts_word(self, input: Seq<Ternary>) -> bool {
        match self.run_from(self.start, input) {
            Some(c) => self.is_accepting(c),
            None => false,
        }
    }

    /// State `a` is the one accepting state.
    pub open spec fn only_accepting(self, a: int) -> bool {
        &&& 0 <= a < self.accept@.len()
        &&& forall|c: int| 0 <= c < self.accept@.len() ==> (#[trigger] self.accept@[c] <==> c == a)
    }

    /// Reading `u` from state `c` ends in an accepting state.
    pub open spec fn accepts_from(self, c: usize, u: Seq<Ternary>) -> bool {
        match self.run_from(c, u) {
            Some(d) => self.is_accepting(d),
            None => false,
        }
    }

    /// Some input leads from state `c` to acceptance.
    pub open spec fn can_accept(self, c: int) -> bool {
        exists|u: Seq<Ternary>| #[trigger] self.accepts_from(c as usize, u)
    }

    /// Some input leads from the start to state `c`.
    pub open spec fn state_reachable(self, c: int) -> bool {
        exists|w: Seq<Ternary>| #[trigger] self.run_from(self.start, w) == Some(c as usize)
    }

    /// Some stretch of `input` beginning at `p` (the empty one included) is accepted.
    pub open spec fn matches_at(self, input: Seq<Ternary>, p: int) -> bool {
        exists|k: int| 0 <= k <= input.len() - p && #[trigger] self.accepts_word(input.subrange(p, p + k))
    }

    /// Well-formedness: one row, one flag and one label per state; start and every
    /// present target are states.
    pub open spec fn wf(self) -> bool {
        &&& self.accept@.len() == self.transitions@.len()
        &&& self.state_labels@.len() == self.transitions@.len()
        &&& self.start < self.transitions@.len()
        &&& forall|c: int, k: int|
            0 <= c < self.transitions@.len() && 0 <= k < 3 ==> #[trigger] self.entry(c, k) == usize::MAX
                || self.entry(c, k) < self.transitions@.len()
    }

    /// Reading one more value after `input` takes one more move.
    pub proof fn lemma_run_push(self, c: usize, input: Seq<Ternary>, v: Ternary)
        ensures
            self.run_from(c, input.push(v)) == match self.run_from(c, input) {
                Some(d) => self.next_state(d, v),
                None => None,
            },
    {
        assert(input.push(v).drop_last() =~= input);
    }

    /// Reading `a` and then `b` is reading `a + b`.
    pub proof fn lemma_run_concat(self, c: usize, a: Seq<Ternary>, b: Seq<Ternary>)
        ensures
            self.run_from(c, a + b) == match self.run_from(c, a) {
                Some(d) => self.run_from(d, b),
                None => None,
            },
        decreases b.len(),
    {
        if b.len() == 0 {
            assert(a + b =~= a);
        } else {
            assert((a + b).drop_last() =~= a + b.drop_last());
            assert((a + b).last() == b.last());
            self.lemma_run_concat(c, a, b.drop_last());
        }
    }

    /// In a well-formed DFA every run from a state ends in a state.
    pub proof fn lemma_run_in_range(self, c: usize, w: Seq<Ternary>)
        requires
            self.wf(),
            c < self.transitions@.len(),
        ensures
            self.run_from(c, w) matches Some(d) ==> d < self.transitions@.len(),
        decreases w.len(),
    {
        if w.len() > 0 {
            self.lemma_run_in_range(c, w.drop_last());
            if let Some(d) = self.run_from(c, w.drop_last()) {
                let k = tindex(w.last());
                assert(0 <= k < 3);
                assert(self.entry(d as int, k) == usize::MAX || self.entry(d as int, k) < self.transitions@.len());
            }
        }
    }

    /// Once a move is missing, every longer input is rejected too.
    pub proof fn lemma_dead_stays(self, c: usize, input: Seq<Ternary>, i: int)
        requires
            0 <= i <= input.len(),
            self.run_from(c, input.take(i)) is None,
        ensures
            self.run_from(c, input) is None,
        decreases input.len() - i,
    {
        if i == input.len() {
            assert(input.take(i) =~= input);
        } else {
            assert(input.take(i + 1) =~= input.take(i).push(input[i]));
            self.lemma_run_push(c, input.take(i), input[i]);
            self.lemma_dead_stays(c, input, i + 1);
        }
    }

    /// Test if the DFA accepts the given input sequence.
    pub fn accepts(&self, input: &[Ternary]) -> (r: bool)
        ensures
            r == self.accepts_word(input@),
    {
        let mut current = self.start;
        let mut i: usize = 0;
        assert(input@.take(0) =~= Seq::<Ternary>::empty());
        while i < input.len()
            invariant
                i <= input@.len(),
                self.run_from(self.start, input@.take(i as int)) == Some(current),
            decreases input@.len() - i,
        {
            let val = input[i];
            let idx = ternary_index(val);
            proof {
                assert(input@.take(i + 1) =~= input@.take(i as int).push(val));
                self.lemma_run_push(self.start, input@.take(i as int), val);
            }
            if current >= self.transitions.len() || self.transitions[current][idx] == usize::MAX {
                proof {
                    self.lemma_dead_stays(self.start, input@, i + 1);
                }
                return false;
            }
            current = self.transitions[current][idx];
            i = i + 1;
        }
        assert(input@.take(input@.len() as int) =~= input@);
        current < self.accept.len() && self.accept[current]
    }

    /// Find all matches of the pattern in the given ternary stream.
    /// Returns starting positions of all matches (prefix matching).
    pub fn find_all(&self, input: &[Ternary]) -> (r: Vec<usize>)
        ensures
            strictly_increasing(r@),
            forall|p: usize| #[trigger] r@.contains(p) <==> (p < input@.len() && self.matches_at(input@, p as int)),
    {
        let mut matches: Vec<usize> = Vec::new();
        let mut start: usize = 0;
        while start < input.len()
            invariant
                start <= input@.len(),
                strictly_increasing(matches@),
                forall|p: usize| #[trigger] matches@.contains(p) <==> (p < start && self.matches_at(input@, p as int)),
            decreases input@.len() - start,
        {
            // Try to match the pattern as a prefix of input[start..]
            let mut current = self.start;
            let mut j: usize = start;
            let ghost before = matches@;
            assert(input@.subrange(start as int, start as int) =~= Seq::<Ternary>::empty());
            // The empty prefix matches when the start state accepts.
            let mut found = self.start < self.accept.len() && self.accept[self.start];
            if found {
                matches.push(start);
                assert(self.accepts_word(input@.subrange(start as int, start + 0)));
            } else {
            while j < input.len()
                invariant_except_break
                    !found,
                    matches@ == before,
                    self.run_from(self.start, input@.subrange(start as int, j as int)) == Some(current),
                invariant
                    start <= j <= input@.len(),
                    forall|k: int| 0 <= k <= j - start ==> !#[trigger] self.accepts_word(
                        input@.subrange(start as int, start + k),
                    ),
                ensures
                    found ==> self.matches_at(input@, start as int) && matches@ == before.push(start),
                    !found ==> !self.matches_at(input@, start as int) && matches@ == before,
                decreases input@.len() - j,
            {
                let val = input[j];
                let idx = ternary_index(val);
                let ghost w = input@.subrange(start as int, j as int);
                proof {
                    assert(input@.subrange(start as int, j + 1) =~= w.push(val));
                    self.lemma_run_push(self.start, w, val);
                }
                if current >= self.transitions.len() || self.transitions[current][idx] == usize::MAX {
                    proof {
                        assert forall|k: int| 0 <= k <= input@.len() - start implies !#[trigger] self.accepts_word(
                            input@.subrange(start as int, start + k),
                        ) by {
                            if k > j - start {
                                let long = input@.subrange(start as int, start + k);
                                assert(long.take(j + 1 - start) =~= input@.subrange(start as int, j + 1));
                                self.lemma_dead_stays(self.start, long, j + 1 - start);
                            }
                        }
                    }
                    break;
                }
                current = self.transitions[current][idx];
                if current < self.accept.len() && self.accept[current] {
                    matches.push(start);
                    found = true;
                    proof {
                        assert(self.accepts_word(input@.subrange(start as int, start + (j + 1 - start))));
                    }
                    break;
                }
                j = j + 1;
            }
            }
            proof {
                assert forall|p: usize| #[trigger] matches@.contains(p) <==> (p < start + 1 && self.matches_at(input@, p as int)) by {
                    if found {
                        assert(matches@[matches@.len() - 1] == start);
                        if matches@.contains(p) && p != start {
                            let k = choose|k: int| 0 <= k < matches@.len() && matches@[k] == p;
                            assert(before[k] == p);
                            assert(before.contains(p));
                        }
                        if p < start && self.matches_at(input@, p as int) {
                            assert(before.contains(p));
                            let k = choose|k: int| 0 <= k < before.len() && before[k] == p;
                            assert(matches@[k] == p);
                        }
                    }
                }
                if found {
                    assert forall|a: int, b: int| 0 <= a < b < matches@.len() implies matches@[a] < matches@[b] by {
                        if b == matches@.len() - 1 {
                            assert(before.contains(before[a]));
                        } else {
                            assert(before[a] < before[b]);
                        }
                    }
                }
            }
            start = start + 1;
        }
        matches
    }
}

} // verus!
