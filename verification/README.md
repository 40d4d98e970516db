# ternary_regex

Pattern matching on ternary sequences (`Neg`, `Zero`, `Pos`), verified with Verus.

A pattern is a sequence of elements (`Exact`, `Any`, `Alt`, `Not`). It is turned into an
NFA (one state per element plus an accepting state), the NFA into a DFA by subset
construction, and the DFA is minimized by partition refinement. Each step carries a
proof that the language is kept: `compile(p)` accepts exactly the inputs that have the
pattern's length and match it element by element, and `find_matches` returns exactly the
positions where the pattern occurs (the empty pattern occurs at every position). The
compiled DFA has one state for each of the `n + 1` positions before, between and after the
`n` elements of the pattern, and exactly one accepting state; no DFA for the same inputs
has fewer.

Minimization groups the states of a block by their signature (the blocks their three
moves lead to). The groups are kept in a vector of signatures, in the order in which each
signature first appears among the block's states, rather than in a hash map keyed by the
signature: a map keyed by a `Vec` gives Verus nothing to reason with, while the vector's
search is proved. The order of the new blocks therefore differs from a map's, which was
never fixed; the blocks themselves are the same.

Layout of `src/`:

- `ternary.rs`: values, pattern elements, patterns, and what it means to match.
- `nfa.rs`: the NFA, epsilon closures, moves, acceptance, and the pattern NFA.
- `nfa/subset.rs`: the subset construction and its proof (every state is reachable, its
  label is an epsilon-closed set of NFA states, states are numbered in the order the
  worklist finds them, and a pattern's chain is laid out in order).
- `dfa.rs`: the DFA, its runs, acceptance and the search for matches.
- `minimize.rs`: partition refinement, its quotient DFA, and the proof that blocks are
  exactly the classes of states that no input tells apart. When every state of the input
  is reachable and can still reach acceptance, so is every state of the result, and then
  no DFA for the same inputs is smaller (`lemma_no_smaller_equivalent` in `lib.rs`).
- `count.rs`, `vecs.rs`: counting facts (used for termination) and small vector helpers.
- `lib.rs`: `compile`, `matches`, `find_matches`.
