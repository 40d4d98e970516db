use ternary_regex::{PatternElem, Ternary, TernaryDFA, TernaryNFA, TernaryPattern};
use ternary_regex::{compile, find_matches};

fn t(v: i8) -> Ternary {
    match v {
        -1 => Ternary::Neg,
        0 => Ternary::Zero,
        _ => Ternary::Pos,
    }
}

fn ts(vals: &[i8]) -> Vec<Ternary> {
    vals.iter().map(|&v| t(v)).collect()
}

fn matches(pattern: &TernaryPattern, input: &[Ternary]) -> bool {
    ternary_regex::matches(pattern, input)
}

/// Every ternary sequence of length at most `max_len`.
fn all_inputs(max_len: usize) -> Vec<Vec<Ternary>> {
    let mut out: Vec<Vec<Ternary>> = vec![vec![]];
    let mut layer: Vec<Vec<Ternary>> = vec![vec![]];
    for _ in 0..max_len {
        let mut next = Vec::new();
        for w in &layer {
            for v in [Ternary::Neg, Ternary::Zero, Ternary::Pos] {
                let mut w2 = w.clone();
                w2.push(v);
                next.push(w2);
            }
        }
        out.extend(next.iter().cloned());
        layer = next;
    }
    out
}

#[test]
fn test_pattern_exact_match() {
    let pattern = TernaryPattern::exact(&ts(&[1, 0, -1]));
    assert!(matches(&pattern, &ts(&[1, 0, -1])));
    assert!(!matches(&pattern, &ts(&[1, 0, 0])));
}

#[test]
fn test_pattern_wildcard() {
    let pattern = TernaryPattern::new(vec![
        PatternElem::Exact(Ternary::Pos),
        PatternElem::Any,
        PatternElem::Exact(Ternary::Neg),
    ]);
    assert!(matches(&pattern, &ts(&[1, 0, -1])));
    assert!(matches(&pattern, &ts(&[1, 1, -1])));
    assert!(matches(&pattern, &ts(&[1, -1, -1])));
    assert!(!matches(&pattern, &ts(&[0, 0, -1])));
}

#[test]
fn test_pattern_alt() {
    let pattern = TernaryPattern::new(vec![
        PatternElem::Alt(Ternary::Pos, Ternary::Zero),
        PatternElem::Exact(Ternary::Neg),
    ]);
    assert!(matches(&pattern, &ts(&[1, -1])));
    assert!(matches(&pattern, &ts(&[0, -1])));
    assert!(!matches(&pattern, &ts(&[-1, -1])));
}

#[test]
fn test_pattern_not() {
    let pattern = TernaryPattern::new(vec![
        PatternElem::Not(Ternary::Neg),
        PatternElem::Exact(Ternary::Pos),
    ]);
    assert!(matches(&pattern, &ts(&[1, 1])));
    assert!(matches(&pattern, &ts(&[0, 1])));
    assert!(!matches(&pattern, &ts(&[-1, 1])));
}

#[test]
fn test_nfa_basic() {
    let mut nfa = TernaryNFA::new(3);
    nfa.add_transition(0, PatternElem::Exact(Ternary::Pos), 1);
    nfa.add_transition(1, PatternElem::Exact(Ternary::Neg), 2);
    nfa.set_accept(2);
    assert!(nfa.accepts(&ts(&[1, -1])));
    assert!(!nfa.accepts(&ts(&[1, 0])));
    assert!(!nfa.accepts(&ts(&[1, -1, 0])));
}

#[test]
fn test_nfa_epsilon() {
    let mut nfa = TernaryNFA::new(3);
    nfa.add_transition(0, PatternElem::Exact(Ternary::Pos), 1);
    nfa.add_epsilon(1, 2);
    nfa.set_accept(2);
    // "Pos" should reach state 2 via epsilon
    assert!(nfa.accepts(&ts(&[1])));
}

#[test]
fn test_nfa_from_pattern() {
    let pattern = TernaryPattern::new(vec![
        PatternElem::Exact(Ternary::Pos),
        PatternElem::Any,
        PatternElem::Exact(Ternary::Neg),
    ]);
    let nfa = TernaryNFA::from_pattern(&pattern);
    assert!(nfa.accepts(&ts(&[1, 0, -1])));
    assert!(nfa.accepts(&ts(&[1, 1, -1])));
    assert!(!nfa.accepts(&ts(&[0, 0, -1])));
}

#[test]
fn test_dfa_from_nfa() {
    let pattern = TernaryPattern::new(vec![
        PatternElem::Exact(Ternary::Pos),
        PatternElem::Exact(Ternary::Zero),
    ]);
    let nfa = TernaryNFA::from_pattern(&pattern);
    let dfa = TernaryDFA::from_nfa(&nfa);
    assert!(dfa.accepts(&ts(&[1, 0])));
    assert!(!dfa.accepts(&ts(&[1, 1])));
    assert!(!dfa.accepts(&ts(&[0, 0])));
}

#[test]
fn test_dfa_minimize() {
    // Create an NFA with potential for redundant states
    let pattern = TernaryPattern::new(vec![PatternElem::Any, PatternElem::Any]);
    let nfa = TernaryNFA::from_pattern(&pattern);
    let dfa = TernaryDFA::from_nfa(&nfa);
    let min = dfa.minimize();
    // Minimized DFA should accept the same inputs
    assert!(min.accepts(&ts(&[1, 0])));
    assert!(min.accepts(&ts(&[-1, -1])));
    assert!(!min.accepts(&ts(&[1])));
    assert!(!min.accepts(&ts(&[1, 0, -1])));
}

#[test]
fn test_dfa_minimization_reduces_states() {
    let pattern = TernaryPattern::new(vec![
        PatternElem::Exact(Ternary::Pos),
        PatternElem::Exact(Ternary::Neg),
    ]);
    let nfa = TernaryNFA::from_pattern(&pattern);
    let dfa = TernaryDFA::from_nfa(&nfa);
    let min = dfa.minimize();
    // The minimal DFA should have fewer or equal states
    assert!(min.transitions.len() <= dfa.transitions.len());
}

#[test]
fn test_find_all_matches() {
    let pattern = TernaryPattern::exact(&ts(&[1, -1]));
    let dfa = compile(&pattern);
    let input = ts(&[1, -1, 0, 1, -1, 1, 0]);
    let found = dfa.find_all(&input);
    assert_eq!(found, vec![0, 3]);
}

#[test]
fn test_find_all_no_matches() {
    let pattern = TernaryPattern::exact(&ts(&[1, 1]));
    let found = find_matches(&pattern, &ts(&[-1, 0, -1, 0]));
    assert!(found.is_empty());
}

#[test]
fn test_find_all_overlapping() {
    let pattern = TernaryPattern::exact(&ts(&[1]));
    let found = find_matches(&pattern, &ts(&[1, 1, 1]));
    assert_eq!(found, vec![0, 1, 2]);
}

#[test]
fn test_empty_pattern() {
    let pattern = TernaryPattern::new(vec![]);
    let dfa = compile(&pattern);
    assert!(dfa.accepts(&ts(&[])));
    assert!(!dfa.accepts(&ts(&[1])));
}

#[test]
fn test_convenience_matches() {
    let pattern = TernaryPattern::exact(&ts(&[0, 1, -1]));
    assert!(matches(&pattern, &ts(&[0, 1, -1])));
    assert!(!matches(&pattern, &ts(&[0, 1, 0])));
}

#[test]
fn test_nfa_epsilon_closure() {
    let mut nfa = TernaryNFA::new(4);
    nfa.add_epsilon(0, 1);
    nfa.add_epsilon(1, 2);
    nfa.add_epsilon(2, 3);
    let closure = nfa.epsilon_closure(&[0]);
    assert_eq!(closure, vec![0, 1, 2, 3]);
}

#[test]
fn test_dfa_single_element_pattern() {
    let pattern = TernaryPattern::exact(&ts(&[1]));
    let found = find_matches(&pattern, &ts(&[0, 1, 0, 1, 0]));
    assert_eq!(found, vec![1, 3]);
}

#[test]
fn test_wildcard_stream_match() {
    let pattern = TernaryPattern::new(vec![
        PatternElem::Exact(Ternary::Pos),
        PatternElem::Any,
        PatternElem::Any,
        PatternElem::Exact(Ternary::Neg),
    ]);
    assert!(matches(&pattern, &ts(&[1, 0, 0, -1])));
    assert!(matches(&pattern, &ts(&[1, 1, -1, -1])));
    assert!(!matches(&pattern, &ts(&[1, 0, 0, 0])));
}

// ---- further cases ----

#[test]
fn to_i8_gives_the_signed_value() {
    assert_eq!(Ternary::Neg.to_i8(), -1);
    assert_eq!(Ternary::Zero.to_i8(), 0);
    assert_eq!(Ternary::Pos.to_i8(), 1);
}

#[test]
fn elem_matches_each_kind() {
    assert!(TernaryPattern::elem_matches(PatternElem::Exact(Ternary::Zero), Ternary::Zero));
    assert!(!TernaryPattern::elem_matches(PatternElem::Exact(Ternary::Zero), Ternary::Pos));
    for v in [Ternary::Neg, Ternary::Zero, Ternary::Pos] {
        assert!(TernaryPattern::elem_matches(PatternElem::Any, v));
    }
    assert!(TernaryPattern::elem_matches(PatternElem::Alt(Ternary::Neg, Ternary::Pos), Ternary::Pos));
    assert!(!TernaryPattern::elem_matches(PatternElem::Alt(Ternary::Neg, Ternary::Pos), Ternary::Zero));
    assert!(TernaryPattern::elem_matches(PatternElem::Not(Ternary::Zero), Ternary::Neg));
    assert!(!TernaryPattern::elem_matches(PatternElem::Not(Ternary::Zero), Ternary::Zero));
}

#[test]
fn exact_builds_exact_elements() {
    let p = TernaryPattern::exact(&ts(&[-1, 0]));
    assert_eq!(p.elements, vec![PatternElem::Exact(Ternary::Neg), PatternElem::Exact(Ternary::Zero)]);
    let e = TernaryPattern::exact(&[]);
    assert!(e.elements.is_empty());
}

#[test]
fn new_nfa_accepts_nothing() {
    let nfa = TernaryNFA::new(2);
    assert_eq!(nfa.state_count, 2);
    assert_eq!(nfa.start, 0);
    assert!(!nfa.accepts(&ts(&[])));
    assert!(!nfa.accepts(&ts(&[1])));
}

#[test]
fn epsilon_closure_sorts_and_dedups() {
    let mut nfa = TernaryNFA::new(5);
    nfa.add_epsilon(4, 2);
    nfa.add_epsilon(2, 0);
    nfa.add_epsilon(0, 2);
    let closure = nfa.epsilon_closure(&[4, 4, 3]);
    assert_eq!(closure, vec![0, 2, 3, 4]);
    assert_eq!(nfa.epsilon_closure(&[]), Vec::<usize>::new());
}

#[test]
fn move_on_follows_matching_transitions_only() {
    let mut nfa = TernaryNFA::new(4);
    nfa.add_transition(0, PatternElem::Not(Ternary::Neg), 3);
    nfa.add_transition(0, PatternElem::Exact(Ternary::Neg), 1);
    nfa.add_transition(1, PatternElem::Any, 2);
    nfa.add_transition(2, PatternElem::Alt(Ternary::Zero, Ternary::Pos), 1);
    assert_eq!(nfa.move_on(&[0, 1, 2], Ternary::Pos), vec![1, 2, 3]);
    assert_eq!(nfa.move_on(&[0, 1, 2], Ternary::Neg), vec![1, 2]);
    assert_eq!(nfa.move_on(&[2], Ternary::Neg), Vec::<usize>::new());
}

#[test]
fn nfa_empty_input_with_epsilon_to_accept() {
    let mut nfa = TernaryNFA::new(2);
    nfa.add_epsilon(0, 1);
    nfa.set_accept(1);
    assert!(nfa.accepts(&ts(&[])));
    assert!(!nfa.accepts(&ts(&[0])));
}

#[test]
fn from_pattern_has_a_chain_of_states() {
    let pattern = TernaryPattern::exact(&ts(&[1, 0]));
    let nfa = TernaryNFA::from_pattern(&pattern);
    assert_eq!(nfa.state_count, 3);
    assert_eq!(nfa.start, 0);
    assert_eq!(nfa.accept, vec![false, false, true]);
}

#[test]
fn subset_construction_labels() {
    let pattern = TernaryPattern::exact(&ts(&[1, -1]));
    let nfa = TernaryNFA::from_pattern(&pattern);
    let dfa = TernaryDFA::from_nfa(&nfa);
    assert_eq!(dfa.start, 0);
    assert_eq!(dfa.state_labels, vec![vec![0], vec![1], vec![2]]);
    assert_eq!(dfa.accept, vec![false, false, true]);
    let m = usize::MAX;
    assert_eq!(dfa.transitions, vec![[m, m, 1], [2, m, m], [m, m, m]]);
}

#[test]
fn subset_construction_merges_nfa_states() {
    // 0 -Pos-> 1, 0 -Any-> 2, both accepting: on Pos the DFA reaches {1, 2}.
    let mut nfa = TernaryNFA::new(3);
    nfa.add_transition(0, PatternElem::Exact(Ternary::Pos), 1);
    nfa.add_transition(0, PatternElem::Any, 2);
    nfa.set_accept(1);
    let dfa = TernaryDFA::from_nfa(&nfa);
    assert_eq!(dfa.state_labels[0], vec![0]);
    let on_pos = dfa.transitions[0][2];
    assert_eq!(dfa.state_labels[on_pos], vec![1, 2]);
    assert!(dfa.accept[on_pos]);
    let on_zero = dfa.transitions[0][1];
    assert_eq!(dfa.state_labels[on_zero], vec![2]);
    assert!(!dfa.accept[on_zero]);
}

#[test]
fn dfa_language_equals_nfa_language() {
    let mut nfa = TernaryNFA::new(4);
    nfa.add_transition(0, PatternElem::Not(Ternary::Zero), 1);
    nfa.add_epsilon(1, 0);
    nfa.add_transition(1, PatternElem::Exact(Ternary::Zero), 2);
    nfa.add_epsilon(2, 3);
    nfa.add_transition(3, PatternElem::Alt(Ternary::Neg, Ternary::Zero), 3);
    nfa.set_accept(3);
    let dfa = TernaryDFA::from_nfa(&nfa);
    let min = dfa.minimize();
    for w in all_inputs(4) {
        assert_eq!(dfa.accepts(&w), nfa.accepts(&w));
        assert_eq!(min.accepts(&w), nfa.accepts(&w));
    }
    assert!(min.state_labels.len() <= dfa.state_labels.len());
}

#[test]
fn minimize_merges_equivalent_states() {
    // states 1 and 2 behave alike: both accept and have no moves.
    let m = usize::MAX;
    let dfa = TernaryDFA {
        transitions: vec![[1, 2, m], [m, m, m], [m, m, m]],
        accept: vec![false, true, true],
        start: 0,
        state_labels: vec![vec![0], vec![1], vec![2]],
    };
    let min = dfa.minimize();
    assert_eq!(min.state_labels, vec![vec![1, 2], vec![0]]);
    assert_eq!(min.accept, vec![true, false]);
    assert_eq!(min.start, 1);
    assert_eq!(min.transitions, vec![[m, m, m], [0, 0, m]]);
}

#[test]
fn minimize_single_state_is_a_copy() {
    let dfa = TernaryDFA {
        transitions: vec![[0, 0, 0]],
        accept: vec![true],
        start: 0,
        state_labels: vec![vec![7]],
    };
    let min = dfa.minimize();
    assert_eq!(min.transitions, dfa.transitions);
    assert_eq!(min.accept, dfa.accept);
    assert_eq!(min.start, dfa.start);
    assert_eq!(min.state_labels, dfa.state_labels);
}

#[test]
fn dfa_accepts_stops_on_missing_moves() {
    let m = usize::MAX;
    let dfa = TernaryDFA {
        transitions: vec![[m, 5, 0]],
        accept: vec![true],
        start: 0,
        state_labels: vec![vec![0]],
    };
    assert!(dfa.accepts(&ts(&[])));
    assert!(dfa.accepts(&ts(&[1, 1])));
    assert!(!dfa.accepts(&ts(&[-1])));
    // a move to a state without a row is taken, and the next move then fails
    assert!(!dfa.accepts(&ts(&[0])));
    assert!(!dfa.accepts(&ts(&[0, 1])));
}

#[test]
fn empty_pattern_occurs_at_every_position() {
    let dfa = compile(&TernaryPattern::new(vec![]));
    assert_eq!(dfa.find_all(&ts(&[1, 0, -1])), vec![0, 1, 2]);
    assert_eq!(find_matches(&TernaryPattern::new(vec![]), &ts(&[0, 0])), vec![0, 1]);
    assert!(find_matches(&TernaryPattern::new(vec![]), &ts(&[])).is_empty());
}

#[test]
fn find_all_reports_accepting_start_and_longer_prefixes() {
    // the start state accepts, and so does the state after one Pos
    let m = usize::MAX;
    let dfa = TernaryDFA {
        transitions: vec![[m, m, 1], [m, m, m]],
        accept: vec![true, true],
        start: 0,
        state_labels: vec![vec![0], vec![1]],
    };
    assert_eq!(dfa.find_all(&ts(&[0, 1, -1])), vec![0, 1, 2]);
}

#[test]
fn minimize_labels_blocks_with_their_nfa_states() {
    let mut nfa = TernaryNFA::new(3);
    nfa.add_epsilon(0, 1);
    nfa.add_transition(1, PatternElem::Any, 2);
    nfa.set_accept(2);
    let dfa = TernaryDFA::from_nfa(&nfa);
    assert_eq!(dfa.state_labels, vec![vec![0, 1], vec![2]]);
    assert_eq!(dfa.accept, vec![false, true]);
    let min = dfa.minimize();
    assert_eq!(min.state_labels.len(), 2);
    assert_eq!(min.state_labels[min.start], vec![0, 1]);
    assert_eq!(min.state_labels[1 - min.start], vec![2]);
    assert!(!min.accept[min.start]);
    assert!(min.accept[1 - min.start]);
}

#[test]
fn subset_construction_numbers_states_in_discovery_order() {
    // second-to-last value is Pos
    let mut nfa = TernaryNFA::new(3);
    nfa.add_transition(0, PatternElem::Any, 0);
    nfa.add_transition(0, PatternElem::Exact(Ternary::Pos), 1);
    nfa.add_transition(1, PatternElem::Any, 2);
    nfa.set_accept(2);
    let dfa = TernaryDFA::from_nfa(&nfa);
    assert_eq!(dfa.start, 0);
    assert_eq!(dfa.state_labels, vec![vec![0], vec![0, 1], vec![0, 2], vec![0, 1, 2]]);
    assert_eq!(dfa.accept, vec![false, false, true, true]);
    assert_eq!(dfa.transitions, vec![[0, 0, 1], [2, 2, 3], [0, 0, 1], [2, 2, 3]]);
}

#[test]
fn compiled_dfa_has_one_state_per_pattern_position() {
    for n in 0..4usize {
        let pattern = TernaryPattern::new(vec![PatternElem::Not(Ternary::Zero); n]);
        let dfa = compile(&pattern);
        assert_eq!(dfa.transitions.len(), n + 1);
        assert_eq!(dfa.accept.iter().filter(|a| **a).count(), 1);
    }
    let dfa = compile(&TernaryPattern::exact(&ts(&[1, 1, 1])));
    assert_eq!(dfa.transitions.len(), 4);
    assert!(dfa.accepts(&ts(&[1, 1, 1])));
    assert!(!dfa.accepts(&ts(&[1, 1])));
    assert!(!dfa.accepts(&ts(&[1, 1, 1, 1])));
    assert!(!dfa.accepts(&ts(&[-1, 1, 1])));
}

#[test]
fn find_matches_overlapping_windows() {
    let pattern = TernaryPattern::new(vec![PatternElem::Not(Ternary::Zero), PatternElem::Any]);
    let found = find_matches(&pattern, &ts(&[1, -1, 0, 0, -1, 1]));
    assert_eq!(found, vec![0, 1, 4]);
    assert!(find_matches(&pattern, &ts(&[])).is_empty());
}

#[test]
fn matches_requires_equal_length() {
    let pattern = TernaryPattern::new(vec![PatternElem::Any, PatternElem::Any]);
    assert!(!matches(&pattern, &ts(&[1])));
    assert!(!matches(&pattern, &ts(&[1, 1, 1])));
    assert!(matches(&pattern, &ts(&[0, 0])));
}

#[test]
fn compile_agrees_with_pattern_on_all_short_inputs() {
    let pattern = TernaryPattern::new(vec![
        PatternElem::Alt(Ternary::Neg, Ternary::Pos),
        PatternElem::Not(Ternary::Pos),
        PatternElem::Any,
    ]);
    let dfa = compile(&pattern);
    let nfa = TernaryNFA::from_pattern(&pattern);
    for w in all_inputs(4) {
        let expected = w.len() == 3
            && pattern
                .elements
                .iter()
                .zip(w.iter())
                .all(|(e, v)| TernaryPattern::elem_matches(*e, *v));
        assert_eq!(dfa.accepts(&w), expected);
        assert_eq!(nfa.accepts(&w), expected);
    }
}

#[test]
fn minimize_keeps_a_missing_move_apart_from_a_stuck_state() {
    // neither state accepts; state 0 moves to state 1 on Pos, state 1 has no moves:
    // a missing move counts as an outcome of its own, so the two stay apart.
    let m = usize::MAX;
    let dfa = TernaryDFA {
        transitions: vec![[m, m, 1], [m, m, m]],
        accept: vec![false, false],
        start: 0,
        state_labels: vec![vec![0], vec![1]],
    };
    let min = dfa.minimize();
    assert_eq!(min.state_labels, vec![vec![0], vec![1]]);
    assert_eq!(min.transitions, vec![[m, m, 1], [m, m, m]]);
    for w in all_inputs(3) {
        assert!(!min.accepts(&w));
    }
}

#[test]
fn nfa_runs_on_its_tables_whatever_its_declared_count() {
    let mut nfa = TernaryNFA::new(2);
    nfa.add_transition(0, PatternElem::Exact(Ternary::Neg), 1);
    nfa.set_accept(1);
    nfa.state_count = 7;
    nfa.accept.push(false);
    assert!(nfa.accepts(&ts(&[-1])));
    assert!(!nfa.accepts(&ts(&[1])));
    assert_eq!(nfa.epsilon_closure(&[1, 0]), vec![0, 1]);
    assert_eq!(nfa.move_on(&[0], Ternary::Neg), vec![1]);
}

#[test]
fn adding_moves_keeps_accepted_inputs() {
    let mut nfa = TernaryNFA::new(3);
    nfa.add_transition(0, PatternElem::Exact(Ternary::Pos), 1);
    nfa.set_accept(1);
    let inputs = all_inputs(3);
    let before: Vec<bool> = inputs.iter().map(|w| nfa.accepts(w)).collect();
    nfa.add_transition(0, PatternElem::Any, 2);
    nfa.add_epsilon(2, 1);
    for (w, was) in inputs.iter().zip(before.iter()) {
        if *was {
            assert!(nfa.accepts(w));
        }
    }
    assert!(nfa.accepts(&ts(&[0])));
    assert!(!nfa.accepts(&ts(&[0, 0])));
}

#[test]
fn added_epsilon_joins_the_closure_of_its_target() {
    let mut nfa = TernaryNFA::new(5);
    nfa.add_epsilon(0, 1);
    nfa.add_epsilon(3, 4);
    assert_eq!(nfa.epsilon_closure(&[0]), vec![0, 1]);
    assert_eq!(nfa.epsilon_closure(&[2]), vec![2]);
    nfa.add_epsilon(1, 3);
    // 1 was in the closure of {0}: the old closure of 3 joins it
    assert_eq!(nfa.epsilon_closure(&[0]), vec![0, 1, 3, 4]);
    // 1 was not in the closure of {2}: nothing changes
    assert_eq!(nfa.epsilon_closure(&[2]), vec![2]);
}

#[test]
fn added_transition_extends_one_move() {
    let mut nfa = TernaryNFA::new(3);
    nfa.add_transition(0, PatternElem::Exact(Ternary::Zero), 1);
    assert_eq!(nfa.move_on(&[0], Ternary::Pos), Vec::<usize>::new());
    nfa.add_transition(0, PatternElem::Not(Ternary::Neg), 2);
    assert_eq!(nfa.move_on(&[0], Ternary::Pos), vec![2]);
    assert_eq!(nfa.move_on(&[0], Ternary::Zero), vec![1, 2]);
    assert_eq!(nfa.move_on(&[0], Ternary::Neg), Vec::<usize>::new());
    assert_eq!(nfa.move_on(&[1], Ternary::Pos), Vec::<usize>::new());
}

#[test]
fn minimizing_twice_keeps_the_count() {
    let mut nfa = TernaryNFA::new(4);
    nfa.add_transition(0, PatternElem::Not(Ternary::Zero), 1);
    nfa.add_epsilon(1, 0);
    nfa.add_transition(1, PatternElem::Exact(Ternary::Zero), 2);
    nfa.add_epsilon(2, 3);
    nfa.add_transition(3, PatternElem::Alt(Ternary::Neg, Ternary::Zero), 3);
    nfa.set_accept(3);
    let dfa = TernaryDFA::from_nfa(&nfa);
    let once = dfa.minimize();
    let twice = once.minimize();
    assert_eq!(twice.transitions.len(), once.transitions.len());
    for w in all_inputs(4) {
        assert_eq!(twice.accepts(&w), once.accepts(&w));
    }
}

#[test]
fn subset_states_are_all_reachable_and_closed() {
    let mut nfa = TernaryNFA::new(4);
    nfa.add_epsilon(0, 1);
    nfa.add_transition(1, PatternElem::Alt(Ternary::Neg, Ternary::Pos), 2);
    nfa.add_epsilon(2, 3);
    nfa.add_transition(3, PatternElem::Any, 0);
    nfa.set_accept(3);
    let dfa = TernaryDFA::from_nfa(&nfa);
    for label in &dfa.state_labels {
        assert!(!label.is_empty());
        assert_eq!(&nfa.epsilon_closure(label), label);
    }
    // breadth of reach: every state is reached from the start
    let mut seen = vec![false; dfa.transitions.len()];
    seen[dfa.start] = true;
    let mut changed = true;
    while changed {
        changed = false;
        for s in 0..dfa.transitions.len() {
            if seen[s] {
                for &t in &dfa.transitions[s] {
                    if t != usize::MAX && !seen[t] {
                        seen[t] = true;
                        changed = true;
                    }
                }
            }
        }
    }
    assert!(seen.iter().all(|b| *b));
    assert!(dfa.state_labels.len() <= 15);
}

#[test]
fn accept_flags_are_read_only_up_to_the_first_accepting_state() {
    // on Any the NFA reaches {1, 2}; state 1 accepts, state 2 has no accept flag
    let mut nfa = TernaryNFA::new(3);
    nfa.add_transition(0, PatternElem::Any, 1);
    nfa.add_transition(0, PatternElem::Any, 2);
    nfa.set_accept(1);
    nfa.accept.truncate(2);
    assert!(nfa.accepts(&ts(&[0])));
    assert!(!nfa.accepts(&ts(&[])));
    let dfa = TernaryDFA::from_nfa(&nfa);
    assert_eq!(dfa.state_labels, vec![vec![0], vec![1, 2]]);
    assert_eq!(dfa.accept, vec![false, true]);
}

#[test]
fn mutators_keep_the_declared_count_and_flags() {
    let mut nfa = TernaryNFA::new(3);
    nfa.add_transition(0, PatternElem::Any, 1);
    nfa.add_epsilon(1, 2);
    nfa.set_accept(2);
    assert_eq!(nfa.state_count, 3);
    assert_eq!(nfa.accept, vec![false, false, true]);
    assert_eq!(nfa.start, 0);
}

#[test]
fn compiled_states_are_labelled_with_positions() {
    let pattern = TernaryPattern::new(vec![
        PatternElem::Not(Ternary::Neg),
        PatternElem::Exact(Ternary::Neg),
        PatternElem::Any,
    ]);
    let dfa = compile(&pattern);
    let prefixes: [&[i8]; 4] = [&[], &[0], &[1, -1], &[0, -1, -1]];
    for p in prefixes.iter() {
        let mut s = dfa.start;
        for v in ts(p) {
            s = dfa.transitions[s][match v {
                Ternary::Neg => 0,
                Ternary::Zero => 1,
                Ternary::Pos => 2,
            }];
            assert_ne!(s, usize::MAX);
        }
        assert_eq!(dfa.state_labels[s], vec![p.len()]);
    }
    // a value the pattern does not read leads nowhere
    assert_eq!(dfa.transitions[dfa.start][0], usize::MAX);
}

#[test]
fn minimize_keeps_a_dfa_whose_states_all_differ() {
    let mut nfa = TernaryNFA::new(3);
    nfa.add_transition(0, PatternElem::Any, 0);
    nfa.add_transition(0, PatternElem::Exact(Ternary::Pos), 1);
    nfa.add_transition(1, PatternElem::Any, 2);
    nfa.set_accept(2);
    let dfa = TernaryDFA::from_nfa(&nfa);
    let min = dfa.minimize();
    assert_eq!(min.transitions.len(), 4);
    for w in all_inputs(4) {
        assert_eq!(min.accepts(&w), w.len() >= 2 && w[w.len() - 2] == Ternary::Pos);
    }
}
