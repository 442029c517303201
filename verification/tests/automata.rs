use langlab::automata::FiniteAutomata;
use langlab::automata::StateTransition;
use langlab::automata::StateTransitions;
use langlab::regex::RegEx;

fn compile_nfa(pattern: &str) -> FiniteAutomata {
    let chars: Vec<char> = pattern.chars().collect();
    let regex = RegEx::new_from_chars(&chars).expect("pattern should parse");
    FiniteAutomata::new_from_regex(&regex)
}

fn sorted(mut v: Vec<usize>) -> Vec<usize> {
    v.sort();
    v
}

#[test]
fn new_empty_has_no_states() {
    let fa = FiniteAutomata::new_empty();
    assert_eq!(fa.state_transitions.len(), 0);
    assert_eq!(fa.accepting_states.len(), 0);
}

#[test]
fn thompson_construction_exact_shape() {
    // "ab*c": state 0 -a-> 1, the loop 1..=4 around 'b', then 4 -c-> 5.
    let nfa = compile_nfa("ab*c");
    assert_eq!(nfa.state_transitions.len(), 6);
    assert_eq!(nfa.accepting_states, vec![5]);
    let edges: Vec<Vec<(Option<char>, usize)>> = nfa
        .state_transitions
        .iter()
        .map(|row| {
            row.transitions
                .iter()
                .map(|t| (t.condition, t.target_state))
                .collect()
        })
        .collect();
    assert_eq!(edges[0], vec![(Some('a'), 1)]);
    assert_eq!(edges[1], vec![(None, 2), (None, 4)]);
    assert_eq!(edges[2], vec![(Some('b'), 3)]);
    assert_eq!(edges[3], vec![(None, 2), (None, 4)]);
    assert_eq!(edges[4], vec![(Some('c'), 5)]);
    assert_eq!(edges[5], vec![]);
}

fn branching_automaton() -> FiniteAutomata {
    FiniteAutomata {
        accepting_states: vec![2],
        state_transitions: vec![
            StateTransitions {
                transitions: vec![
                    StateTransition { condition: Some('x'), target_state: 1 },
                    StateTransition { condition: None, target_state: 2 },
                    StateTransition { condition: Some('x'), target_state: 2 },
                    StateTransition { condition: Some('y'), target_state: 1 },
                ],
            },
            StateTransitions {
                transitions: vec![StateTransition { condition: None, target_state: 0 }],
            },
            StateTransitions { transitions: vec![] },
        ],
    }
}

#[test]
fn move_at_collects_labeled_targets_without_duplicates() {
    let fa = branching_automaton();
    let mut out: Vec<usize> = Vec::new();
    fa.move_at(0, 'x', &mut out);
    assert_eq!(out, vec![1, 2]);
    fa.move_at(0, 'x', &mut out);
    assert_eq!(out, vec![1, 2]);
}

#[test]
fn move_at_set_unions_over_sources() {
    let fa = branching_automaton();
    let mut out: Vec<usize> = Vec::new();
    fa.move_at_set(&vec![0, 1], 'y', &mut out);
    assert_eq!(out, vec![1]);
}

#[test]
fn used_alphabet_at_lists_distinct_symbols() {
    let fa = branching_automaton();
    let mut alphabet: Vec<char> = Vec::new();
    fa.used_alphabet_at(0, &mut alphabet);
    assert_eq!(alphabet, vec!['x', 'y']);
}

#[test]
fn epsilon_closure_includes_seeds_and_follows_cycles() {
    let fa = branching_automaton();
    let mut closure: Vec<usize> = Vec::new();
    fa.epsilon_closure_at(1, &mut closure);
    // 1 -eps-> 0 -eps-> 2, and the 0 -> 1 edges are labeled, so all three
    // states are reached from 1 only because of the epsilon cycle 1 -> 0.
    assert_eq!(sorted(closure), vec![0, 1, 2]);
}

#[test]
fn epsilon_closure_is_superset_and_idempotent() {
    let fa = compile_nfa("(a|b)*c");
    let seeds: Vec<usize> = vec![0];
    let mut once: Vec<usize> = Vec::new();
    fa.epsilon_closure_at_set(&seeds, &mut once);
    for s in &seeds {
        assert!(once.contains(s));
    }
    let mut twice: Vec<usize> = Vec::new();
    fa.epsilon_closure_at_set(&once, &mut twice);
    assert_eq!(sorted(once), sorted(twice));
}

#[test]
fn dfa_start_state_accepting_iff_empty_string_matches() {
    let star = compile_nfa("a*").nfa_to_dfa();
    assert!(star.accepting_states.contains(&0));
    let plain = compile_nfa("a").nfa_to_dfa();
    assert!(!plain.accepting_states.contains(&0));
}
