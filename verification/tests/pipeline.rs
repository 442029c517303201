use langlab::automata::FiniteAutomata;
use langlab::regex::RegEx;

fn compile_nfa(pattern: &str) -> FiniteAutomata {
    let chars: Vec<char> = pattern.chars().collect();
    let regex = RegEx::new_from_chars(&chars).expect("pattern should parse");
    FiniteAutomata::new_from_regex(&regex)
}

/// Simulates an automaton on `input` through the library's closure and
/// move primitives; works for NFAs and DFAs alike.
fn accepts(fa: &FiniteAutomata, input: &str) -> bool {
    let mut current: Vec<usize> = Vec::new();
    fa.epsilon_closure_at(0, &mut current);
    for c in input.chars() {
        let mut moved: Vec<usize> = Vec::new();
        fa.move_at_set(&current, c, &mut moved);
        let mut closed: Vec<usize> = Vec::new();
        fa.epsilon_closure_at_set(&moved, &mut closed);
        current = closed;
    }
    current.iter().any(|s| fa.accepting_states.contains(s))
}

/// Every string over `alpha` of length at most `max_len`.
fn all_strings(alpha: &[char], max_len: usize) -> Vec<String> {
    let mut out: Vec<String> = vec![String::new()];
    let mut layer: Vec<String> = vec![String::new()];
    for _ in 0..max_len {
        let mut next: Vec<String> = Vec::new();
        for s in &layer {
            for c in alpha {
                let mut t = s.clone();
                t.push(*c);
                next.push(t);
            }
        }
        for s in &next {
            out.push(s.clone());
        }
        layer = next;
    }
    out
}

fn assert_dfa_shape(dfa: &FiniteAutomata) {
    assert!(dfa.state_transitions.len() >= 1);
    for row in &dfa.state_transitions {
        for (j, tr) in row.transitions.iter().enumerate() {
            assert!(tr.condition.is_some(), "a DFA must hold no epsilon transition");
            assert!(tr.target_state < dfa.state_transitions.len());
            for other in &row.transitions[j + 1..] {
                assert_ne!(
                    tr.condition, other.condition,
                    "at most one transition per state and symbol"
                );
            }
        }
    }
}

#[test]
fn concrete_pattern_dfa_accepts_and_rejects() {
    let dfa = compile_nfa("ab*c").nfa_to_dfa();
    assert!(accepts(&dfa, "ac"));
    assert!(accepts(&dfa, "abc"));
    assert!(accepts(&dfa, "abbbc"));
    assert!(!accepts(&dfa, "a"));
    assert!(!accepts(&dfa, "abcd"));
    assert!(!accepts(&dfa, ""));
}

#[test]
fn pipeline_yields_deterministic_epsilon_free_models() {
    for pattern in ["a", "ab*c", "a|b", "(a|b)*c", "a+b", "a**", "(ab)+|c"] {
        let dfa = compile_nfa(pattern).nfa_to_dfa();
        assert_dfa_shape(&dfa);
    }
}

#[test]
fn nfa_and_dfa_agree_on_short_strings() {
    let alpha = ['a', 'b', 'c'];
    for pattern in ["ab*c", "a|b", "(a|b)*c", "a+b", "(ab)+|c", "a**"] {
        let nfa = compile_nfa(pattern);
        let dfa = nfa.nfa_to_dfa();
        for s in all_strings(&alpha, 4) {
            assert_eq!(
                accepts(&nfa, &s),
                accepts(&dfa, &s),
                "NFA and DFA disagree on {:?} for pattern {:?}",
                s,
                pattern
            );
        }
    }
}

#[test]
fn chained_closure_accepts_same_language_as_single() {
    let single = compile_nfa("a*").nfa_to_dfa();
    let chained = compile_nfa("a**").nfa_to_dfa();
    for s in all_strings(&['a', 'b'], 5) {
        assert_eq!(accepts(&single, &s), accepts(&chained, &s), "disagree on {:?}", s);
    }
    assert!(accepts(&chained, ""));
    assert!(accepts(&chained, "aaa"));
    assert!(!accepts(&chained, "ab"));
}

#[test]
fn positive_closure_requires_one_occurrence() {
    let dfa = compile_nfa("a+").nfa_to_dfa();
    assert!(!accepts(&dfa, ""));
    assert!(accepts(&dfa, "a"));
    assert!(accepts(&dfa, "aaaa"));
    assert!(!accepts(&dfa, "b"));
}

#[test]
fn union_accepts_either_branch() {
    let dfa = compile_nfa("ab|cd").nfa_to_dfa();
    assert!(accepts(&dfa, "ab"));
    assert!(accepts(&dfa, "cd"));
    assert!(!accepts(&dfa, "ad"));
    assert!(!accepts(&dfa, ""));
}

#[test]
fn subset_construction_is_deterministic_across_runs() {
    let nfa = compile_nfa("(a|b)*abb");
    let dfa1 = nfa.nfa_to_dfa();
    let dfa2 = nfa.nfa_to_dfa();
    for s in all_strings(&['a', 'b'], 6) {
        assert_eq!(accepts(&dfa1, &s), accepts(&dfa2, &s), "disagree on {:?}", s);
    }
    assert!(accepts(&dfa1, "abb"));
    assert!(accepts(&dfa1, "aababb"));
    assert!(!accepts(&dfa1, "ab"));
}
