//! Acceptance semantics, and the laws tying an NFA to its subset DFA.
//!
//! An NFA is simulated by iterated epsilon-closure and move over sets of
//! states, then checking intersection with the accepting set; a DFA is run
//! edge by edge from state 0. The theorems below prove that a DFA exhibited
//! by a subset table accepts exactly the strings its NFA accepts, and that
//! any two such DFAs for one NFA agree on every string.

use vstd::prelude::*;

use crate::automata::FiniteAutomata;
use crate::automata::StateTransition;
use crate::automata::has_sym_edge;
use crate::automata::uses_symbol;
use crate::closure::eps_closure;
use crate::closure::eps_reach;
use crate::closure::move_set;
use crate::closure::set_of;
use crate::closure::set_uses_symbol;
use crate::subset::subset_accepting;
use crate::subset::subset_table_for;

verus! {

/// One simulation step of a set of NFA states on the symbol `c`.
pub open spec fn step_set(m: Seq<Seq<StateTransition>>, s: Set<int>, c: char) -> Set<int> {
    eps_closure(m, move_set(m, s, c))
}

/// The set of NFA states reached from `s` after consuming the word `w`.
pub open spec fn nfa_run(m: Seq<Seq<StateTransition>>, s: Set<int>, w: Seq<char>) -> Set<int>
    decreases w.len(),
{
    if w.len() == 0 {
        s
    } else {
        nfa_run(m, step_set(m, s, w[0]), w.drop_first())
    }
}

/// NFA acceptance: simulate from the closure of the start state and check
/// intersection with the accepting set.
pub open spec fn nfa_accepts(nfa: FiniteAutomata, w: Seq<char>) -> bool {
    subset_accepting(
        nfa.accepting_states@,
        nfa_run(nfa.model(), eps_closure(nfa.model(), Set::empty().insert(0)), w),
    )
}

/// The target of an edge labeled `c` out of DFA state `d`, if one exists.
pub open spec fn dfa_edge(m: Seq<Seq<StateTransition>>, d: int, c: char) -> Option<int> {
    if exists|jj: int| 0 <= jj < m[d].len() && (#[trigger] m[d][jj]).condition == Some(c) {
        Some(
            m[d][choose|jj: int|
                0 <= jj < m[d].len() && (#[trigger] m[d][jj]).condition == Some(c)].target_state
                as int,
        )
    } else {
        None
    }
}

/// The DFA state reached from `d` after consuming `w`, or `None` if the
/// run gets stuck.
pub open spec fn dfa_run(m: Seq<Seq<StateTransition>>, d: int, w: Seq<char>) -> Option<int>
    decreases w.len(),
{
    if w.len() == 0 {
        Some(d)
    } else {
        match dfa_edge(m, d, w[0]) {
            Some(t) => dfa_run(m, t, w.drop_first()),
            None => None,
        }
    }
}

/// DFA acceptance: run from state 0 and end in an accepting state.
pub open spec fn dfa_accepts(dfa: FiniteAutomata, w: Seq<char>) -> bool {
    match dfa_run(dfa.model(), 0, w) {
        Some(d) => dfa.accepting_states@.contains(d as usize),
        None => false,
    }
}

proof fn lemma_closure_of_empty(m: Seq<Seq<StateTransition>>)
    ensures
        eps_closure(m, Set::empty()) == Set::<int>::empty(),
{
    assert(eps_closure(m, Set::empty()) =~= Set::<int>::empty()) by {
        assert forall|t: int| !eps_closure(m, Set::<int>::empty()).contains(t) by {
            if eps_closure(m, Set::<int>::empty()).contains(t) {
                let f = choose|f: int|
                    Set::<int>::empty().contains(f) && eps_reach(m, f, t);
            }
        }
    }
}

proof fn lemma_run_from_empty(m: Seq<Seq<StateTransition>>, w: Seq<char>)
    ensures
        nfa_run(m, Set::empty(), w) == Set::<int>::empty(),
    decreases w.len(),
{
    if w.len() > 0 {
        assert(move_set(m, Set::empty(), w[0]) =~= Set::<int>::empty()) by {
            assert forall|t: int| !move_set(m, Set::<int>::empty(), w[0]).contains(t) by {
                if move_set(m, Set::<int>::empty(), w[0]).contains(t) {
                    let f = choose|f: int|
                        Set::<int>::empty().contains(f) && has_sym_edge(
                            m,
                            f,
                            w[0],
                            t,
                        );
                }
            }
        }
        lemma_closure_of_empty(m);
        assert(step_set(m, Set::empty(), w[0]) == Set::<int>::empty());
        lemma_run_from_empty(m, w.drop_first());
    }
}

/// Running the DFA from state `d` mirrors simulating the NFA from the set
/// that row `d` stands for: either both reach the rows' correspondence
/// again, or the DFA gets stuck exactly when the NFA set runs empty.
proof fn lemma_dfa_simulates_nfa_from(
    nfa: FiniteAutomata,
    dfa: FiniteAutomata,
    tbl: Seq<Seq<usize>>,
    d: int,
    w: Seq<char>,
)
    requires
        subset_table_for(nfa, dfa, tbl),
        0 <= d < tbl.len(),
        d <= usize::MAX,
    ensures
        ({
            let reached = nfa_run(nfa.model(), set_of(tbl[d]), w);
            match dfa_run(dfa.model(), d, w) {
                Some(e) => 0 <= e < tbl.len() && e <= usize::MAX && set_of(tbl[e]) == reached,
                None => reached == Set::<int>::empty(),
            }
        }),
    decreases w.len(),
{
    let m = nfa.model();
    let dm = dfa.model();
    let s = set_of(tbl[d]);
    if w.len() > 0 {
        let c = w[0];
        if exists|jj: int| 0 <= jj < dm[d].len() && (#[trigger] dm[d][jj]).condition == Some(c) {
            let jjc = choose|jj: int|
                0 <= jj < dm[d].len() && (#[trigger] dm[d][jj]).condition == Some(c);
            assert(0 <= jjc < dm[d].len() && dm[d][jjc].condition == Some(c));
            let t = dm[d][jjc].target_state as int;
            assert(dfa_edge(dm, d, c) == Some(t));
            assert(0 <= t < tbl.len() && set_of(tbl[t]) == eps_closure(
                m,
                move_set(m, set_of(tbl[d]), dm[d][jjc].condition->Some_0),
            ));
            assert(dm[d][jjc].condition->Some_0 == c);
            assert(set_of(tbl[t]) == step_set(m, s, c));
            lemma_dfa_simulates_nfa_from(nfa, dfa, tbl, t, w.drop_first());
        } else {
            assert(dfa_edge(dm, d, c) is None);
            assert(!set_uses_symbol(m, s, c));
            assert(move_set(m, s, c) =~= Set::<int>::empty()) by {
                assert forall|t: int| !move_set(m, s, c).contains(t) by {
                    if move_set(m, s, c).contains(t) {
                        let f = choose|f: int|
                            #[trigger] s.contains(f) && has_sym_edge(m, f, c, t);
                        let jx = choose|jx: int|
                            0 <= jx < m[f].len() && (#[trigger] m[f][jx]).condition == Some(c)
                                && m[f][jx].target_state == t;
                        assert(uses_symbol(m, f, c));
                        assert(set_uses_symbol(m, s, c));
                    }
                }
            }
            lemma_closure_of_empty(m);
            assert(step_set(m, s, c) == Set::<int>::empty());
            lemma_run_from_empty(m, w.drop_first());
        }
    }
}

/// Language equivalence of the two representations: a DFA exhibited by a
/// subset table accepts a string exactly when simulating the NFA by
/// repeated epsilon-closure and move accepts it.
pub proof fn lemma_dfa_language_equals_nfa(
    nfa: FiniteAutomata,
    dfa: FiniteAutomata,
    tbl: Seq<Seq<usize>>,
    w: Seq<char>,
)
    requires
        subset_table_for(nfa, dfa, tbl),
    ensures
        dfa_accepts(dfa, w) == nfa_accepts(nfa, w),
{
    lemma_dfa_simulates_nfa_from(nfa, dfa, tbl, 0, w);
    let reached = nfa_run(nfa.model(), set_of(tbl[0]), w);
    match dfa_run(dfa.model(), 0, w) {
        Some(e) => {
            assert((e as usize) as int == e);
            assert(dfa.accepting_states@.contains(e as usize) <==> subset_accepting(
                nfa.accepting_states@,
                set_of(tbl[e]),
            ));
        },
        None => {
            assert(!subset_accepting(nfa.accepting_states@, Set::<int>::empty())) by {
                if subset_accepting(nfa.accepting_states@, Set::<int>::empty()) {
                    let j = choose|j: int|
                        0 <= j < nfa.accepting_states@.len() && Set::<int>::empty().contains(
                            #[trigger] nfa.accepting_states@[j] as int,
                        );
                }
            }
        },
    }
}

/// Subset construction is deterministic in behavior: two DFAs exhibited by
/// subset tables over the same NFA accept exactly the same strings, however
/// their states happen to be numbered.
pub proof fn lemma_subset_construction_canonical(
    nfa: FiniteAutomata,
    dfa1: FiniteAutomata,
    tbl1: Seq<Seq<usize>>,
    dfa2: FiniteAutomata,
    tbl2: Seq<Seq<usize>>,
    w: Seq<char>,
)
    requires
        subset_table_for(nfa, dfa1, tbl1),
        subset_table_for(nfa, dfa2, tbl2),
    ensures
        dfa_accepts(dfa1, w) == dfa_accepts(dfa2, w),
{
    lemma_dfa_language_equals_nfa(nfa, dfa1, tbl1, w);
    lemma_dfa_language_equals_nfa(nfa, dfa2, tbl2, w);
}

} // verus!
