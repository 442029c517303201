//! The automaton model shared by NFAs and DFAs, and Thompson's construction.
//!
//! States are identified by dense zero-based indices; state 0 is the start
//! state. A transition is labeled with a symbol (`Some`) or is an epsilon
//! move (`None`). The spec functions `sp_compile` and `sp_kleene` state
//! Thompson's construction as a mathematical function on the model, and the
//! executable construction returns exactly that model.

use vstd::prelude::*;

use crate::regex::RegEx;

verus! {

/// One directed edge; the source state is implicit (the row it sits in).
#[derive(Clone, Copy, Debug, PartialEq, Eq)]
pub struct StateTransition {
    /// `Some(c)` consumes the symbol `c`; `None` is an epsilon move.
    pub condition: Option<char>,
    /// Index of the state this edge leads to.
    pub target_state: usize,
}

/// All outgoing edges of one state.
#[derive(Debug)]
pub struct StateTransitions {
    pub transitions: Vec<StateTransition>,
}

/// A finite automaton; the start state is always index 0.
#[derive(Debug)]
pub struct FiniteAutomata {
    /// Indices of the states that mark successful recognition.
    pub accepting_states: Vec<usize>,
    /// Row `i` holds the outgoing edges of state `i`.
    pub state_transitions: Vec<StateTransitions>,
}

/// The mathematical model of a transition table: one edge sequence per state.
pub open spec fn model_of(ts: Seq<StateTransitions>) -> Seq<Seq<StateTransition>> {
    ts.map_values(|row: StateTransitions| row.transitions@)
}

/// Every edge of `m` stays below the state bound `b`.
pub open spec fn wf_bound(m: Seq<Seq<StateTransition>>, b: int) -> bool {
    forall|i: int, j: int|
        0 <= i < m.len() && 0 <= j < m[i].len() ==> (#[trigger] m[i][j]).target_state < b
}

/// Every edge of `m` targets an existing state.
pub open spec fn wf_model(m: Seq<Seq<StateTransition>>) -> bool {
    wf_bound(m, m.len() as int)
}

/// State `s` has an edge labeled `c` to state `t`.
pub open spec fn has_sym_edge(m: Seq<Seq<StateTransition>>, s: int, c: char, t: int) -> bool {
    exists|j: int|
        0 <= j < m[s].len() && (#[trigger] m[s][j]).condition == Some(c) && m[s][j].target_state
            == t
}

/// State `s` has an epsilon edge to state `t`.
pub open spec fn has_eps_edge(m: Seq<Seq<StateTransition>>, s: int, t: int) -> bool {
    exists|j: int|
        0 <= j < m[s].len() && (#[trigger] m[s][j]).condition is None && m[s][j].target_state == t
}

/// Some edge out of state `s` is labeled with the symbol `c`.
pub open spec fn uses_symbol(m: Seq<Seq<StateTransition>>, s: int, c: char) -> bool {
    exists|j: int| 0 <= j < m[s].len() && (#[trigger] m[s][j]).condition == Some(c)
}

/// The model after appending one fresh state with no edges.
pub open spec fn sp_new_state(m: Seq<Seq<StateTransition>>) -> Seq<Seq<StateTransition>> {
    m.push(Seq::empty())
}

/// The model after appending one edge from `from`.
pub open spec fn sp_add_edge(
    m: Seq<Seq<StateTransition>>,
    from: int,
    cond: Option<char>,
    tgt: usize,
) -> Seq<Seq<StateTransition>> {
    m.update(from, m[from].push(StateTransition { condition: cond, target_state: tgt }))
}

/// Thompson's construction of one grammar node, appended to `m` as a
/// fragment: its entry is the last state of `m`, its exit the last state of
/// the result.
pub open spec fn sp_compile(r: RegEx, m: Seq<Seq<StateTransition>>) -> Seq<Seq<StateTransition>>
    decreases r, 0int,
{
    match r {
        RegEx::Character(c) => sp_new_state(
            sp_add_edge(m, m.len() - 1, Some(c), m.len() as usize),
        ),
        RegEx::Concat(l, rr) => sp_compile(*rr, sp_compile(*l, m)),
        RegEx::KleeneClosure(inner) => sp_kleene(*inner, m),
        RegEx::PositiveClosure(inner) => sp_kleene(*inner, sp_compile(*inner, m)),
        RegEx::Union(l, rr) => {
            let start = m.len() - 1;
            let entry_l = m.len() as usize;
            let m1 = sp_compile(*l, sp_new_state(m));
            let exit_l = m1.len() - 1;
            let entry_r = m1.len() as usize;
            let m2 = sp_compile(*rr, sp_new_state(m1));
            let m3 = sp_new_state(m2);
            let exit_r = m2.len() - 1;
            let exit = (m3.len() - 1) as usize;
            sp_add_edge(
                sp_add_edge(
                    sp_add_edge(sp_add_edge(m3, start, None, entry_l), start, None, entry_r),
                    exit_l,
                    None,
                    exit,
                ),
                exit_r,
                None,
                exit,
            )
        },
    }
}

/// The zero-or-more loop around `inner`: a loop entry, the inner fragment,
/// a loop exit, and the four epsilon moves that skip or repeat it.
pub open spec fn sp_kleene(inner: RegEx, m: Seq<Seq<StateTransition>>) -> Seq<
    Seq<StateTransition>,
>
    decreases inner, 1int,
{
    let start = m.len() - 1;
    let entry = m.len() as usize;
    let m1 = sp_compile(inner, sp_new_state(m));
    let loop_exit = m1.len() - 1;
    let m2 = sp_new_state(m1);
    let exit = (m2.len() - 1) as usize;
    sp_add_edge(
        sp_add_edge(
            sp_add_edge(sp_add_edge(m2, start, None, entry), start, None, exit),
            loop_exit,
            None,
            entry,
        ),
        loop_exit,
        None,
        exit,
    )
}

proof fn lemma_wf_bound_new_state(m: Seq<Seq<StateTransition>>, b: int)
    requires
        wf_bound(m, b),
    ensures
        wf_bound(sp_new_state(m), b),
{
    let m2 = sp_new_state(m);
    assert forall|i: int, j: int|
        0 <= i < m2.len() && 0 <= j < m2[i].len() implies (#[trigger] m2[i][j]).target_state
        < b by {
        assert(i < m.len() && m2[i] == m[i]);
    }
}

proof fn lemma_wf_bound_add_edge(
    m: Seq<Seq<StateTransition>>,
    from: int,
    cond: Option<char>,
    tgt: usize,
    b: int,
)
    requires
        wf_bound(m, b),
        0 <= from < m.len(),
        (tgt as int) < b,
    ensures
        wf_bound(sp_add_edge(m, from, cond, tgt), b),
{
    let m2 = sp_add_edge(m, from, cond, tgt);
    assert forall|i: int, j: int|
        0 <= i < m2.len() && 0 <= j < m2[i].len() implies (#[trigger] m2[i][j]).target_state
        < b by {
        if i == from {
            if j < m[from].len() {
                assert(m2[i][j] == m[i][j]);
            } else {
                assert(m2[i][j].target_state == tgt);
            }
        } else {
            assert(m2[i][j] == m[i][j]);
        }
    }
}

proof fn lemma_wf_bound_weaken(m: Seq<Seq<StateTransition>>, b1: int, b2: int)
    requires
        wf_bound(m, b1),
        b1 <= b2,
    ensures
        wf_bound(m, b2),
{
}

/// The compiled fragment adds at least one state, and keeps every edge
/// target in range.
pub proof fn lemma_sp_compile_wf(r: RegEx, m: Seq<Seq<StateTransition>>)
    requires
        m.len() >= 1,
    ensures
        sp_compile(r, m).len() > m.len(),
        wf_model(m) ==> wf_model(sp_compile(r, m)),
    decreases r, 0int,
{
    match r {
        RegEx::Character(c) => {
            let m2 = sp_compile(r, m);
            assert(m2.len() == m.len() + 1);
            if wf_model(m) {
                lemma_wf_bound_weaken(m, m.len() as int, m2.len() as int);
                lemma_wf_bound_add_edge(m, m.len() - 1, Some(c), m.len() as usize, m2.len() as int);
                lemma_wf_bound_new_state(
                    sp_add_edge(m, m.len() - 1, Some(c), m.len() as usize),
                    m2.len() as int,
                );
            }
        },
        RegEx::Concat(l, rr) => {
            lemma_sp_compile_wf(*l, m);
            lemma_sp_compile_wf(*rr, sp_compile(*l, m));
        },
        RegEx::KleeneClosure(inner) => {
            lemma_sp_kleene_wf(*inner, m);
        },
        RegEx::PositiveClosure(inner) => {
            lemma_sp_compile_wf(*inner, m);
            lemma_sp_kleene_wf(*inner, sp_compile(*inner, m));
        },
        RegEx::Union(l, rr) => {
            let m0 = sp_new_state(m);
            lemma_sp_compile_wf(*l, m0);
            let m1 = sp_compile(*l, m0);
            let m1b = sp_new_state(m1);
            lemma_sp_compile_wf(*rr, m1b);
            let m2 = sp_compile(*rr, m1b);
            let m3 = sp_new_state(m2);
            let b = m3.len() as int;
            assert(sp_compile(r, m).len() == m3.len());
            if wf_model(m) {
                lemma_wf_bound_weaken(m, m.len() as int, b);
                lemma_wf_bound_new_state(m, b);
                lemma_wf_bound_weaken(m1, m1.len() as int, b);
                lemma_wf_bound_new_state(m1, b);
                lemma_wf_bound_weaken(m2, m2.len() as int, b);
                lemma_wf_bound_new_state(m2, b);
                let e1 = sp_add_edge(m3, m.len() - 1, None, m.len() as usize);
                lemma_wf_bound_add_edge(m3, m.len() - 1, None, m.len() as usize, b);
                let e2 = sp_add_edge(e1, m.len() - 1, None, m1.len() as usize);
                lemma_wf_bound_add_edge(e1, m.len() - 1, None, m1.len() as usize, b);
                let e3 = sp_add_edge(e2, m1.len() - 1, None, (m3.len() - 1) as usize);
                lemma_wf_bound_add_edge(e2, m1.len() - 1, None, (m3.len() - 1) as usize, b);
                lemma_wf_bound_add_edge(e3, m2.len() - 1, None, (m3.len() - 1) as usize, b);
            }
        },
    }
}

/// Same statement for the loop construction.
pub proof fn lemma_sp_kleene_wf(inner: RegEx, m: Seq<Seq<StateTransition>>)
    requires
        m.len() >= 1,
    ensures
        sp_kleene(inner, m).len() > m.len(),
        wf_model(m) ==> wf_model(sp_kleene(inner, m)),
    decreases inner, 1int,
{
    let m0 = sp_new_state(m);
    lemma_sp_compile_wf(inner, m0);
    let m1 = sp_compile(inner, m0);
    let m2 = sp_new_state(m1);
    let b = m2.len() as int;
    assert(sp_kleene(inner, m).len() == m2.len());
    if wf_model(m) {
        lemma_wf_bound_weaken(m, m.len() as int, b);
        lemma_wf_bound_new_state(m, b);
        lemma_wf_bound_weaken(m1, m1.len() as int, b);
        lemma_wf_bound_new_state(m1, b);
        let e1 = sp_add_edge(m2, m.len() - 1, None, m.len() as usize);
        lemma_wf_bound_add_edge(m2, m.len() - 1, None, m.len() as usize, b);
        let e2 = sp_add_edge(e1, m.len() - 1, None, (m2.len() - 1) as usize);
        lemma_wf_bound_add_edge(e1, m.len() - 1, None, (m2.len() - 1) as usize, b);
        let e3 = sp_add_edge(e2, m1.len() - 1, None, m.len() as usize);
        lemma_wf_bound_add_edge(e2, m1.len() - 1, None, m.len() as usize, b);
        lemma_wf_bound_add_edge(e3, m1.len() - 1, None, (m2.len() - 1) as usize, b);
    }
}

impl FiniteAutomata {
    /// The mathematical model of this automaton's transition table.
    pub open spec fn model(&self) -> Seq<Seq<StateTransition>> {
        model_of(self.state_transitions@)
    }

    /// Every edge targets an existing state and every accepting index is an
    /// existing state.
    pub open spec fn wf(&self) -> bool {
        &&& wf_model(self.model())
        &&& forall|k: int|
            0 <= k < self.accepting_states@.len() ==> (#[trigger] self.accepting_states@[k])
                < self.state_transitions@.len()
    }

    /// Appends one fresh state with no outgoing edges.
    pub(crate) fn push_state(ts: &mut Vec<StateTransitions>)
        ensures
            model_of(final(ts)@) == sp_new_state(model_of(old(ts)@)),
            final(ts)@.len() == old(ts)@.len() + 1,
    {
        ts.push(StateTransitions { transitions: Vec::new() });
        proof {
            let before = model_of(old(ts)@);
            let after = model_of(ts@);
            assert forall|i: int| 0 <= i < after.len() implies after[i] == sp_new_state(before)[i]
            by {
                if i < before.len() {
                    assert(ts@[i] == old(ts)@[i]);
                }
            }
            assert(after =~= sp_new_state(before));
        }
    }

    /// Appends one edge to the row of state `from`.
    pub(crate) fn push_edge(ts: &mut Vec<StateTransitions>, from: usize, cond: Option<char>, tgt: usize)
        requires
            from < old(ts)@.len(),
        ensures
            model_of(final(ts)@) == sp_add_edge(model_of(old(ts)@), from as int, cond, tgt),
            final(ts)@.len() == old(ts)@.len(),
    {
        let mut row = ts.remove(from);
        row.transitions.push(StateTransition { condition: cond, target_state: tgt });
        ts.insert(from, row);
        proof {
            let before = model_of(old(ts)@);
            let after = model_of(ts@);
            let goal = sp_add_edge(before, from as int, cond, tgt);
            assert forall|i: int| 0 <= i < after.len() implies after[i] == goal[i] by {
                if i < from {
                    assert(ts@[i] == old(ts)@[i]);
                } else if i == from {
                    assert(ts@[i].transitions@ == old(ts)@[from as int].transitions@.push(
                        StateTransition { condition: cond, target_state: tgt },
                    ));
                } else {
                    assert(ts@[i] == old(ts)@[i]);
                }
            }
            assert(after =~= goal);
        }
    }

    /// Appends the fragment for `regex`: entry at the current last state,
    /// exit at the last state of the result, exactly as `sp_compile` states.
    fn from_regex_internal(regex: &RegEx, state_transitions: &mut Vec<StateTransitions>)
        requires
            old(state_transitions)@.len() >= 1,
        ensures
            model_of(final(state_transitions)@) == sp_compile(
                *regex,
                model_of(old(state_transitions)@),
            ),
            final(state_transitions)@.len() > old(state_transitions)@.len(),
        decreases *regex, 0int,
    {
        proof {
            lemma_sp_compile_wf(*regex, model_of(old(state_transitions)@));
        }
        match regex {
            RegEx::Character(c) => {
                let len = state_transitions.len();
                Self::push_edge(state_transitions, len - 1, Some(*c), len);
                Self::push_state(state_transitions);
            },
            RegEx::Concat(lhs, rhs) => {
                Self::from_regex_internal(lhs, state_transitions);
                Self::from_regex_internal(rhs, state_transitions);
            },
            RegEx::KleeneClosure(inner) => {
                Self::kleene_closure_internal(inner, state_transitions);
            },
            RegEx::PositiveClosure(inner) => {
                Self::from_regex_internal(inner, state_transitions);
                Self::kleene_closure_internal(inner, state_transitions);
            },
            RegEx::Union(lhs, rhs) => {
                let starting_index = state_transitions.len() - 1;
                Self::push_state(state_transitions);
                let entry_into_lhs = state_transitions.len() - 1;
                Self::from_regex_internal(lhs, state_transitions);
                let lhs_exit = state_transitions.len() - 1;
                Self::push_state(state_transitions);
                let entry_into_rhs = state_transitions.len() - 1;
                Self::from_regex_internal(rhs, state_transitions);
                let rhs_exit = state_transitions.len() - 1;
                Self::push_state(state_transitions);
                let exit_after_branch = state_transitions.len() - 1;
                Self::push_edge(state_transitions, starting_index, None, entry_into_lhs);
                Self::push_edge(state_transitions, starting_index, None, entry_into_rhs);
                Self::push_edge(state_transitions, lhs_exit, None, exit_after_branch);
                Self::push_edge(state_transitions, rhs_exit, None, exit_after_branch);
            },
        }
    }

    /// Appends the zero-or-more loop for `inner`, as `sp_kleene` states.
    fn kleene_closure_internal(inner: &RegEx, state_transitions: &mut Vec<StateTransitions>)
        requires
            old(state_transitions)@.len() >= 1,
        ensures
            model_of(final(state_transitions)@) == sp_kleene(
                *inner,
                model_of(old(state_transitions)@),
            ),
            final(state_transitions)@.len() > old(state_transitions)@.len(),
        decreases *inner, 1int,
    {
        let starting_index = state_transitions.len() - 1;
        Self::push_state(state_transitions);
        let entry_into_loop = state_transitions.len() - 1;
        Self::from_regex_internal(inner, state_transitions);
        let loop_exit = state_transitions.len() - 1;
        Self::push_state(state_transitions);
        let exit_after_loop = state_transitions.len() - 1;
        Self::push_edge(state_transitions, starting_index, None, entry_into_loop);
        Self::push_edge(state_transitions, starting_index, None, exit_after_loop);
        Self::push_edge(state_transitions, loop_exit, None, entry_into_loop);
        Self::push_edge(state_transitions, loop_exit, None, exit_after_loop);
    }

    /// Compiles a grammar tree into an NFA: state 0 is the start state, the
    /// model is exactly Thompson's construction run on a one-state table,
    /// and the sole accepting state is the fragment's exit.
    pub fn new_from_regex(regex: &RegEx) -> (fa: Self)
        ensures
            fa.model() == sp_compile(*regex, seq![Seq::<StateTransition>::empty()]),
            fa.accepting_states@ == seq![(fa.state_transitions@.len() - 1) as usize],
            fa.state_transitions@.len() >= 2,
            fa.wf(),
    {
        let mut state_transitions: Vec<StateTransitions> = Vec::new();
        Self::push_state(&mut state_transitions);
        proof {
            assert(model_of(state_transitions@) =~= seq![Seq::<StateTransition>::empty()]);
            lemma_sp_compile_wf(*regex, model_of(state_transitions@));
            assert(wf_model(model_of(state_transitions@)));
        }
        Self::from_regex_internal(regex, &mut state_transitions);
        let last = state_transitions.len() - 1;
        let mut accepting_states: Vec<usize> = Vec::new();
        accepting_states.push(last);
        proof {
            assert(accepting_states@ =~= seq![last]);
        }
        FiniteAutomata { accepting_states, state_transitions }
    }

    /// An automaton with no states and no accepting set.
    pub fn new_empty() -> (fa: Self)
        ensures
            fa.state_transitions@.len() == 0,
            fa.accepting_states@.len() == 0,
            fa.wf(),
    {
        FiniteAutomata { accepting_states: Vec::new(), state_transitions: Vec::new() }
    }
}

} // verus!
