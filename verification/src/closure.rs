//! Epsilon-closure and move primitives, with their mathematical model.
//!
//! The model is reachability over epsilon edges: `eps_reach` says a path of
//! epsilon moves connects two states, and `eps_closure` is the set of states
//! reachable that way from a set. The executable functions compute these
//! sets with explicit work lists, so they terminate on any transition graph,
//! epsilon cycles included.

use vstd::prelude::*;
use vstd::set_lib::lemma_len_subset;
use vstd::set_lib::lemma_int_range;
use vstd::set_lib::set_int_range;
use vstd::seq_lib::seq_to_set_is_finite;

use crate::automata::FiniteAutomata;
use crate::automata::StateTransition;
use crate::automata::has_eps_edge;
use crate::automata::has_sym_edge;
use crate::automata::uses_symbol;

verus! {

/// The set of state indices a vector holds.
pub open spec fn set_of(v: Seq<usize>) -> Set<int> {
    Set::new(|t: int| exists|k: int| 0 <= k < v.len() && (#[trigger] v[k]) == t)
}

/// `p` is a non-empty walk whose every step is an epsilon edge of `m`.
pub open spec fn is_eps_path(m: Seq<Seq<StateTransition>>, p: Seq<int>) -> bool {
    &&& p.len() >= 1
    &&& forall|k: int|
        0 <= k < p.len() - 1 ==> 0 <= #[trigger] p[k] < m.len() && has_eps_edge(m, p[k], p[k + 1])
}

/// State `to` is reachable from `from` by zero or more epsilon moves.
pub open spec fn eps_reach(m: Seq<Seq<StateTransition>>, from: int, to: int) -> bool {
    exists|p: Seq<int>| is_eps_path(m, p) && p.first() == from && p.last() == to
}

/// All states reachable from `s` by zero or more epsilon moves, the states
/// of `s` included.
pub open spec fn eps_closure(m: Seq<Seq<StateTransition>>, s: Set<int>) -> Set<int> {
    Set::new(|t: int| exists|f: int| #[trigger] s.contains(f) && eps_reach(m, f, t))
}

/// The move set: states reachable from some state of `s` by one edge
/// labeled `c`.
pub open spec fn move_set(m: Seq<Seq<StateTransition>>, s: Set<int>, c: char) -> Set<int> {
    Set::new(|t: int| exists|f: int| #[trigger] s.contains(f) && has_sym_edge(m, f, c, t))
}

/// Some state of the set `s` has an outgoing edge labeled `c`.
pub open spec fn set_uses_symbol(m: Seq<Seq<StateTransition>>, s: Set<int>, c: char) -> bool {
    exists|f: int| #[trigger] s.contains(f) && uses_symbol(m, f, c)
}

/// A set that epsilon edges cannot leave.
pub open spec fn eps_closed(m: Seq<Seq<StateTransition>>, c: Set<int>) -> bool {
    forall|s: int, t: int|
        c.contains(s) && 0 <= s < m.len() && #[trigger] has_eps_edge(m, s, t) ==> c.contains(t)
}

/// Every state reaches itself by the empty walk.
pub proof fn lemma_eps_reach_refl(m: Seq<Seq<StateTransition>>, s: int)
    ensures
        eps_reach(m, s, s),
{
    let p: Seq<int> = seq![s];
    assert(is_eps_path(m, p) && p.first() == s && p.last() == s);
}

/// Reachability extends along one more epsilon edge.
pub proof fn lemma_eps_reach_step(m: Seq<Seq<StateTransition>>, a: int, b: int, c: int)
    requires
        eps_reach(m, a, b),
        0 <= b < m.len(),
        has_eps_edge(m, b, c),
    ensures
        eps_reach(m, a, c),
{
    let p = choose|p: Seq<int>| is_eps_path(m, p) && p.first() == a && p.last() == b;
    let p2 = p.push(c);
    assert forall|k: int| 0 <= k < p2.len() - 1 implies 0 <= #[trigger] p2[k] < m.len()
        && has_eps_edge(m, p2[k], p2[k + 1]) by {
        if k < p.len() - 1 {
            assert(p2[k] == p[k] && p2[k + 1] == p[k + 1]);
        } else {
            assert(p2[k] == p.last() && p2[k + 1] == c);
        }
    }
    assert(is_eps_path(m, p2) && p2.first() == a && p2.last() == c);
}

/// Reachability composes: the two walks joined at `b` form one walk.
pub proof fn lemma_eps_reach_trans(m: Seq<Seq<StateTransition>>, a: int, b: int, c: int)
    requires
        eps_reach(m, a, b),
        eps_reach(m, b, c),
    ensures
        eps_reach(m, a, c),
{
    let p1 = choose|p: Seq<int>| is_eps_path(m, p) && p.first() == a && p.last() == b;
    let p2 = choose|p: Seq<int>| is_eps_path(m, p) && p.first() == b && p.last() == c;
    let p = p1 + p2.drop_first();
    assert(p.len() == p1.len() + p2.len() - 1);
    assert forall|k: int| 0 <= k < p.len() - 1 implies 0 <= #[trigger] p[k] < m.len()
        && has_eps_edge(m, p[k], p[k + 1]) by {
        if k < p1.len() - 1 {
            assert(p[k] == p1[k]);
            if k + 1 < p1.len() {
                assert(p[k + 1] == p1[k + 1]);
            }
        } else {
            assert(p[k] == p2[k - p1.len() + 1] || (k == p1.len() - 1 && p[k] == p1.last()));
            assert(p[k + 1] == p2[k - p1.len() + 2]);
            assert(0 <= k - p1.len() + 1 < p2.len() - 1);
        }
    }
    assert(p.first() == a);
    assert(p.last() == p2.last());
    assert(is_eps_path(m, p) && p.first() == a && p.last() == c);
}

/// A walk that starts inside a closed set ends inside it.
proof fn lemma_path_stays_in_closed(m: Seq<Seq<StateTransition>>, c: Set<int>, p: Seq<int>)
    requires
        is_eps_path(m, p),
        c.contains(p.first()),
        eps_closed(m, c),
    ensures
        c.contains(p.last()),
    decreases p.len(),
{
    if p.len() > 1 {
        let q = p.drop_last();
        assert forall|k: int| 0 <= k < q.len() - 1 implies 0 <= #[trigger] q[k] < m.len()
            && has_eps_edge(m, q[k], q[k + 1]) by {
            assert(q[k] == p[k] && q[k + 1] == p[k + 1]);
        }
        assert(is_eps_path(m, q) && q.first() == p.first());
        lemma_path_stays_in_closed(m, c, q);
        assert(q.last() == p[p.len() - 2]);
        assert(has_eps_edge(m, p[p.len() - 2], p.last()));
    }
}

/// A closed set that contains `base` contains the whole closure of `base`.
pub proof fn lemma_closure_in_closed(m: Seq<Seq<StateTransition>>, base: Set<int>, c: Set<int>)
    requires
        base.subset_of(c),
        eps_closed(m, c),
    ensures
        eps_closure(m, base).subset_of(c),
{
    assert forall|t: int| eps_closure(m, base).contains(t) implies c.contains(t) by {
        let f = choose|f: int| base.contains(f) && eps_reach(m, f, t);
        let p = choose|p: Seq<int>| is_eps_path(m, p) && p.first() == f && p.last() == t;
        lemma_path_stays_in_closed(m, c, p);
    }
}

/// The closure of a set contains the set itself.
pub proof fn lemma_eps_closure_superset(m: Seq<Seq<StateTransition>>, s: Set<int>)
    ensures
        s.subset_of(eps_closure(m, s)),
{
    assert forall|t: int| s.contains(t) implies eps_closure(m, s).contains(t) by {
        lemma_eps_reach_refl(m, t);
    }
}

/// Taking the closure twice adds nothing: the closure is already closed
/// under further epsilon reachability.
pub proof fn lemma_eps_closure_idempotent(m: Seq<Seq<StateTransition>>, s: Set<int>)
    ensures
        eps_closure(m, eps_closure(m, s)) == eps_closure(m, s),
{
    let c1 = eps_closure(m, s);
    let c2 = eps_closure(m, c1);
    lemma_eps_closure_superset(m, c1);
    assert forall|t: int| c2.contains(t) implies c1.contains(t) by {
        let f = choose|f: int| c1.contains(f) && eps_reach(m, f, t);
        let g = choose|g: int| s.contains(g) && eps_reach(m, g, f);
        lemma_eps_reach_trans(m, g, f, t);
    }
    assert(c2 =~= c1);
}

/// A duplicate-free vector of indices below `n` holds at most `n` of them.
pub proof fn lemma_bounded_nodup_len(s: Seq<usize>, n: nat)
    requires
        s.no_duplicates(),
        forall|k: int| 0 <= k < s.len() ==> (#[trigger] s[k]) < n,
    ensures
        s.len() <= n,
{
    let si = s.map_values(|x: usize| x as int);
    assert(si.no_duplicates());
    si.unique_seq_to_set();
    assert forall|x: int| si.to_set().contains(x) implies set_int_range(0, n as int).contains(
        x,
    ) by {
        let k = choose|k: int| 0 <= k < si.len() && si[k] == x;
        assert(s[k] < n);
    }
    broadcast use seq_to_set_is_finite;

    lemma_int_range(0, n as int);
    lemma_len_subset(si.to_set(), set_int_range(0, n as int));
}

/// `v` contains `x`.
pub(crate) fn contains_state(v: &Vec<usize>, x: usize) -> (b: bool)
    ensures
        b == v@.contains(x),
{
    let mut k: usize = 0;
    while k < v.len()
        invariant
            0 <= k <= v@.len(),
            forall|i: int| 0 <= i < k ==> v@[i] != x,
        decreases v@.len() - k,
    {
        if v[k] == x {
            return true;
        }
        k += 1;
    }
    false
}

/// `v` contains `c`.
pub(crate) fn contains_char(v: &Vec<char>, c: char) -> (b: bool)
    ensures
        b == v@.contains(c),
{
    let mut k: usize = 0;
    while k < v.len()
        invariant
            0 <= k <= v@.len(),
            forall|i: int| 0 <= i < k ==> v@[i] != c,
        decreases v@.len() - k,
    {
        if v[k] == c {
            return true;
        }
        k += 1;
    }
    false
}

/// A prefix of the edges of `s` holds one labeled `c` targeting `t`.
pub open spec fn sym_edge_upto(
    m: Seq<Seq<StateTransition>>,
    s: int,
    c: char,
    t: int,
    j: int,
) -> bool {
    exists|jj: int|
        0 <= jj < j && (#[trigger] m[s][jj]).condition == Some(c) && m[s][jj].target_state == t
}

/// A prefix of the edges of `s` holds one labeled `c`.
pub open spec fn uses_symbol_upto(m: Seq<Seq<StateTransition>>, s: int, c: char, j: int) -> bool {
    exists|jj: int| 0 <= jj < j && (#[trigger] m[s][jj]).condition == Some(c)
}

impl FiniteAutomata {
    /// Adds to `result` every state directly reachable from `state` by an
    /// edge labeled `condition`, without introducing duplicates.
    pub fn move_at(&self, state: usize, condition: char, result: &mut Vec<usize>)
        requires
            self.wf(),
            (state as int) < self.state_transitions@.len(),
            old(result)@.no_duplicates(),
            forall|k: int|
                0 <= k < old(result)@.len() ==> (#[trigger] old(result)@[k])
                    < self.state_transitions@.len(),
        ensures
            final(result)@.no_duplicates(),
            forall|k: int|
                0 <= k < final(result)@.len() ==> (#[trigger] final(result)@[k])
                    < self.state_transitions@.len(),
            forall|t: usize|
                #[trigger] final(result)@.contains(t) <==> (old(result)@.contains(t)
                    || has_sym_edge(self.model(), state as int, condition, t as int)),
    {
        let ghost m = self.model();
        let mut j: usize = 0;
        while j < self.state_transitions[state].transitions.len()
            invariant
                self.wf(),
                (state as int) < self.state_transitions@.len(),
                m == self.model(),
                0 <= j <= m[state as int].len(),
                result@.no_duplicates(),
                forall|k: int|
                    0 <= k < result@.len() ==> (#[trigger] result@[k])
                        < self.state_transitions@.len(),
                forall|t: usize|
                    #[trigger] result@.contains(t) <==> (old(result)@.contains(t) || sym_edge_upto(
                        m,
                        state as int,
                        condition,
                        t as int,
                        j as int,
                    )),
            decreases m[state as int].len() - j,
        {
            let ghost pre = result@;
            let tr = self.state_transitions[state].transitions[j];
            proof {
                assert(m[state as int][j as int] == tr);
            }
            match tr.condition {
                Some(c) => {
                    if c == condition {
                        if !contains_state(result, tr.target_state) {
                            result.push(tr.target_state);
                        }
                        proof {
                            assert(result@.contains(tr.target_state)) by {
                                if result@ != pre {
                                    assert(result@[result@.len() - 1] == tr.target_state);
                                }
                            }
                        }
                    }
                },
                None => {},
            }
            proof {
                assert forall|t: usize| #[trigger]
                    result@.contains(t) implies (old(result)@.contains(t) || sym_edge_upto(
                    m,
                    state as int,
                    condition,
                    t as int,
                    j as int + 1,
                )) by {
                    let k = choose|k: int| 0 <= k < result@.len() && result@[k] == t;
                    if k < pre.len() {
                        assert(pre[k] == t);
                        assert(pre.contains(t));
                        if sym_edge_upto(m, state as int, condition, t as int, j as int) {
                            let jj = choose|jj: int|
                                0 <= jj < j as int && (#[trigger] m[state as int][jj]).condition
                                    == Some(condition) && m[state as int][jj].target_state
                                    == t as int;
                            assert(sym_edge_upto(
                                m,
                                state as int,
                                condition,
                                t as int,
                                j as int + 1,
                            ));
                        }
                    } else {
                        assert(t == tr.target_state);
                        assert(m[state as int][j as int].condition == Some(condition));
                        assert(sym_edge_upto(m, state as int, condition, t as int, j as int + 1));
                    }
                }
                assert forall|t: usize|
                    (old(result)@.contains(t) || sym_edge_upto(
                        m,
                        state as int,
                        condition,
                        t as int,
                        j as int + 1,
                    )) implies #[trigger] result@.contains(t) by {
                    if old(result)@.contains(t) || sym_edge_upto(
                        m,
                        state as int,
                        condition,
                        t as int,
                        j as int,
                    ) {
                        assert(pre.contains(t));
                        let k = choose|k: int| 0 <= k < pre.len() && pre[k] == t;
                        assert(result@[k] == t);
                    } else {
                        let jj = choose|jj: int|
                            0 <= jj < j as int + 1 && (#[trigger] m[state as int][jj]).condition
                                == Some(condition) && m[state as int][jj].target_state == t as int;
                        assert(jj == j as int);
                        assert(t == tr.target_state);
                    }
                }
            }
            j += 1;
        }
        proof {
            assert forall|t: usize| #[trigger]
                final(result)@.contains(t) <==> (old(result)@.contains(t) || has_sym_edge(
                m,
                state as int,
                condition,
                t as int,
            )) by {
                if has_sym_edge(m, state as int, condition, t as int) {
                    let jj = choose|jj: int|
                        0 <= jj < m[state as int].len() && (#[trigger] m[state as int][jj]).condition
                            == Some(condition) && m[state as int][jj].target_state == t as int;
                    assert(sym_edge_upto(m, state as int, condition, t as int, j as int));
                }
                if sym_edge_upto(m, state as int, condition, t as int, j as int) {
                    let jj = choose|jj: int|
                        0 <= jj < j as int && (#[trigger] m[state as int][jj]).condition == Some(
                            condition,
                        ) && m[state as int][jj].target_state == t as int;
                    assert(has_sym_edge(m, state as int, condition, t as int));
                }
            }
        }
    }

    /// Adds to `result` every state directly reachable from any state of
    /// `state_set` by an edge labeled `condition`.
    pub fn move_at_set(&self, state_set: &Vec<usize>, condition: char, result: &mut Vec<usize>)
        requires
            self.wf(),
            forall|k: int|
                0 <= k < state_set@.len() ==> (#[trigger] state_set@[k])
                    < self.state_transitions@.len(),
            old(result)@.no_duplicates(),
            forall|k: int|
                0 <= k < old(result)@.len() ==> (#[trigger] old(result)@[k])
                    < self.state_transitions@.len(),
        ensures
            final(result)@.no_duplicates(),
            forall|k: int|
                0 <= k < final(result)@.len() ==> (#[trigger] final(result)@[k])
                    < self.state_transitions@.len(),
            forall|t: usize|
                #[trigger] final(result)@.contains(t) <==> (old(result)@.contains(t) || exists|
                    k: int,
                |
                    0 <= k < state_set@.len() && has_sym_edge(
                        self.model(),
                        #[trigger] state_set@[k] as int,
                        condition,
                        t as int,
                    )),
    {
        let ghost m = self.model();
        let mut i: usize = 0;
        while i < state_set.len()
            invariant
                self.wf(),
                m == self.model(),
                0 <= i <= state_set@.len(),
                forall|k: int|
                    0 <= k < state_set@.len() ==> (#[trigger] state_set@[k])
                        < self.state_transitions@.len(),
                result@.no_duplicates(),
                forall|k: int|
                    0 <= k < result@.len() ==> (#[trigger] result@[k])
                        < self.state_transitions@.len(),
                forall|t: usize|
                    #[trigger] result@.contains(t) <==> (old(result)@.contains(t) || exists|k: int|
                        0 <= k < i && has_sym_edge(
                            m,
                            #[trigger] state_set@[k] as int,
                            condition,
                            t as int,
                        )),
            decreases state_set@.len() - i,
        {
            self.move_at(state_set[i], condition, result);
            i += 1;
        }
    }

    /// Computes into `result` the epsilon closure of the union of the given
    /// seed states and whatever `result` already held: exactly the states
    /// reachable from that union by zero or more epsilon moves. A work list
    /// with a visited set makes this terminate on any graph, epsilon cycles
    /// included.
    #[verifier::loop_isolation(false)]
    #[verifier::rlimit(100)]
    #[verifier::spinoff_prover]
    pub fn epsilon_closure_at_set(&self, state_set: &Vec<usize>, result: &mut Vec<usize>)
        requires
            self.wf(),
            forall|k: int|
                0 <= k < state_set@.len() ==> (#[trigger] state_set@[k])
                    < self.state_transitions@.len(),
            old(result)@.no_duplicates(),
            forall|k: int|
                0 <= k < old(result)@.len() ==> (#[trigger] old(result)@[k])
                    < self.state_transitions@.len(),
        ensures
            final(result)@.no_duplicates(),
            forall|k: int|
                0 <= k < final(result)@.len() ==> (#[trigger] final(result)@[k])
                    < self.state_transitions@.len(),
            set_of(final(result)@) == eps_closure(
                self.model(),
                set_of(old(result)@).union(set_of(state_set@)),
            ),
    {
        let ghost m = self.model();
        let ghost base = set_of(old(result)@).union(set_of(state_set@));
        let n = self.state_transitions.len();
        let mut k: usize = 0;
        while k < state_set.len()
            invariant
                0 <= k <= state_set@.len(),
                result@.no_duplicates(),
                forall|kk: int| 0 <= kk < result@.len() ==> (#[trigger] result@[kk]) < n,
                forall|t: usize| old(result)@.contains(t) ==> #[trigger] result@.contains(t),
                forall|kk: int|
                    0 <= kk < k ==> result@.contains(#[trigger] state_set@[kk]),
                forall|t: usize| #[trigger]
                    result@.contains(t) ==> old(result)@.contains(t) || state_set@.contains(t),
            decreases state_set@.len() - k,
        {
            let ghost pre = result@;
            let s = state_set[k];
            if !contains_state(result, s) {
                result.push(s);
            }
            proof {
                assert(result@.contains(s)) by {
                    if result@ != pre {
                        assert(result@[result@.len() - 1] == s);
                    }
                }
                assert forall|t: usize| pre.contains(t) implies #[trigger] result@.contains(t) by {
                    let kk = choose|kk: int| 0 <= kk < pre.len() && pre[kk] == t;
                    assert(result@[kk] == t);
                }
                assert forall|t: usize| #[trigger]
                    result@.contains(t) implies pre.contains(t) || t == s by {
                    let kk = choose|kk: int| 0 <= kk < result@.len() && result@[kk] == t;
                    if kk < pre.len() {
                        assert(pre[kk] == t);
                    }
                }
            }
            k += 1;
        }
        proof {
            assert(set_of(result@) =~= base) by {
                assert forall|t: int| set_of(result@).contains(t) implies base.contains(t) by {
                    let kk = choose|kk: int| 0 <= kk < result@.len() && result@[kk] == t;
                    assert(result@.contains(result@[kk]));
                }
                assert forall|t: int| base.contains(t) implies set_of(result@).contains(t) by {
                    if set_of(old(result)@).contains(t) {
                        let kk = choose|kk: int|
                            0 <= kk < old(result)@.len() && old(result)@[kk] == t;
                        assert(old(result)@.contains(old(result)@[kk]));
                        assert(result@.contains(old(result)@[kk]));
                        let kk2 = choose|kk2: int|
                            0 <= kk2 < result@.len() && result@[kk2] == old(result)@[kk];
                        assert(result@[kk2] == t);
                    } else {
                        let kk = choose|kk: int|
                            0 <= kk < state_set@.len() && state_set@[kk] == t;
                        assert(result@.contains(state_set@[kk]));
                        let kk2 = choose|kk2: int|
                            0 <= kk2 < result@.len() && result@[kk2] == state_set@[kk];
                        assert(result@[kk2] == t);
                    }
                }
            }
            lemma_bounded_nodup_len(result@, n as nat);
            lemma_eps_closure_superset(m, base);
            assert forall|kk: int|
                0 <= kk < result@.len() implies eps_closure(m, base).contains(
                #[trigger] result@[kk] as int,
            ) by {
                assert(set_of(result@).contains(result@[kk] as int));
            }
        }
        let mut i: usize = 0;
        while i < result.len()
            invariant
                0 <= i <= result@.len(),
                result@.len() <= n,
                result@.no_duplicates(),
                forall|kk: int| 0 <= kk < result@.len() ==> (#[trigger] result@[kk]) < n,
                forall|t: int| base.contains(t) ==> #[trigger] set_of(result@).contains(t),
                forall|kk: int|
                    0 <= kk < result@.len() ==> eps_closure(m, base).contains(
                        #[trigger] result@[kk] as int,
                    ),
                forall|kk: int, t: int|
                    0 <= kk < i && #[trigger] has_eps_edge(m, result@[kk] as int, t)
                        ==> set_of(result@).contains(t),
            decreases n - i,
        {
            let s = result[i];
            let mut j: usize = 0;
            while j < self.state_transitions[s].transitions.len()
                invariant
                    i < result@.len(),
                    s == result@[i as int],
                    0 <= j <= m[s as int].len(),
                    result@.len() <= n,
                    result@.no_duplicates(),
                    forall|kk: int| 0 <= kk < result@.len() ==> (#[trigger] result@[kk]) < n,
                    forall|t: int| base.contains(t) ==> #[trigger] set_of(result@).contains(t),
                    forall|kk: int|
                        0 <= kk < result@.len() ==> eps_closure(m, base).contains(
                            #[trigger] result@[kk] as int,
                        ),
                    forall|kk: int, t: int|
                        0 <= kk < i && #[trigger] has_eps_edge(m, result@[kk] as int, t)
                            ==> set_of(result@).contains(t),
                    forall|jj: int|
                        0 <= jj < j && (#[trigger] m[s as int][jj]).condition is None
                            ==> set_of(result@).contains(m[s as int][jj].target_state as int),
                decreases m[s as int].len() - j,
            {
                let ghost pre = result@;
                let tr = self.state_transitions[s].transitions[j];
                proof {
                    assert(m[s as int][j as int] == tr);
                }
                if tr.condition.is_none() {
                    if !contains_state(result, tr.target_state) {
                        result.push(tr.target_state);
                        proof {
                            assert(eps_closure(m, base).contains(tr.target_state as int)) by {
                                let f = choose|f: int|
                                    base.contains(f) && eps_reach(m, f, s as int);
                                lemma_eps_reach_step(m, f, s as int, tr.target_state as int);
                            }
                        }
                    }
                    proof {
                        assert(result@.contains(tr.target_state)) by {
                            if result@ != pre {
                                assert(result@[result@.len() - 1] == tr.target_state);
                            }
                        }
                        assert(set_of(result@).contains(tr.target_state as int)) by {
                            let kk = choose|kk: int|
                                0 <= kk < result@.len() && result@[kk] == tr.target_state;
                        }
                    }
                }
                proof {
                    assert forall|t: usize| pre.contains(t) implies #[trigger] result@.contains(
                        t,
                    ) by {
                        let kk = choose|kk: int| 0 <= kk < pre.len() && pre[kk] == t;
                        assert(result@[kk] == t);
                    }
                    assert forall|t: int|
                        set_of(pre).contains(t) implies #[trigger] set_of(result@).contains(t) by {
                        let kk = choose|kk: int| 0 <= kk < pre.len() && pre[kk] == t;
                        assert(result@[kk] == t);
                    }
                    lemma_bounded_nodup_len(result@, n as nat);
                    assert forall|kk: int, t: int|
                        0 <= kk < i && #[trigger] has_eps_edge(m, result@[kk] as int, t)
                            implies set_of(result@).contains(t) by {
                        assert(result@[kk] == pre[kk]);
                        assert(set_of(pre).contains(t));
                    }
                    assert forall|jj: int|
                        0 <= jj < j + 1 && (#[trigger] m[s as int][jj]).condition
                            is None implies set_of(result@).contains(
                        m[s as int][jj].target_state as int,
                    ) by {
                        if jj < j {
                            assert(set_of(pre).contains(m[s as int][jj].target_state as int));
                        } else {
                            assert(m[s as int][jj] == tr);
                        }
                    }
                }
                j += 1;
            }
            proof {
                assert forall|kk: int, t: int|
                    0 <= kk < i + 1 && #[trigger] has_eps_edge(m, result@[kk] as int, t)
                        implies set_of(result@).contains(t) by {
                    if kk == i {
                        let jj = choose|jj: int|
                            0 <= jj < m[s as int].len() && (#[trigger] m[s as int][jj]).condition
                                is None && m[s as int][jj].target_state == t;
                        assert(set_of(result@).contains(m[s as int][jj].target_state as int));
                    }
                }
            }
            i += 1;
        }
        proof {
            let c = set_of(result@);
            assert(eps_closed(m, c)) by {
                assert forall|s2: int, t: int|
                    c.contains(s2) && 0 <= s2 < m.len() && #[trigger] has_eps_edge(m, s2, t)
                        implies c.contains(t) by {
                    let kk = choose|kk: int| 0 <= kk < result@.len() && result@[kk] == s2;
                    assert(has_eps_edge(m, result@[kk] as int, t));
                }
            }
            lemma_closure_in_closed(m, base, c);
            assert forall|t: int| c.contains(t) implies eps_closure(m, base).contains(t) by {
                let kk = choose|kk: int| 0 <= kk < result@.len() && result@[kk] == t;
                assert(eps_closure(m, base).contains(result@[kk] as int));
            }
            assert(c =~= eps_closure(m, base));
        }
    }

    /// Computes into `result` the epsilon closure of `state` joined with
    /// whatever `result` already held.
    pub fn epsilon_closure_at(&self, state: usize, result: &mut Vec<usize>)
        requires
            self.wf(),
            (state as int) < self.state_transitions@.len(),
            old(result)@.no_duplicates(),
            forall|k: int|
                0 <= k < old(result)@.len() ==> (#[trigger] old(result)@[k])
                    < self.state_transitions@.len(),
        ensures
            final(result)@.no_duplicates(),
            forall|k: int|
                0 <= k < final(result)@.len() ==> (#[trigger] final(result)@[k])
                    < self.state_transitions@.len(),
            set_of(final(result)@) == eps_closure(
                self.model(),
                set_of(old(result)@).insert(state as int),
            ),
    {
        let mut seeds: Vec<usize> = Vec::new();
        seeds.push(state);
        self.epsilon_closure_at_set(&seeds, result);
        proof {
            assert(seeds@[0] == state);
            assert(set_of(old(result)@).union(set_of(seeds@)) =~= set_of(old(result)@).insert(
                state as int,
            )) by {
                assert forall|t: int| set_of(seeds@).contains(t) implies t == state as int by {
                    let kk = choose|kk: int| 0 <= kk < seeds@.len() && seeds@[kk] == t;
                }
                assert(set_of(seeds@).contains(state as int));
            }
        }
    }

    /// Adds to `alphabet` every distinct symbol labeling an edge out of
    /// `state`.
    pub fn used_alphabet_at(&self, state: usize, alphabet: &mut Vec<char>)
        requires
            self.wf(),
            (state as int) < self.state_transitions@.len(),
            old(alphabet)@.no_duplicates(),
        ensures
            final(alphabet)@.no_duplicates(),
            forall|c: char|
                #[trigger] final(alphabet)@.contains(c) <==> (old(alphabet)@.contains(c)
                    || uses_symbol(self.model(), state as int, c)),
    {
        let ghost m = self.model();
        let mut j: usize = 0;
        while j < self.state_transitions[state].transitions.len()
            invariant
                self.wf(),
                (state as int) < self.state_transitions@.len(),
                m == self.model(),
                0 <= j <= m[state as int].len(),
                alphabet@.no_duplicates(),
                forall|c: char|
                    #[trigger] alphabet@.contains(c) <==> (old(alphabet)@.contains(c)
                        || uses_symbol_upto(m, state as int, c, j as int)),
            decreases m[state as int].len() - j,
        {
            let ghost pre = alphabet@;
            let tr = self.state_transitions[state].transitions[j];
            proof {
                assert(m[state as int][j as int] == tr);
            }
            match tr.condition {
                Some(c) => {
                    if !contains_char(alphabet, c) {
                        alphabet.push(c);
                    }
                    proof {
                        assert(alphabet@.contains(c)) by {
                            if alphabet@ != pre {
                                assert(alphabet@[alphabet@.len() - 1] == c);
                            }
                        }
                    }
                },
                None => {},
            }
            proof {
                assert forall|c: char| #[trigger]
                    alphabet@.contains(c) implies (old(alphabet)@.contains(c) || uses_symbol_upto(
                    m,
                    state as int,
                    c,
                    j as int + 1,
                )) by {
                    let k = choose|k: int| 0 <= k < alphabet@.len() && alphabet@[k] == c;
                    if k < pre.len() {
                        assert(pre[k] == c);
                        assert(pre.contains(c));
                        if uses_symbol_upto(m, state as int, c, j as int) {
                            let jj = choose|jj: int|
                                0 <= jj < j as int && (#[trigger] m[state as int][jj]).condition
                                    == Some(c);
                            assert(uses_symbol_upto(m, state as int, c, j as int + 1));
                        }
                    } else {
                        assert(m[state as int][j as int].condition == Some(c));
                        assert(uses_symbol_upto(m, state as int, c, j as int + 1));
                    }
                }
                assert forall|c: char|
                    (old(alphabet)@.contains(c) || uses_symbol_upto(
                        m,
                        state as int,
                        c,
                        j as int + 1,
                    )) implies #[trigger] alphabet@.contains(c) by {
                    if old(alphabet)@.contains(c) || uses_symbol_upto(m, state as int, c, j as int) {
                        assert(pre.contains(c));
                        let k = choose|k: int| 0 <= k < pre.len() && pre[k] == c;
                        assert(alphabet@[k] == c);
                    } else {
                        let jj = choose|jj: int|
                            0 <= jj < j as int + 1 && (#[trigger] m[state as int][jj]).condition
                                == Some(c);
                        assert(jj == j as int);
                        assert(tr.condition == Some(c));
                    }
                }
            }
            j += 1;
        }
        proof {
            assert forall|c: char| #[trigger]
                final(alphabet)@.contains(c) <==> (old(alphabet)@.contains(c) || uses_symbol(
                m,
                state as int,
                c,
            )) by {
                if uses_symbol(m, state as int, c) {
                    let jj = choose|jj: int|
                        0 <= jj < m[state as int].len() && (#[trigger] m[state as int][jj]).condition
                            == Some(c);
                    assert(uses_symbol_upto(m, state as int, c, j as int));
                }
                if uses_symbol_upto(m, state as int, c, j as int) {
                    let jj = choose|jj: int|
                        0 <= jj < j as int && (#[trigger] m[state as int][jj]).condition == Some(c);
                    assert(uses_symbol(m, state as int, c));
                }
            }
        }
    }
}

} // verus!
