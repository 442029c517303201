//! Subset construction: turning an NFA into an equivalent DFA.
//!
//! A DFA state stands for a set of NFA states, kept canonically as a
//! strictly increasing vector of indices. The construction discovers these
//! subsets with a work list; it terminates because a transition table of
//! `n` states admits at most `pow2(n)` distinct subsets, which the mask
//! lemmas below establish.

use vstd::prelude::*;
use vstd::arithmetic::power2::lemma_pow2_pos;
use vstd::arithmetic::power2::lemma_pow2_strictly_increases;
use vstd::arithmetic::power2::lemma_pow2_unfold;
use vstd::arithmetic::power2::pow2;
use vstd::seq_lib::seq_to_set_is_finite;
use vstd::set_lib::lemma_int_range;
use vstd::set_lib::lemma_len_subset;
use vstd::set_lib::set_int_range;

use crate::automata::FiniteAutomata;
use crate::automata::StateTransition;
use crate::automata::has_sym_edge;
use crate::automata::uses_symbol;
use crate::automata::wf_bound;
use crate::closure::contains_state;
use crate::closure::eps_closure;
use crate::closure::move_set;
use crate::closure::set_of;
use crate::closure::set_uses_symbol;

verus! {

/// No edge of `m` is an epsilon move.
pub open spec fn no_epsilon(m: Seq<Seq<StateTransition>>) -> bool {
    forall|i: int, j: int|
        0 <= i < m.len() && 0 <= j < m[i].len() ==> (#[trigger] m[i][j]).condition is Some
}

/// No state of `m` has two edges with the same label.
pub open spec fn deterministic(m: Seq<Seq<StateTransition>>) -> bool {
    forall|i: int, j1: int, j2: int|
        0 <= i < m.len() && 0 <= j1 < j2 < m[i].len() ==> (#[trigger] m[i][j1]).condition != (
        #[trigger] m[i][j2]).condition
}

/// The indices of `s` grow strictly from left to right.
pub open spec fn strictly_increasing(s: Seq<usize>) -> bool {
    forall|a: int, b: int| 0 <= a < b < s.len() ==> s[a] < s[b]
}

/// Some state listed in `row` is in the accepting list `acc`.
pub open spec fn row_accepting(acc: Seq<usize>, row: Seq<usize>) -> bool {
    exists|j: int| 0 <= j < row.len() && acc.contains(#[trigger] row[j])
}

/// The same, restricted to the first `k` entries of `row`.
pub open spec fn row_accepting_upto(acc: Seq<usize>, row: Seq<usize>, k: int) -> bool {
    exists|j: int| 0 <= j < k && acc.contains(#[trigger] row[j])
}

/// Some state of the set `s` is in the accepting list `acc`.
pub open spec fn subset_accepting(acc: Seq<usize>, s: Set<int>) -> bool {
    exists|j: int| 0 <= j < acc.len() && s.contains(#[trigger] acc[j] as int)
}

/// The sequences of state indices that a table of subsets holds.
pub open spec fn rows_of(table: Seq<Vec<usize>>) -> Seq<Seq<usize>> {
    table.map_values(|v: Vec<usize>| v@)
}

/// `tbl` exhibits `dfa` as the subset construction of `nfa`: DFA state `d`
/// stands for the set of NFA states listed in row `d` of `tbl`. Row 0 is
/// the epsilon closure of the NFA start state; a DFA state accepts exactly
/// when its row meets the NFA accepting set; the edge labeled `c` leads to
/// the row holding the epsilon closure of the move set on `c`; and every
/// symbol usable from a row has such an edge.
pub open spec fn subset_table_for(
    nfa: FiniteAutomata,
    dfa: FiniteAutomata,
    tbl: Seq<Seq<usize>>,
) -> bool {
    &&& tbl.len() == dfa.state_transitions@.len()
    &&& tbl.len() >= 1
    &&& set_of(tbl[0]) == eps_closure(nfa.model(), Set::empty().insert(0))
    &&& forall|d: usize|
        (d as int) < tbl.len() ==> (#[trigger] dfa.accepting_states@.contains(d)
            <==> subset_accepting(nfa.accepting_states@, set_of(tbl[d as int])))
    &&& forall|d: int, jj: int|
        0 <= d < dfa.model().len() && 0 <= jj < dfa.model()[d].len() ==> (
        (#[trigger] dfa.model()[d][jj]).condition is Some
            && (dfa.model()[d][jj].target_state as int) < tbl.len() && set_of(
            tbl[dfa.model()[d][jj].target_state as int],
        ) == eps_closure(
            nfa.model(),
            move_set(nfa.model(), set_of(tbl[d]), dfa.model()[d][jj].condition->Some_0),
        ))
    &&& forall|d: int, c: char|
        0 <= d < tbl.len() && #[trigger] set_uses_symbol(nfa.model(), set_of(tbl[d]), c)
            ==> exists|jj: int|
            0 <= jj < dfa.model()[d].len() && (#[trigger] dfa.model()[d][jj]).condition == Some(c)
}

proof fn lemma_row_accepting_iff_set(acc: Seq<usize>, row: Seq<usize>)
    ensures
        row_accepting(acc, row) <==> subset_accepting(acc, set_of(row)),
{
    if row_accepting(acc, row) {
        let j = choose|j: int| 0 <= j < row.len() && acc.contains(#[trigger] row[j]);
        let k = choose|k: int| 0 <= k < acc.len() && acc[k] == row[j];
        assert(set_of(row).contains(acc[k] as int));
    }
    if subset_accepting(acc, set_of(row)) {
        let k = choose|k: int| 0 <= k < acc.len() && set_of(row).contains(#[trigger] acc[k] as int);
        let j = choose|j: int| 0 <= j < row.len() && row[j] == acc[k] as int;
        assert(acc.contains(row[j]));
    }
}

/// The characteristic number of a subset: the sum of `pow2` over its
/// members. Distinct strictly increasing rows get distinct masks, which
/// bounds how many such rows a table can hold.
spec fn mask_of(s: Seq<usize>) -> nat
    decreases s.len(),
{
    if s.len() == 0 {
        0
    } else {
        mask_of(s.drop_last()) + pow2(s.last() as nat)
    }
}

proof fn lemma_mask_bounds(s: Seq<usize>)
    requires
        strictly_increasing(s),
        s.len() > 0,
    ensures
        pow2(s.last() as nat) <= mask_of(s) < pow2((s.last() + 1) as nat),
    decreases s.len(),
{
    lemma_pow2_pos(s.last() as nat);
    lemma_pow2_unfold((s.last() + 1) as nat);
    assert(pow2((s.last() + 1) as nat) == 2 * pow2(s.last() as nat));
    assert(mask_of(s) == mask_of(s.drop_last()) + pow2(s.last() as nat));
    if s.len() == 1 {
        assert(s.drop_last().len() == 0);
        assert(mask_of(s.drop_last()) == 0);
    } else {
        let q = s.drop_last();
        assert(strictly_increasing(q)) by {
            assert forall|a: int, b: int| 0 <= a < b < q.len() implies q[a] < q[b] by {
                assert(q[a] == s[a] && q[b] == s[b]);
            }
        }
        lemma_mask_bounds(q);
        assert(q.last() == s[s.len() - 2]);
        assert(q.last() < s.last());
        if ((q.last() + 1) as nat) < (s.last() as nat) {
            lemma_pow2_strictly_increases((q.last() + 1) as nat, s.last() as nat);
        }
        assert(pow2((q.last() + 1) as nat) <= pow2(s.last() as nat));
        assert(mask_of(s) < 2 * pow2(s.last() as nat));
    }
}

proof fn lemma_mask_injective(s: Seq<usize>, t: Seq<usize>)
    requires
        strictly_increasing(s),
        strictly_increasing(t),
        s != t,
    ensures
        mask_of(s) != mask_of(t),
    decreases s.len() + t.len(),
{
    if s.len() == 0 && t.len() == 0 {
        assert(s =~= t);
    } else if s.len() == 0 {
        lemma_mask_bounds(t);
        lemma_pow2_pos(t.last() as nat);
    } else if t.len() == 0 {
        lemma_mask_bounds(s);
        lemma_pow2_pos(s.last() as nat);
    } else if s.last() < t.last() {
        lemma_mask_bounds(s);
        lemma_mask_bounds(t);
        if ((s.last() + 1) as nat) < (t.last() as nat) {
            lemma_pow2_strictly_increases((s.last() + 1) as nat, t.last() as nat);
        }
    } else if t.last() < s.last() {
        lemma_mask_bounds(s);
        lemma_mask_bounds(t);
        if ((t.last() + 1) as nat) < (s.last() as nat) {
            lemma_pow2_strictly_increases((t.last() + 1) as nat, s.last() as nat);
        }
    } else {
        let s2 = s.drop_last();
        let t2 = t.drop_last();
        assert(s2.push(s.last()) =~= s);
        assert(t2.push(t.last()) =~= t);
        assert(s2 != t2);
        assert(strictly_increasing(s2)) by {
            assert forall|a: int, b: int| 0 <= a < b < s2.len() implies s2[a] < s2[b] by {
                assert(s2[a] == s[a] && s2[b] == s[b]);
            }
        }
        assert(strictly_increasing(t2)) by {
            assert forall|a: int, b: int| 0 <= a < b < t2.len() implies t2[a] < t2[b] by {
                assert(t2[a] == t[a] && t2[b] == t[b]);
            }
        }
        lemma_mask_injective(s2, t2);
    }
}

proof fn lemma_bounded_nodup_len_int(s: Seq<int>, n: int)
    requires
        n >= 0,
        s.no_duplicates(),
        forall|k: int| 0 <= k < s.len() ==> 0 <= #[trigger] s[k] < n,
    ensures
        s.len() <= n,
{
    s.unique_seq_to_set();
    assert forall|x: int| s.to_set().contains(x) implies set_int_range(0, n).contains(x) by {
        let k = choose|k: int| 0 <= k < s.len() && s[k] == x;
    }
    broadcast use seq_to_set_is_finite;

    lemma_int_range(0, n);
    lemma_len_subset(s.to_set(), set_int_range(0, n));
}

/// A table of pairwise distinct, strictly increasing rows over states below
/// `n` holds at most `pow2(n)` rows.
proof fn lemma_table_bound(rows: Seq<Seq<usize>>, n: nat)
    requires
        forall|k: int| 0 <= k < rows.len() ==> strictly_increasing(#[trigger] rows[k]),
        forall|k: int, j: int|
            0 <= k < rows.len() && 0 <= j < rows[k].len() ==> (#[trigger] rows[k][j]) < n,
        forall|k1: int, k2: int| 0 <= k1 < k2 < rows.len() ==> rows[k1] != rows[k2],
    ensures
        rows.len() <= pow2(n),
{
    let masks = rows.map_values(|row: Seq<usize>| mask_of(row) as int);
    assert forall|k: int| 0 <= k < masks.len() implies 0 <= #[trigger] masks[k] < pow2(n) by {
        lemma_pow2_pos(n);
        if rows[k].len() > 0 {
            lemma_mask_bounds(rows[k]);
            assert(rows[k][rows[k].len() - 1] < n);
            if ((rows[k].last() + 1) as nat) < n {
                lemma_pow2_strictly_increases((rows[k].last() + 1) as nat, n);
            }
        }
    }
    assert(masks.no_duplicates()) by {
        assert forall|k1: int, k2: int|
            0 <= k1 < masks.len() && 0 <= k2 < masks.len() && k1 != k2 implies masks[k1]
            != masks[k2] by {
            if k1 < k2 {
                lemma_mask_injective(rows[k1], rows[k2]);
            } else {
                lemma_mask_injective(rows[k2], rows[k1]);
            }
        }
    }
    lemma_bounded_nodup_len_int(masks, pow2(n) as int);
}

/// A copy of a vector of state indices.
fn copy_states(v: &Vec<usize>) -> (r: Vec<usize>)
    ensures
        r@ == v@,
{
    let mut r: Vec<usize> = Vec::new();
    let mut k: usize = 0;
    while k < v.len()
        invariant
            0 <= k <= v@.len(),
            r@ == v@.subrange(0, k as int),
        decreases v@.len() - k,
    {
        r.push(v[k]);
        proof {
            assert(r@ =~= v@.subrange(0, k as int + 1));
        }
        k += 1;
    }
    proof {
        assert(r@ =~= v@);
    }
    r
}

/// Whether two vectors of state indices are equal element for element.
fn vecs_equal(a: &Vec<usize>, b: &Vec<usize>) -> (eq: bool)
    ensures
        eq <==> a@ == b@,
{
    if a.len() != b.len() {
        return false;
    }
    let mut k: usize = 0;
    while k < a.len()
        invariant
            a@.len() == b@.len(),
            0 <= k <= a@.len(),
            forall|i: int| 0 <= i < k ==> a@[i] == b@[i],
        decreases a@.len() - k,
    {
        if a[k] != b[k] {
            return false;
        }
        k += 1;
    }
    proof {
        assert(a@ =~= b@);
    }
    true
}

/// Looks a canonical subset up in the table of already seen subsets.
fn find_subset(table: &Vec<Vec<usize>>, t: &Vec<usize>) -> (r: Option<usize>)
    ensures
        (r matches Some(ix) ==> ix < table@.len() && table@[ix as int]@ == t@),
        (r is None ==> forall|k: int| 0 <= k < table@.len() ==> table@[k]@ != t@),
{
    let mut k: usize = 0;
    while k < table.len()
        invariant
            0 <= k <= table@.len(),
            forall|i: int| 0 <= i < k ==> table@[i]@ != t@,
        decreases table@.len() - k,
    {
        if vecs_equal(&table[k], t) {
            return Some(k);
        }
        k += 1;
    }
    None
}

/// The canonical form of a set of state indices below `n`: the strictly
/// increasing vector holding exactly the members of `v`.
fn sort_states(n: usize, v: &Vec<usize>) -> (r: Vec<usize>)
    requires
        forall|k: int| 0 <= k < v@.len() ==> (#[trigger] v@[k]) < n,
    ensures
        strictly_increasing(r@),
        r@.no_duplicates(),
        forall|k: int| 0 <= k < r@.len() ==> (#[trigger] r@[k]) < n,
        forall|t: usize| #[trigger] r@.contains(t) <==> v@.contains(t),
        set_of(r@) == set_of(v@),
{
    let mut r: Vec<usize> = Vec::new();
    let mut s: usize = 0;
    while s < n
        invariant
            0 <= s <= n,
            strictly_increasing(r@),
            forall|k: int| 0 <= k < r@.len() ==> (#[trigger] r@[k]) < s,
            forall|t: usize| #[trigger] r@.contains(t) <==> ((t as int) < s && v@.contains(t)),
        decreases n - s,
    {
        let ghost pre = r@;
        if contains_state(v, s) {
            r.push(s);
        }
        proof {
            assert(strictly_increasing(r@)) by {
                assert forall|a: int, b: int| 0 <= a < b < r@.len() implies r@[a] < r@[b] by {
                    if b < pre.len() {
                        assert(r@[a] == pre[a] && r@[b] == pre[b]);
                    } else if r@ != pre {
                        assert(r@[b] == s);
                        assert(r@[a] == pre[a]);
                    }
                }
            }
            assert forall|t: usize| #[trigger]
                r@.contains(t) implies ((t as int) < s + 1 && v@.contains(t)) by {
                let k = choose|k: int| 0 <= k < r@.len() && r@[k] == t;
                if k < pre.len() {
                    assert(pre[k] == t);
                    assert(pre.contains(t));
                } else {
                    assert(t == s);
                }
            }
            assert forall|t: usize| ((t as int) < s + 1 && v@.contains(t)) implies #[trigger]
                r@.contains(t) by {
                if (t as int) < s {
                    assert(pre.contains(t));
                    let k = choose|k: int| 0 <= k < pre.len() && pre[k] == t;
                    assert(r@[k] == t);
                } else {
                    assert(t == s);
                    assert(r@[r@.len() - 1] == s);
                }
            }
        }
        s += 1;
    }
    proof {
        assert forall|a: int, b: int|
            0 <= a < r@.len() && 0 <= b < r@.len() && a != b implies r@[a] != r@[b] by {
            if a < b {
                assert(r@[a] < r@[b]);
            } else {
                assert(r@[b] < r@[a]);
            }
        }
        assert forall|t: usize| #[trigger] r@.contains(t) <==> v@.contains(t) by {
            if v@.contains(t) {
                let k = choose|k: int| 0 <= k < v@.len() && v@[k] == t;
                assert(v@[k] < n);
            }
        }
        assert(set_of(r@) =~= set_of(v@)) by {
            assert forall|t: int| set_of(r@).contains(t) implies set_of(v@).contains(t) by {
                let k = choose|k: int| 0 <= k < r@.len() && r@[k] == t;
                assert(r@.contains(r@[k]));
                assert(v@.contains(r@[k]));
                let k2 = choose|k2: int| 0 <= k2 < v@.len() && v@[k2] == r@[k];
            }
            assert forall|t: int| set_of(v@).contains(t) implies set_of(r@).contains(t) by {
                let k = choose|k: int| 0 <= k < v@.len() && v@[k] == t;
                assert(v@.contains(v@[k]));
                assert(r@.contains(v@[k]));
                let k2 = choose|k2: int| 0 <= k2 < r@.len() && r@[k2] == v@[k];
            }
        }
    }
    r
}

impl FiniteAutomata {
    /// Converts an NFA into a DFA by subset construction.
    ///
    /// The result is well formed, has at least one state, carries no
    /// epsilon transition and at most one transition per state and symbol,
    /// and some subset table exhibits it as the subset construction of this
    /// NFA (see `subset_table_for`), which pins its behavior up to state
    /// numbering; the language laws in the `language` module build on that.
    /// The work list terminates because at most `pow2(n)` distinct subsets
    /// of `n` states exist.
    #[verifier::loop_isolation(false)]
    #[verifier::rlimit(100)]
    pub fn nfa_to_dfa(&self) -> (dfa: FiniteAutomata)
        requires
            self.wf(),
            self.state_transitions@.len() >= 1,
        ensures
            dfa.wf(),
            dfa.state_transitions@.len() >= 1,
            no_epsilon(dfa.model()),
            deterministic(dfa.model()),
            dfa.accepting_states@.contains(0) <==> subset_accepting(
                self.accepting_states@,
                eps_closure(self.model(), Set::empty().insert(0)),
            ),
            exists|tbl: Seq<Seq<usize>>| subset_table_for(*self, dfa, tbl),
    {
        let ghost m = self.model();
        let n = self.state_transitions.len();
        let mut start_raw: Vec<usize> = Vec::new();
        self.epsilon_closure_at(0, &mut start_raw);
        let start = sort_states(n, &start_raw);
        let mut table: Vec<Vec<usize>> = Vec::new();
        table.push(start);
        let mut dfa = FiniteAutomata::new_empty();
        Self::push_state(&mut dfa.state_transitions);
        proof {
            lemma_pow2_pos(n as nat);
            assert(set_of(Seq::<usize>::empty()) =~= Set::<int>::empty()) by {
                assert forall|t: int| !set_of(Seq::<usize>::empty()).contains(t) by {}
            }
            assert(set_of(table@[0]@) == eps_closure(m, Set::empty().insert(0)));
            assert(dfa.model().len() == 1 && dfa.model()[0].len() == 0);
        }
        let mut i: usize = 0;
        while i < table.len()
            invariant
                0 <= i <= table@.len(),
                table@.len() == dfa.state_transitions@.len(),
                1 <= table@.len() <= pow2(n as nat),
                forall|k: int| 0 <= k < table@.len() ==> strictly_increasing(#[trigger] table@[k]@),
                forall|k: int, j: int|
                    0 <= k < table@.len() && 0 <= j < table@[k]@.len() ==> (#[trigger] table@[k]@[j])
                        < n,
                forall|k1: int, k2: int| 0 <= k1 < k2 < table@.len() ==> table@[k1]@ != table@[k2]@,
                set_of(table@[0]@) == eps_closure(m, Set::empty().insert(0)),
                wf_bound(dfa.model(), table@.len() as int),
                no_epsilon(dfa.model()),
                deterministic(dfa.model()),
                forall|k: int|
                    i <= k < dfa.state_transitions@.len() ==> (#[trigger] dfa.model()[k]).len()
                        == 0,
                forall|k: int|
                    0 <= k < dfa.accepting_states@.len() ==> (#[trigger] dfa.accepting_states@[k])
                        < i,
                forall|d: usize|
                    (d as int) < i ==> (#[trigger] dfa.accepting_states@.contains(d)
                        <==> subset_accepting(self.accepting_states@, set_of(table@[d as int]@))),
                forall|d: int, jj: int|
                    0 <= d < i && 0 <= jj < dfa.model()[d].len() ==> set_of(
                        table@[(#[trigger] dfa.model()[d][jj]).target_state as int]@,
                    ) == eps_closure(
                        m,
                        move_set(m, set_of(table@[d]@), dfa.model()[d][jj].condition->Some_0),
                    ),
                forall|d: int, c: char|
                    0 <= d < i && #[trigger] set_uses_symbol(m, set_of(table@[d]@), c)
                        ==> exists|jj: int|
                        0 <= jj < dfa.model()[d].len() && (#[trigger] dfa.model()[d][jj]).condition
                            == Some(c),
            decreases pow2(n as nat) - table@.len(), table@.len() - i,
        {
            let s_row = copy_states(&table[i]);
            let mut is_acc = false;
            let mut k: usize = 0;
            while k < s_row.len()
                invariant
                    0 <= k <= s_row@.len(),
                    is_acc <==> row_accepting_upto(self.accepting_states@, s_row@, k as int),
                decreases s_row@.len() - k,
            {
                let hit = contains_state(&self.accepting_states, s_row[k]);
                if hit {
                    is_acc = true;
                }
                proof {
                    if hit {
                        assert(self.accepting_states@.contains(s_row@[k as int]));
                        assert(row_accepting_upto(self.accepting_states@, s_row@, k as int + 1));
                    } else {
                        assert(row_accepting_upto(self.accepting_states@, s_row@, k as int + 1)
                            == row_accepting_upto(self.accepting_states@, s_row@, k as int)) by {
                            if row_accepting_upto(self.accepting_states@, s_row@, k as int + 1) {
                                let j = choose|j: int|
                                    0 <= j < k as int + 1 && self.accepting_states@.contains(
                                        #[trigger] s_row@[j],
                                    );
                                assert(j < k as int);
                                assert(row_accepting_upto(
                                    self.accepting_states@,
                                    s_row@,
                                    k as int,
                                ));
                            }
                            if row_accepting_upto(self.accepting_states@, s_row@, k as int) {
                                let j = choose|j: int|
                                    0 <= j < k as int && self.accepting_states@.contains(
                                        #[trigger] s_row@[j],
                                    );
                                assert(row_accepting_upto(
                                    self.accepting_states@,
                                    s_row@,
                                    k as int + 1,
                                ));
                            }
                        }
                    }
                }
                k += 1;
            }
            proof {
                assert(is_acc <==> row_accepting(self.accepting_states@, s_row@)) by {
                    if row_accepting(self.accepting_states@, s_row@) {
                        let j = choose|j: int|
                            0 <= j < s_row@.len() && self.accepting_states@.contains(
                                #[trigger] s_row@[j],
                            );
                        assert(row_accepting_upto(
                            self.accepting_states@,
                            s_row@,
                            s_row@.len() as int,
                        ));
                    }
                    if row_accepting_upto(self.accepting_states@, s_row@, s_row@.len() as int) {
                        let j = choose|j: int|
                            0 <= j < s_row@.len() && self.accepting_states@.contains(
                                #[trigger] s_row@[j],
                            );
                        assert(row_accepting(self.accepting_states@, s_row@));
                    }
                }
            }
            let ghost acc_pre = dfa.accepting_states@;
            if is_acc {
                dfa.accepting_states.push(i);
            }
            proof {
                assert forall|d: usize| (d as int) < i implies (#[trigger] dfa.accepting_states@
                    .contains(d) <==> acc_pre.contains(d)) by {
                    if acc_pre.contains(d) {
                        let kk = choose|kk: int| 0 <= kk < acc_pre.len() && acc_pre[kk] == d;
                        assert(dfa.accepting_states@[kk] == d);
                    }
                    if dfa.accepting_states@.contains(d) {
                        let kk = choose|kk: int|
                            0 <= kk < dfa.accepting_states@.len() && dfa.accepting_states@[kk]
                                == d;
                        if kk < acc_pre.len() {
                            assert(acc_pre[kk] == d);
                        }
                    }
                }
                assert(dfa.accepting_states@.contains(i) <==> is_acc) by {
                    if is_acc {
                        assert(dfa.accepting_states@[dfa.accepting_states@.len() - 1] == i);
                    } else {
                        if dfa.accepting_states@.contains(i) {
                            let kk = choose|kk: int|
                                0 <= kk < dfa.accepting_states@.len() && dfa.accepting_states@[kk]
                                    == i;
                            assert(acc_pre[kk] == i);
                        }
                    }
                }
            }
            let ghost acc_snap = dfa.accepting_states@;
            let ghost table_snap = table@;
            let mut alphabet: Vec<char> = Vec::new();
            let mut k2: usize = 0;
            while k2 < s_row.len()
                invariant
                    0 <= k2 <= s_row@.len(),
                    alphabet@.no_duplicates(),
                    forall|c: char|
                        #[trigger] alphabet@.contains(c) <==> exists|kk: int|
                            0 <= kk < k2 && uses_symbol(m, #[trigger] s_row@[kk] as int, c),
                decreases s_row@.len() - k2,
            {
                self.used_alphabet_at(s_row[k2], &mut alphabet);
                k2 += 1;
            }
            proof {
                assert forall|c: char| #[trigger]
                    alphabet@.contains(c) <==> set_uses_symbol(m, set_of(s_row@), c) by {
                    if alphabet@.contains(c) {
                        let kk = choose|kk: int|
                            0 <= kk < s_row@.len() && uses_symbol(
                                m,
                                #[trigger] s_row@[kk] as int,
                                c,
                            );
                        assert(set_of(s_row@).contains(s_row@[kk] as int));
                        assert(set_uses_symbol(m, set_of(s_row@), c));
                    }
                    if set_uses_symbol(m, set_of(s_row@), c) {
                        let f = choose|f: int|
                            #[trigger] set_of(s_row@).contains(f) && uses_symbol(m, f, c);
                        let kk = choose|kk: int| 0 <= kk < s_row@.len() && s_row@[kk] == f;
                        assert(uses_symbol(m, s_row@[kk] as int, c));
                    }
                }
            }
            let mut a: usize = 0;
            while a < alphabet.len()
                invariant
                    0 <= a <= alphabet@.len(),
                    table@.len() == dfa.state_transitions@.len(),
                    1 <= table@.len() <= pow2(n as nat),
                    i < table@.len(),
                    forall|k3: int|
                        0 <= k3 < table@.len() ==> strictly_increasing(#[trigger] table@[k3]@),
                    forall|k3: int, j: int|
                        0 <= k3 < table@.len() && 0 <= j < table@[k3]@.len() ==> (
                        #[trigger] table@[k3]@[j]) < n,
                    forall|k1: int, k2x: int|
                        0 <= k1 < k2x < table@.len() ==> table@[k1]@ != table@[k2x]@,
                    set_of(table@[0]@) == eps_closure(m, Set::empty().insert(0)),
                    wf_bound(dfa.model(), table@.len() as int),
                    no_epsilon(dfa.model()),
                    deterministic(dfa.model()),
                    forall|k3: int|
                        i < k3 < dfa.state_transitions@.len() ==> (#[trigger] dfa.model()[k3]).len()
                            == 0,
                    dfa.model()[i as int].len() == a,
                    forall|jj: int|
                        0 <= jj < a ==> (#[trigger] dfa.model()[i as int][jj]).condition == Some(
                            alphabet@[jj],
                        ),
                    dfa.accepting_states@ == acc_snap,
                    table_snap.len() <= table@.len(),
                    forall|k3: int| 0 <= k3 < table_snap.len() ==> table@[k3] == table_snap[k3],
                    table@[i as int]@ == s_row@,
                    forall|jj: int|
                        0 <= jj < a ==> set_of(
                            table@[(#[trigger] dfa.model()[i as int][jj]).target_state as int]@,
                        ) == eps_closure(m, move_set(m, set_of(s_row@), alphabet@[jj])),
                    forall|d: int, jj: int|
                        0 <= d < i && 0 <= jj < dfa.model()[d].len() ==> set_of(
                            table@[(#[trigger] dfa.model()[d][jj]).target_state as int]@,
                        ) == eps_closure(
                            m,
                            move_set(m, set_of(table@[d]@), dfa.model()[d][jj].condition->Some_0),
                        ),
                    forall|d: int, c2: char|
                        0 <= d < i && #[trigger] set_uses_symbol(m, set_of(table@[d]@), c2)
                            ==> exists|jj: int|
                            0 <= jj < dfa.model()[d].len() && (#[trigger] dfa.model()[d][jj]).condition
                                == Some(c2),
                decreases alphabet@.len() - a,
            {
                let ghost model_start = dfa.model();
                let ghost table_start = table@;
                let c = alphabet[a];
                let mut moved: Vec<usize> = Vec::new();
                self.move_at_set(&s_row, c, &mut moved);
                let mut closed_vec: Vec<usize> = Vec::new();
                self.epsilon_closure_at_set(&moved, &mut closed_vec);
                let t_sorted = sort_states(n, &closed_vec);
                let ghost table_pre = table@;
                let ghost model_pre = dfa.model();
                let found = find_subset(&table, &t_sorted);
                let j_target: usize = match found {
                    Some(ix) => ix,
                    None => {
                        let ix = table.len();
                        table.push(t_sorted);
                        Self::push_state(&mut dfa.state_transitions);
                        proof {
                            assert forall|k3: int|
                                0 <= k3 < table@.len() implies strictly_increasing(
                                #[trigger] table@[k3]@,
                            ) by {
                                if k3 < table_pre.len() {
                                    assert(table@[k3] == table_pre[k3]);
                                }
                            }
                            assert forall|k1: int, k2x: int|
                                0 <= k1 < k2x < table@.len() implies table@[k1]@
                                != table@[k2x]@ by {
                                if k2x < table_pre.len() {
                                    assert(table@[k1] == table_pre[k1]
                                        && table@[k2x] == table_pre[k2x]);
                                } else {
                                    assert(table@[k1] == table_pre[k1]
                                        && table@[k2x]@ == t_sorted@);
                                }
                            }
                            lemma_table_bound(
                                table@.map_values(|v: Vec<usize>| v@),
                                n as nat,
                            );
                            assert(table@.map_values(|v: Vec<usize>| v@).len() == table@.len());
                            assert forall|k3: int|
                                0 <= k3 < dfa.model().len() implies #[trigger] dfa.model()[k3]
                                == model_pre.push(Seq::<StateTransition>::empty())[k3] by {}
                        }
                        ix
                    },
                };
                proof {
                    assert(j_target < table@.len());
                    assert(set_of(moved@) =~= move_set(m, set_of(s_row@), c)) by {
                        assert forall|t: int|
                            set_of(moved@).contains(t) implies move_set(
                            m,
                            set_of(s_row@),
                            c,
                        ).contains(t) by {
                            let kk = choose|kk: int| 0 <= kk < moved@.len() && moved@[kk] == t;
                            assert(moved@.contains(moved@[kk]));
                            let k4 = choose|k4: int|
                                0 <= k4 < s_row@.len() && has_sym_edge(
                                    m,
                                    #[trigger] s_row@[k4] as int,
                                    c,
                                    moved@[kk] as int,
                                );
                            assert(set_of(s_row@).contains(s_row@[k4] as int));
                        }
                        assert forall|t: int|
                            move_set(m, set_of(s_row@), c).contains(t) implies set_of(
                            moved@,
                        ).contains(t) by {
                            let f = choose|f: int|
                                #[trigger] set_of(s_row@).contains(f) && has_sym_edge(m, f, c, t);
                            let k4 = choose|k4: int| 0 <= k4 < s_row@.len() && s_row@[k4] == f;
                            let jx = choose|jx: int|
                                0 <= jx < m[f].len() && (#[trigger] m[f][jx]).condition == Some(c)
                                    && m[f][jx].target_state == t;
                            assert(has_sym_edge(m, s_row@[k4] as int, c, m[f][jx].target_state as int));
                            assert(moved@.contains(m[f][jx].target_state));
                            let kk = choose|kk: int|
                                0 <= kk < moved@.len() && moved@[kk] == m[f][jx].target_state;
                            assert(moved@[kk] as int == t);
                        }
                    }
                    assert(set_of(Seq::<usize>::empty()) =~= Set::<int>::empty());
                    assert(set_of(Seq::<usize>::empty()).union(set_of(moved@)) =~= set_of(moved@));
                    assert(set_of(closed_vec@) == eps_closure(m, move_set(m, set_of(s_row@), c)));
                    assert(set_of(t_sorted@) == eps_closure(m, move_set(m, set_of(s_row@), c)));
                    assert(table@[j_target as int]@ == t_sorted@);
                    assert forall|k3: int|
                        0 <= k3 < table_start.len() implies table@[k3] == table_start[k3] by {}
                }
                let ghost model_mid = dfa.model();
                Self::push_edge(&mut dfa.state_transitions, i, Some(c), j_target);
                proof {
                    let model_now = dfa.model();
                    assert(model_now == crate::automata::sp_add_edge(
                        model_mid,
                        i as int,
                        Some(c),
                        j_target,
                    ));
                    assert(model_now[i as int] == model_mid[i as int].push(
                        StateTransition { condition: Some(c), target_state: j_target },
                    ));
                    assert forall|k3: int|
                        0 <= k3 < model_now.len() && k3 != i implies #[trigger] model_now[k3]
                        == model_mid[k3] by {}
                    assert(no_epsilon(model_now)) by {
                        assert forall|i2: int, j2: int|
                            0 <= i2 < model_now.len() && 0 <= j2
                                < model_now[i2].len() implies (#[trigger] model_now[i2][j2]).condition
                            is Some by {
                            if i2 == i as int && j2 == model_mid[i2].len() {
                            } else if i2 == i as int {
                                assert(model_now[i2][j2] == model_mid[i2][j2]);
                            } else {
                                assert(model_now[i2][j2] == model_mid[i2][j2]);
                            }
                        }
                    }
                    assert(deterministic(model_now)) by {
                        assert forall|i2: int, j1: int, j2: int|
                            0 <= i2 < model_now.len() && 0 <= j1 < j2
                                < model_now[i2].len() implies (#[trigger] model_now[i2][j1]).condition
                            != (#[trigger] model_now[i2][j2]).condition by {
                            if i2 == i as int {
                                if j2 == model_mid[i2].len() {
                                    assert(model_now[i2][j1].condition == Some(alphabet@[j1]));
                                    assert(model_now[i2][j2].condition == Some(alphabet@[a as int]));
                                    assert(alphabet@[j1] != alphabet@[a as int]);
                                } else {
                                    assert(model_now[i2][j1] == model_mid[i2][j1]);
                                    assert(model_now[i2][j2] == model_mid[i2][j2]);
                                }
                            } else {
                                assert(model_now[i2][j1] == model_mid[i2][j1]);
                                assert(model_now[i2][j2] == model_mid[i2][j2]);
                            }
                        }
                    }
                    assert(wf_bound(model_now, table@.len() as int)) by {
                        assert forall|i2: int, j2: int|
                            0 <= i2 < model_now.len() && 0 <= j2
                                < model_now[i2].len() implies (#[trigger] model_now[i2][j2]).target_state
                            < table@.len() by {
                            if i2 == i as int && j2 == model_mid[i2].len() {
                            } else {
                                assert(model_now[i2][j2] == model_mid[i2][j2]);
                            }
                        }
                    }
                    assert forall|d: int|
                        0 <= d < model_start.len() && d != i implies model_now[d]
                        == model_start[d] by {
                        assert(model_mid[d] == model_start[d]);
                    }
                    assert(model_mid[i as int] == model_start[i as int]);
                    assert(model_now[i as int][a as int].target_state == j_target);
                    assert(model_now[i as int][a as int].condition == Some(c));
                    assert forall|jj: int|
                        0 <= jj < a + 1 implies set_of(
                        table@[(#[trigger] model_now[i as int][jj]).target_state as int]@,
                    ) == eps_closure(m, move_set(m, set_of(s_row@), alphabet@[jj])) by {
                        if jj < a {
                            assert(model_now[i as int][jj] == model_start[i as int][jj]);
                            assert((model_start[i as int][jj].target_state as int)
                                < table_start.len());
                            assert(table@[model_start[i as int][jj].target_state as int]
                                == table_start[model_start[i as int][jj].target_state as int]);
                        } else {
                            assert(model_now[i as int][jj].target_state == j_target);
                        }
                    }
                    assert forall|d: int, jj: int|
                        0 <= d < i && 0 <= jj < model_now[d].len() implies set_of(
                        table@[(#[trigger] model_now[d][jj]).target_state as int]@,
                    ) == eps_closure(
                        m,
                        move_set(m, set_of(table@[d]@), model_now[d][jj].condition->Some_0),
                    ) by {
                        assert(model_now[d] == model_start[d]);
                        assert((model_start[d][jj].target_state as int) < table_start.len());
                        assert(table@[model_start[d][jj].target_state as int]
                            == table_start[model_start[d][jj].target_state as int]);
                        assert(table@[d] == table_start[d]);
                    }
                    assert forall|d: int, c2: char|
                        0 <= d < i && #[trigger] set_uses_symbol(
                            m,
                            set_of(table@[d]@),
                            c2,
                        ) implies exists|jj: int|
                        0 <= jj < model_now[d].len() && (#[trigger] model_now[d][jj]).condition
                            == Some(c2) by {
                        assert(table@[d] == table_start[d]);
                        assert(model_now[d] == model_start[d]);
                        let jj = choose|jj: int|
                            0 <= jj < model_start[d].len() && (#[trigger] model_start[d][jj]).condition
                                == Some(c2);
                        assert(model_now[d][jj].condition == Some(c2));
                    }
                    assert(table@[i as int] == table_start[i as int]);
                }
                a += 1;
            }
            proof {
                lemma_row_accepting_iff_set(self.accepting_states@, s_row@);
                assert forall|d: usize|
                    (d as int) < i + 1 implies (#[trigger] dfa.accepting_states@.contains(d)
                        <==> subset_accepting(
                        self.accepting_states@,
                        set_of(table@[d as int]@),
                    )) by {
                    assert(dfa.accepting_states@ == acc_snap);
                    if (d as int) < i {
                        assert(table@[d as int] == table_snap[d as int]);
                        assert(acc_snap.contains(d) <==> acc_pre.contains(d));
                    } else {
                        assert(table@[i as int] == table_snap[i as int]);
                        assert(table_snap[i as int]@ == s_row@);
                        assert(dfa.accepting_states@.contains(i) <==> is_acc);
                    }
                }
                assert forall|d: int, jj: int|
                    0 <= d < i + 1 && 0 <= jj < dfa.model()[d].len() implies set_of(
                    table@[(#[trigger] dfa.model()[d][jj]).target_state as int]@,
                ) == eps_closure(
                    m,
                    move_set(m, set_of(table@[d]@), dfa.model()[d][jj].condition->Some_0),
                ) by {
                    if d == i {
                        assert(dfa.model()[d][jj].condition == Some(alphabet@[jj]));
                        assert(table@[i as int]@ == s_row@);
                    }
                }
                assert forall|d: int, c2: char|
                    0 <= d < i + 1 && #[trigger] set_uses_symbol(
                        m,
                        set_of(table@[d]@),
                        c2,
                    ) implies exists|jj: int|
                    0 <= jj < dfa.model()[d].len() && (#[trigger] dfa.model()[d][jj]).condition
                        == Some(c2) by {
                    if d == i {
                        assert(table@[i as int]@ == s_row@);
                        assert(set_uses_symbol(m, set_of(s_row@), c2));
                        assert(alphabet@.contains(c2));
                        let jj = choose|jj: int|
                            0 <= jj < alphabet@.len() && alphabet@[jj] == c2;
                        assert(dfa.model()[i as int][jj].condition == Some(alphabet@[jj]));
                    }
                }
            }
            i += 1;
        }
        proof {
            assert(dfa.wf());
            assert(dfa.accepting_states@.contains(0) <==> subset_accepting(
                self.accepting_states@,
                eps_closure(m, Set::empty().insert(0)),
            )) by {
                assert((0 as int) < i);
                assert(dfa.accepting_states@.contains(0usize) <==> subset_accepting(
                    self.accepting_states@,
                    set_of(table@[0]@),
                ));
            }
            let tblw = rows_of(table@);
            assert forall|d: int| 0 <= d < tblw.len() implies tblw[d] == table@[d]@ by {}
            assert(subset_table_for(*self, dfa, tblw)) by {
                assert(set_of(tblw[0]) == eps_closure(m, Set::empty().insert(0)));
                assert forall|d: usize|
                    (d as int) < tblw.len() implies (#[trigger] dfa.accepting_states@.contains(d)
                    <==> subset_accepting(self.accepting_states@, set_of(tblw[d as int]))) by {
                    assert(tblw[d as int] == table@[d as int]@);
                }
                assert forall|d: int, jj: int|
                    0 <= d < dfa.model().len() && 0 <= jj < dfa.model()[d].len() implies (
                (#[trigger] dfa.model()[d][jj]).condition is Some && (dfa.model()[d][jj].target_state
                    as int) < tblw.len() && set_of(tblw[dfa.model()[d][jj].target_state as int])
                    == eps_closure(
                    m,
                    move_set(m, set_of(tblw[d]), dfa.model()[d][jj].condition->Some_0),
                )) by {
                    assert(tblw[d] == table@[d]@);
                    assert(tblw[dfa.model()[d][jj].target_state as int] == table@[dfa.model()[d][jj].target_state as int]@);
                }
                assert forall|d: int, c: char|
                    0 <= d < tblw.len() && #[trigger] set_uses_symbol(
                        m,
                        set_of(tblw[d]),
                        c,
                    ) implies exists|jj: int|
                    0 <= jj < dfa.model()[d].len() && (#[trigger] dfa.model()[d][jj]).condition
                        == Some(c) by {
                    assert(tblw[d] == table@[d]@);
                    assert(set_uses_symbol(m, set_of(table@[d]@), c));
                }
            }
            assert(exists|tbl: Seq<Seq<usize>>| subset_table_for(*self, dfa, tbl));
        }
        dfa
    }
}

} // verus!
