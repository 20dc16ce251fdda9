//! Clauses and their value under total and partial assignments.

use crate::lit::Lit;
use crate::opt_bool::OptBool;
use crate::partial_assignment::PartialAssignment;
use crate::store::{
    ascending, codes, codes_clear, codes_clone, codes_dedup, codes_get, codes_len, codes_new,
    codes_push, codes_sort, without_repeats, MAX_LITS_PER_CLAUSE,
};
use stackvector::StackVec;
use vstd::prelude::*;

verus! {

/// What a clause amounts to under a partial assignment.
#[derive(Debug, Clone, Copy, PartialEq, Eq, Structural)]
pub enum ClauseState {
    /// At least one literal is true.
    Satisfied,
    /// Every literal is false.
    Unsatisfied,
    /// No literal is true and exactly one is unassigned: this one.
    Unit(Lit),
    /// No literal is true and this many, at least two, are unassigned.
    Undecided(usize),
}

/// Every literal of the clause names a variable below `num_vars`.
pub open spec fn clause_in_range(clause: Seq<Lit>, num_vars: nat) -> bool {
    forall|i: int| 0 <= i < clause.len() ==> (#[trigger] clause[i]).spec_var() < num_vars
}

/// The literal is true under the partial assignment.
pub open spec fn lit_true(state: Seq<OptBool>, lit: Lit) -> bool {
    state[lit.spec_var() as int] == OptBool::of(lit.spec_is_pos())
}

/// The literal is false under the partial assignment.
pub open spec fn lit_false(state: Seq<OptBool>, lit: Lit) -> bool {
    state[lit.spec_var() as int] == OptBool::of(!lit.spec_is_pos())
}

/// The variable of the literal has no value.
pub open spec fn lit_unassigned(state: Seq<OptBool>, lit: Lit) -> bool {
    state[lit.spec_var() as int] == OptBool::Unassigned
}

/// Some literal of the clause is true under the total assignment.
pub open spec fn clause_satisfied_by(clause: Seq<Lit>, assignment: Seq<bool>) -> bool {
    exists|i: int|
        0 <= i < clause.len() && (#[trigger] clause[i]).spec_eval_with(
            assignment[clause[i].spec_var() as int],
        )
}

/// Some literal of the clause is true under the partial assignment.
pub open spec fn clause_satisfied(state: Seq<OptBool>, clause: Seq<Lit>) -> bool {
    exists|i: int| 0 <= i < clause.len() && lit_true(state, #[trigger] clause[i])
}

/// Every literal of the clause is false under the partial assignment.
pub open spec fn clause_falsified(state: Seq<OptBool>, clause: Seq<Lit>) -> bool {
    forall|i: int| 0 <= i < clause.len() ==> lit_false(state, #[trigger] clause[i])
}

/// No literal of the clause is true and exactly one place is unassigned:
/// the clause forces the literal at that place.
pub open spec fn clause_unit(state: Seq<OptBool>, clause: Seq<Lit>) -> bool {
    exists|at: int|
        0 <= at < clause.len() && lit_unassigned(state, #[trigger] clause[at]) && forall|i: int|
            0 <= i < clause.len() && i != at ==> lit_false(state, #[trigger] clause[i])
}

/// The number of places of the clause whose literal is unassigned.
pub open spec fn unassigned_count(state: Seq<OptBool>, clause: Seq<Lit>) -> nat
    decreases clause.len(),
{
    if clause.len() == 0 {
        0
    } else {
        unassigned_count(state, clause.drop_last()) + if lit_unassigned(state, clause.last()) {
            1nat
        } else {
            0nat
        }
    }
}

/// The unassigned literal that stands last in the clause, or the invalid
/// literal where the clause has none.
pub open spec fn last_unassigned(state: Seq<OptBool>, clause: Seq<Lit>) -> Lit
    decreases clause.len(),
{
    if clause.len() == 0 {
        Lit::spec_invalid()
    } else if lit_unassigned(state, clause.last()) {
        clause.last()
    } else {
        last_unassigned(state, clause.drop_last())
    }
}

/// The state of a clause under a partial assignment.
pub open spec fn clause_state(state: Seq<OptBool>, clause: Seq<Lit>) -> ClauseState {
    let open = unassigned_count(state, clause);
    if clause_satisfied(state, clause) {
        ClauseState::Satisfied
    } else if open == 0 {
        ClauseState::Unsatisfied
    } else if open == 1 {
        ClauseState::Unit(last_unassigned(state, clause))
    } else {
        ClauseState::Undecided(open as usize)
    }
}

/// Codes in strictly ascending order: sorted, and no code twice.
pub open spec fn strictly_ascending(clause: Seq<Lit>) -> bool {
    forall|i: int, j: int| 0 <= i < j < clause.len() ==> clause[i].0 < clause[j].0
}

/// Some variable occurs in the clause both plain and negated.
pub open spec fn has_complement(clause: Seq<Lit>) -> bool {
    exists|i: int, j: int|
        0 <= i < clause.len() && 0 <= j < clause.len() && (#[trigger] clause[i]).spec_var() == (
        #[trigger] clause[j]).spec_var() && clause[i].spec_is_pos() != clause[j].spec_is_pos()
}

/// Two neighbours in the clause have the same variable.
pub open spec fn has_adjacent_var(clause: Seq<Lit>) -> bool {
    exists|i: int|
        0 <= i < clause.len() - 1 && (#[trigger] clause[i]).spec_var() == clause[i
            + 1].spec_var()
}

/// The normal form of a stored clause: literals in strictly ascending order
/// and no variable both plain and negated.
pub open spec fn clause_normal(clause: Seq<Lit>) -> bool {
    strictly_ascending(clause) && !has_complement(clause)
}

/// The literals that the codes stand for.
pub open spec fn lits_of(c: Seq<u32>) -> Seq<Lit> {
    Seq::new(c.len(), |i: int| Lit(c[i]))
}

/// The number of unassigned places is at most the length, and where it is
/// zero every literal has a value.
pub proof fn lemma_unassigned_count(state: Seq<OptBool>, clause: Seq<Lit>)
    ensures
        unassigned_count(state, clause) <= clause.len(),
        unassigned_count(state, clause) == 0 <==> (forall|i: int|
            0 <= i < clause.len() ==> !lit_unassigned(state, #[trigger] clause[i])),
    decreases clause.len(),
{
    if clause.len() > 0 {
        let front = clause.drop_last();
        lemma_unassigned_count(state, front);
        if unassigned_count(state, clause) == 0 {
            assert forall|i: int| 0 <= i < clause.len() implies !lit_unassigned(
                state,
                #[trigger] clause[i],
            ) by {
                if i < front.len() {
                    assert(front[i] == clause[i]);
                }
            }
        } else {
            if !lit_unassigned(state, clause.last()) {
                let i = choose|i: int|
                    0 <= i < front.len() && lit_unassigned(state, #[trigger] front[i]);
                assert(front[i] == clause[i]);
            }
        }
    }
}

/// Where exactly one place of the clause is unassigned, `last_unassigned`
/// gives its literal, and every other place holds an assigned literal.
pub proof fn lemma_single_unassigned(state: Seq<OptBool>, clause: Seq<Lit>)
    requires
        unassigned_count(state, clause) == 1,
    ensures
        exists|at: int|
            0 <= at < clause.len() && #[trigger] clause[at] == last_unassigned(state, clause)
                && lit_unassigned(state, clause[at]) && forall|i: int|
                0 <= i < clause.len() && i != at ==> !lit_unassigned(state, #[trigger] clause[i]),
    decreases clause.len(),
{
    let front = clause.drop_last();
    let last = clause.len() - 1;
    if lit_unassigned(state, clause.last()) {
        lemma_unassigned_count(state, front);
        assert forall|i: int| 0 <= i < clause.len() && i != last implies !lit_unassigned(
            state,
            #[trigger] clause[i],
        ) by {
            assert(front[i] == clause[i]);
        }
        assert(clause[last] == last_unassigned(state, clause));
    } else {
        lemma_single_unassigned(state, front);
        let at = choose|at: int|
            0 <= at < front.len() && #[trigger] front[at] == last_unassigned(state, front)
                && lit_unassigned(state, front[at]) && forall|i: int|
                0 <= i < front.len() && i != at ==> !lit_unassigned(state, #[trigger] front[i]);
        assert(clause[at] == front[at]);
        assert forall|i: int| 0 <= i < clause.len() && i != at implies !lit_unassigned(
            state,
            #[trigger] clause[i],
        ) by {
            if i < last {
                assert(front[i] == clause[i]);
            }
        }
    }
}

/// What the states of a clause mean, literal by literal. An unsatisfied
/// clause has only false literals. A unit clause has its unassigned literal
/// at one place and false literals at all others.
pub proof fn lemma_clause_state(state: Seq<OptBool>, clause: Seq<Lit>)
    ensures
        clause_state(state, clause) == ClauseState::Unsatisfied <==> clause_falsified(
            state,
            clause,
        ),
        clause_state(state, clause) matches ClauseState::Unit(unit) ==> exists|at: int|
            0 <= at < clause.len() && #[trigger] clause[at] == unit && lit_unassigned(state, unit)
                && forall|i: int|
                0 <= i < clause.len() && i != at ==> lit_false(state, #[trigger] clause[i]),
{
    lemma_unassigned_count(state, clause);
    if clause_state(state, clause) == ClauseState::Unsatisfied {
        assert forall|i: int| 0 <= i < clause.len() implies lit_false(
            state,
            #[trigger] clause[i],
        ) by {
            assert(!lit_unassigned(state, clause[i]));
            assert(!lit_true(state, clause[i]));
        }
    }
    if clause_falsified(state, clause) {
        assert forall|i: int| 0 <= i < clause.len() implies !lit_unassigned(
            state,
            #[trigger] clause[i],
        ) by {
            assert(lit_false(state, clause[i]));
        }
        if clause_satisfied(state, clause) {
            let i = choose|i: int| 0 <= i < clause.len() && lit_true(state, #[trigger] clause[i]);
            assert(lit_false(state, clause[i]));
        }
    }
    if clause_state(state, clause) matches ClauseState::Unit(unit) {
        lemma_single_unassigned(state, clause);
        let at = choose|at: int|
            0 <= at < clause.len() && #[trigger] clause[at] == last_unassigned(state, clause)
                && lit_unassigned(state, clause[at]) && forall|i: int|
                0 <= i < clause.len() && i != at ==> !lit_unassigned(state, #[trigger] clause[i]);
        assert forall|i: int| 0 <= i < clause.len() && i != at implies lit_false(
            state,
            #[trigger] clause[i],
        ) by {
            assert(!lit_unassigned(state, clause[i]));
            assert(!lit_true(state, clause[i]));
        }
    }
}

/// A clause is in the state `Unit` exactly if it forces a literal.
pub proof fn lemma_unit_state(state: Seq<OptBool>, clause: Seq<Lit>)
    ensures
        clause_state(state, clause) is Unit <==> clause_unit(state, clause),
{
    lemma_clause_state(state, clause);
    if clause_state(state, clause) is Unit {
        let unit = clause_state(state, clause)->Unit_0;
        let at = choose|at: int|
            0 <= at < clause.len() && #[trigger] clause[at] == unit && lit_unassigned(state, unit)
                && forall|i: int|
                0 <= i < clause.len() && i != at ==> lit_false(state, #[trigger] clause[i]);
        assert(lit_unassigned(state, clause[at]));
    }
    if clause_unit(state, clause) {
        let at = choose|at: int|
            0 <= at < clause.len() && lit_unassigned(state, #[trigger] clause[at]) && forall|i: int|
                0 <= i < clause.len() && i != at ==> lit_false(state, #[trigger] clause[i]);
        lemma_one_unassigned(state, clause, at);
        if clause_satisfied(state, clause) {
            let i = choose|i: int| 0 <= i < clause.len() && lit_true(state, #[trigger] clause[i]);
            if i != at {
                assert(lit_false(state, clause[i]));
            }
        }
    }
}

/// A clause with an unassigned literal at one place and assigned literals
/// at all others has one unassigned place.
pub proof fn lemma_one_unassigned(state: Seq<OptBool>, clause: Seq<Lit>, at: int)
    requires
        0 <= at < clause.len(),
        lit_unassigned(state, clause[at]),
        forall|i: int|
            0 <= i < clause.len() && i != at ==> !lit_unassigned(state, #[trigger] clause[i]),
    ensures
        unassigned_count(state, clause) == 1,
    decreases clause.len(),
{
    let front = clause.drop_last();
    let last = clause.len() - 1;
    if at == last {
        lemma_unassigned_count(state, front);
        assert forall|i: int| 0 <= i < front.len() implies !lit_unassigned(
            state,
            #[trigger] front[i],
        ) by {
            assert(front[i] == clause[i]);
        }
    } else {
        assert(front[at] == clause[at]);
        assert forall|i: int| 0 <= i < front.len() && i != at implies !lit_unassigned(
            state,
            #[trigger] front[i],
        ) by {
            assert(front[i] == clause[i]);
        }
        lemma_one_unassigned(state, front, at);
        assert(!lit_unassigned(state, clause[last]));
    }
}

/// Dropping repeated neighbours from an ascending sequence leaves a
/// strictly ascending one with the same members.
pub proof fn lemma_without_repeats(s: Seq<u32>)
    requires
        ascending(s),
    ensures
        without_repeats(s).len() <= s.len(),
        s.len() > 0 ==> without_repeats(s).len() > 0 && without_repeats(s).last() == s.last(),
        forall|i: int, j: int|
            0 <= i < j < without_repeats(s).len() ==> without_repeats(s)[i] < without_repeats(
                s,
            )[j],
        forall|x: u32| s.contains(x) <==> without_repeats(s).contains(x),
    decreases s.len(),
{
    if s.len() > 1 {
        let front = s.drop_last();
        let kept = without_repeats(front);
        assert forall|i: int, j: int| 0 <= i <= j < front.len() implies front[i] <= front[j] by {
            assert(front[i] == s[i] && front[j] == s[j]);
        }
        lemma_without_repeats(front);
        assert(front.last() == s[s.len() - 2]);
        let result = without_repeats(s);
        if s[s.len() - 1] != s[s.len() - 2] {
            assert forall|i: int, j: int| 0 <= i < j < result.len() implies result[i]
                < result[j] by {
                if j == kept.len() {
                    assert(kept.contains(kept[i]));
                    assert(front.contains(kept[i]));
                    let k = choose|k: int| 0 <= k < front.len() && front[k] == kept[i];
                    assert(s[k] <= s[s.len() - 2]);
                }
            }
        }
        assert forall|x: u32| s.contains(x) <==> result.contains(x) by {
            if s.contains(x) {
                let k = choose|k: int| 0 <= k < s.len() && s[k] == x;
                if k < front.len() {
                    assert(front[k] == x);
                    assert(front.contains(x));
                    assert(kept.contains(x));
                    let m = choose|m: int| 0 <= m < kept.len() && kept[m] == x;
                    assert(result[m] == x);
                } else {
                    if s[s.len() - 1] == s[s.len() - 2] {
                        assert(kept.last() == x);
                        assert(kept[kept.len() - 1] == x);
                    } else {
                        assert(result[result.len() - 1] == x);
                    }
                }
            }
            if result.contains(x) {
                let m = choose|m: int| 0 <= m < result.len() && result[m] == x;
                if m < kept.len() {
                    assert(kept[m] == x);
                    assert(kept.contains(x));
                    assert(front.contains(x));
                    let k = choose|k: int| 0 <= k < front.len() && front[k] == x;
                    assert(s[k] == x);
                } else {
                    assert(s[s.len() - 1] == x);
                }
            }
        }
    }
}

/// In a strictly ascending clause the two literals of one variable can only
/// stand side by side, so looking at neighbours finds every such pair.
pub proof fn lemma_adjacent_complement(clause: Seq<Lit>)
    requires
        strictly_ascending(clause),
    ensures
        has_adjacent_var(clause) <==> has_complement(clause),
{
    if has_adjacent_var(clause) {
        let i = choose|i: int|
            0 <= i < clause.len() - 1 && (#[trigger] clause[i]).spec_var() == clause[i
                + 1].spec_var();
        assert(clause[i].0 < clause[i + 1].0);
        assert(clause[i].spec_var() == clause[i + 1].spec_var() && clause[i].spec_is_pos()
            != clause[i + 1].spec_is_pos());
    }
    if has_complement(clause) {
        let (i, j) = choose|i: int, j: int|
            0 <= i < clause.len() && 0 <= j < clause.len() && (#[trigger] clause[i]).spec_var()
                == (#[trigger] clause[j]).spec_var() && clause[i].spec_is_pos()
                != clause[j].spec_is_pos();
        let lo = if i < j { i } else { j };
        let hi = if i < j { j } else { i };
        assert(clause[lo].0 < clause[hi].0);
        if hi > lo + 1 {
            assert(clause[lo].0 < clause[lo + 1].0);
            assert(clause[lo + 1].0 < clause[hi].0);
        }
        assert(clause[lo].spec_var() == clause[lo + 1].spec_var());
    }
}

/// A clause: a short list of literals, read as their disjunction.
pub struct Clause {
    lits: StackVec<u32, MAX_LITS_PER_CLAUSE>,
}

impl View for Clause {
    type V = Seq<Lit>;

    closed spec fn view(&self) -> Seq<Lit> {
        lits_of(codes(self.lits))
    }
}

impl Clone for Clause {
    fn clone(&self) -> (copy: Clause)
        ensures
            copy@ == self@,
    {
        Clause { lits: codes_clone(&self.lits) }
    }
}

impl Clause {
    /// The empty clause.
    pub fn new() -> (clause: Clause)
        ensures
            clause@ == Seq::<Lit>::empty(),
    {
        let clause = Clause { lits: codes_new() };
        assert(clause@ =~= Seq::<Lit>::empty());
        clause
    }

    /// The clause of the given literals, in their order. There must be no
    /// more of them than a clause can hold.
    pub fn from_lits(lits: &[Lit]) -> (clause: Clause)
        requires
            lits@.len() <= MAX_LITS_PER_CLAUSE,
        ensures
            clause@ == lits@,
    {
        let mut clause = Clause::new();
        let mut i: usize = 0;
        while i < lits.len()
            invariant
                i <= lits@.len() <= MAX_LITS_PER_CLAUSE,
                clause@ == lits@.take(i as int),
            decreases lits@.len() - i,
        {
            clause.push(lits[i]);
            assert(lits@.take(i + 1) =~= lits@.take(i as int).push(lits@[i as int]));
            i = i + 1;
        }
        assert(lits@.take(i as int) =~= lits@);
        clause
    }

    /// The number of literals.
    pub fn len(&self) -> (n: usize)
        ensures
            n == self@.len(),
            n <= MAX_LITS_PER_CLAUSE,
    {
        codes_len(&self.lits)
    }

    /// Whether the clause holds no literal.
    pub fn is_empty(&self) -> (empty: bool)
        ensures
            empty == (self@.len() == 0),
    {
        codes_len(&self.lits) == 0
    }

    /// The literal at place `i`.
    pub fn get(&self, i: usize) -> (lit: Lit)
        requires
            i < self@.len(),
        ensures
            lit == self@[i as int],
    {
        Lit(codes_get(&self.lits, i))
    }

    /// Appends a literal. The clause must not be full.
    pub fn push(&mut self, lit: Lit)
        requires
            old(self)@.len() < MAX_LITS_PER_CLAUSE,
        ensures
            final(self)@ == old(self)@.push(lit),
    {
        codes_push(&mut self.lits, lit.0);
        assert(self@ =~= old(self)@.push(lit));
    }

    /// Removes every literal.
    pub fn clear(&mut self)
        ensures
            final(self)@ == Seq::<Lit>::empty(),
    {
        codes_clear(&mut self.lits);
        assert(self@ =~= Seq::<Lit>::empty());
    }

    /// Sorts the literals: the same literals, each as often as before, by
    /// variable, and at equal variable the positive one first.
    pub fn sort_unstable(&mut self)
        ensures
            forall|i: int, j: int|
                0 <= i <= j < final(self)@.len() ==> final(self)@[i].0 <= final(self)@[j].0,
            final(self)@.len() == old(self)@.len(),
            forall|lit: Lit| final(self)@.contains(lit) <==> old(self)@.contains(lit),
            final(self)@.to_multiset() == old(self)@.to_multiset(),
    {
        let ghost before = codes(self.lits);
        codes_sort(&mut self.lits);
        proof {
            let after = codes(self.lits);
            lemma_lits_multiset(before);
            lemma_lits_multiset(after);
            before.to_multiset_ensures();
            after.to_multiset_ensures();
            self@.to_multiset_ensures();
            old(self)@.to_multiset_ensures();
            assert(self@.to_multiset() =~= old(self)@.to_multiset());
            assert forall|i: int, j: int| 0 <= i <= j < self@.len() implies self@[i].0
                <= self@[j].0 by {
                assert(after[i] <= after[j]);
            }
            assert forall|lit: Lit| self@.contains(lit) <==> old(self)@.contains(lit) by {
                assert(self@.to_multiset().count(lit) == old(self)@.to_multiset().count(lit));
            }
        }
    }

    /// Removes every literal that equals the literal before it. In a sorted
    /// clause this leaves each literal once, in strictly ascending order.
    pub fn dedup(&mut self)
        ensures
            final(self)@ == lits_of(without_repeats(codes_of(old(self)@))),
            (forall|i: int, j: int|
                0 <= i <= j < old(self)@.len() ==> old(self)@[i].0 <= old(self)@[j].0) ==> {
                &&& strictly_ascending(final(self)@)
                &&& forall|lit: Lit| final(self)@.contains(lit) <==> old(self)@.contains(lit)
            },
    {
        let ghost before = codes(self.lits);
        codes_dedup(&mut self.lits);
        proof {
            assert(codes_of(old(self)@) =~= before);
            if forall|i: int, j: int|
                0 <= i <= j < old(self)@.len() ==> old(self)@[i].0 <= old(self)@[j].0 {
                assert forall|i: int, j: int| 0 <= i <= j < before.len() implies before[i]
                    <= before[j] by {
                    assert(old(self)@[i].0 == before[i] && old(self)@[j].0 == before[j]);
                }
                lemma_without_repeats(before);
                let after = codes(self.lits);
                assert forall|lit: Lit| self@.contains(lit) <==> old(self)@.contains(lit) by {
                    if self@.contains(lit) {
                        let k = choose|k: int| 0 <= k < self@.len() && self@[k] == lit;
                        assert(after[k] == lit.0);
                        assert(after.contains(lit.0));
                        assert(without_repeats(before).contains(lit.0));
                        assert(before.contains(lit.0));
                        let m = choose|m: int| 0 <= m < before.len() && before[m] == lit.0;
                        assert(old(self)@[m] == lit);
                    }
                    if old(self)@.contains(lit) {
                        let m = choose|m: int| 0 <= m < old(self)@.len() && old(self)@[m] == lit;
                        assert(before[m] == lit.0);
                        assert(before.contains(lit.0));
                        assert(without_repeats(before).contains(lit.0));
                        assert(after.contains(lit.0));
                        let k = choose|k: int| 0 <= k < after.len() && after[k] == lit.0;
                        assert(self@[k] == lit);
                    }
                }
            }
        }
    }

    /// Whether two neighbours share their variable. For a clause in strictly
    /// ascending order this tells whether the clause is a tautology, one that
    /// holds a variable both plain and negated.
    pub fn is_tautology(&self) -> (tautology: bool)
        ensures
            tautology == has_adjacent_var(self@),
            strictly_ascending(self@) ==> tautology == has_complement(self@),
    {
        proof {
            if strictly_ascending(self@) {
                lemma_adjacent_complement(self@);
            }
        }
        let n = self.len();
        if n == 0 {
            return false;
        }
        let mut i: usize = 0;
        while i < n - 1
            invariant
                n == self@.len(),
                n > 0,
                i <= n - 1,
                forall|k: int| 0 <= k < i ==> (#[trigger] self@[k]).spec_var() != self@[k + 1].spec_var(),
            decreases n - i,
        {
            if self.get(i).var() == self.get(i + 1).var() {
                return true;
            }
            i = i + 1;
        }
        false
    }

    /// Whether the total assignment makes some literal of the clause true.
    pub fn is_satisfied_by(&self, assignment: &[bool]) -> (satisfied: bool)
        requires
            clause_in_range(self@, assignment@.len()),
        ensures
            satisfied == clause_satisfied_by(self@, assignment@),
    {
        let n = self.len();
        let mut i: usize = 0;
        while i < n
            invariant
                n == self@.len(),
                i <= n,
                clause_in_range(self@, assignment@.len()),
                forall|k: int|
                    0 <= k < i ==> !(#[trigger] self@[k]).spec_eval_with(
                        assignment@[self@[k].spec_var() as int],
                    ),
            decreases n - i,
        {
            let lit = self.get(i);
            if lit.eval_with(assignment[lit.var()]) {
                return true;
            }
            i = i + 1;
        }
        false
    }

    /// Whether the partial assignment makes every literal of the clause
    /// false.
    pub fn is_unsatisfied_by_partial(&self, part_assignment: &[OptBool]) -> (unsatisfied: bool)
        requires
            clause_in_range(self@, part_assignment@.len()),
        ensures
            unsatisfied == clause_falsified(part_assignment@, self@),
    {
        let n = self.len();
        let mut i: usize = 0;
        while i < n
            invariant
                n == self@.len(),
                i <= n,
                clause_in_range(self@, part_assignment@.len()),
                forall|k: int| 0 <= k < i ==> lit_false(part_assignment@, #[trigger] self@[k]),
            decreases n - i,
        {
            let lit = self.get(i);
            let var_state = PartialAssignment::get_unchecked_from(part_assignment, lit.var());
            if !var_state.is_bool(!lit.is_pos()) {
                return false;
            }
            i = i + 1;
        }
        true
    }

    /// Whether the partial assignment makes some literal of the clause true.
    pub fn is_satisfied_by_partial(&self, part_assignment: &PartialAssignment) -> (satisfied:
        bool)
        requires
            clause_in_range(self@, part_assignment@.num_vars()),
        ensures
            satisfied == clause_satisfied(part_assignment@.state, self@),
    {
        let n = self.len();
        let mut i: usize = 0;
        while i < n
            invariant
                n == self@.len(),
                i <= n,
                clause_in_range(self@, part_assignment@.num_vars()),
                forall|k: int| 0 <= k < i ==> !lit_true(part_assignment@.state, #[trigger] self@[k]),
            decreases n - i,
        {
            let lit = self.get(i);
            let var_state = part_assignment.get_unchecked(lit.var());
            if var_state.is_bool(lit.is_pos()) {
                return true;
            }
            i = i + 1;
        }
        false
    }

    /// The state of the clause under the partial assignment.
    pub fn eval_with_partial(&self, part_assignment: &PartialAssignment) -> (state: ClauseState)
        requires
            clause_in_range(self@, part_assignment@.num_vars()),
        ensures
            state == clause_state(part_assignment@.state, self@),
    {
        let ghost values = part_assignment@.state;
        let mut unassigned: usize = 0;
        let mut unit_lit = Lit::invalid();
        let n = self.len();
        let mut i: usize = 0;
        while i < n
            invariant
                n == self@.len(),
                n <= MAX_LITS_PER_CLAUSE,
                i <= n,
                values == part_assignment@.state,
                clause_in_range(self@, part_assignment@.num_vars()),
                forall|k: int| 0 <= k < i ==> !lit_true(values, #[trigger] self@[k]),
                unassigned == unassigned_count(values, self@.take(i as int)),
                unassigned <= i,
                unit_lit == last_unassigned(values, self@.take(i as int)),
            decreases n - i,
        {
            let lit = self.get(i);
            let var_state = part_assignment.get_unchecked(lit.var());
            proof {
                assert(self@.take(i + 1).drop_last() =~= self@.take(i as int));
                assert(self@.take(i + 1).last() == lit);
            }
            if var_state.is_bool(lit.is_pos()) {
                return ClauseState::Satisfied;
            } else if var_state.is_none() {
                unassigned = unassigned + 1;
                unit_lit = lit;
            }
            i = i + 1;
        }
        assert(self@.take(n as int) =~= self@);
        if unassigned == 0 {
            ClauseState::Unsatisfied
        } else if unassigned == 1 {
            ClauseState::Unit(unit_lit)
        } else {
            ClauseState::Undecided(unassigned)
        }
    }
}

/// The codes of the literals.
pub open spec fn codes_of(clause: Seq<Lit>) -> Seq<u32> {
    Seq::new(clause.len(), |i: int| clause[i].0)
}

/// Reading codes as literals carries the count of each over.
proof fn lemma_lits_multiset(c: Seq<u32>)
    ensures
        forall|lit: Lit| lits_of(c).to_multiset().count(lit) == c.to_multiset().count(lit.0),
    decreases c.len(),
{
    broadcast use vstd::seq_lib::group_to_multiset_ensures;

    if c.len() == 0 {
        assert(lits_of(c) =~= Seq::<Lit>::empty());
        assert(c =~= Seq::<u32>::empty());
    } else {
        let front = c.drop_last();
        lemma_lits_multiset(front);
        assert(lits_of(c) =~= lits_of(front).push(Lit(c.last())));
        assert(c =~= front.push(c.last()));
    }
}

} // verus!
