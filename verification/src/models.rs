//! Models of a formula, and what the trail of a search says about them.
//!
//! A search is correct for two reasons. It never overlooks a falsified
//! clause: every clause that the assignment falsifies holds a literal that
//! is still waiting to be looked at. And it never discards a model: every
//! entry of the trail is either a decision on its first branch or a value
//! that all models share which agree with the trail before it. In the same
//! way as falsified clauses, the search overlooks no clause that forces a
//! literal, once it has looked at all clauses at the root.

use crate::clause::{
    clause_falsified, clause_in_range, clause_satisfied_by, clause_state, clause_unit,
    lemma_clause_state, lit_false, lit_unassigned, ClauseState,
};
use crate::lit::Lit;
use crate::opt_bool::OptBool;
use crate::partial_assignment::{solution_of, AssignmentView};
use crate::problem::formula_satisfied_by;
use vstd::prelude::*;

verus! {

/// A total assignment of the variables that satisfies every clause.
pub open spec fn is_model(formula: Seq<Seq<Lit>>, num_vars: nat, model: Seq<bool>) -> bool {
    model.len() == num_vars && formula_satisfied_by(formula, model)
}

/// The value of the variable at place `p` of the trail, as a boolean.
pub open spec fn value_at(a: AssignmentView, p: int) -> bool {
    a.state[a.trail[p] as int] == OptBool::True
}

/// The model gives the first `upto` variables of the trail the values that
/// the assignment gives them.
pub open spec fn agrees(model: Seq<bool>, a: AssignmentView, upto: int) -> bool {
    forall|j: int| 0 <= j < upto ==> model[(#[trigger] a.trail[j]) as int] == value_at(a, j)
}

/// Every model that agrees with the trail before place `p` agrees with it
/// at `p` too.
pub open spec fn forced(formula: Seq<Seq<Lit>>, a: AssignmentView, p: int) -> bool {
    forall|model: Seq<bool>|
        #![trigger agrees(model, a, p)]
        is_model(formula, a.state.len(), model) && agrees(model, a, p) ==> model[a.trail[p] as int]
            == value_at(a, p)
}

/// Place `p` holds a decision that is still on its first branch.
pub open spec fn first_branch(a: AssignmentView, p: int) -> bool {
    a.marks.contains(p as usize) && value_at(a, p)
}

/// Place `p` discards no model: it is a first branch or forced.
pub open spec fn justified(formula: Seq<Seq<Lit>>, a: AssignmentView, p: int) -> bool {
    first_branch(a, p) || forced(formula, a, p)
}

/// Every place of the trail behind the initial decisions is justified.
pub open spec fn all_justified(formula: Seq<Seq<Lit>>, a: AssignmentView) -> bool {
    forall|p: int| a.initial_level <= p < a.trail.len() ==> #[trigger] justified(formula, a, p)
}

/// No model agrees with the whole trail.
pub open spec fn dead(formula: Seq<Seq<Lit>>, a: AssignmentView) -> bool {
    forall|model: Seq<bool>|
        #![trigger agrees(model, a, a.trail.len() as int)]
        is_model(formula, a.state.len(), model) ==> !agrees(model, a, a.trail.len() as int)
}

/// No model agrees with the initial decisions.
pub open spec fn base_refuted(formula: Seq<Seq<Lit>>, a: AssignmentView) -> bool {
    forall|model: Seq<bool>|
        #![trigger agrees(model, a, a.initial_level as int)]
        is_model(formula, a.state.len(), model) ==> !agrees(model, a, a.initial_level as int)
}

/// No clause is falsified.
pub open spec fn conflict_free(formula: Seq<Seq<Lit>>, state: Seq<OptBool>) -> bool {
    forall|c: int| 0 <= c < formula.len() ==> !clause_falsified(state, #[trigger] formula[c])
}

/// The clause asks for something to be done: it is falsified, or, where
/// units count, it forces a literal.
pub open spec fn stirred(state: Seq<OptBool>, clause: Seq<Lit>, units_count: bool) -> bool {
    clause_falsified(state, clause) || (units_count && clause_unit(state, clause))
}

/// No clause is falsified and, where units count, none forces a literal:
/// propagation has nothing left to do.
pub open spec fn quiet(formula: Seq<Seq<Lit>>, state: Seq<OptBool>, units_count: bool) -> bool {
    forall|c: int| 0 <= c < formula.len() ==> !stirred(state, #[trigger] formula[c], units_count)
}

/// Every clause that is falsified, or forces a literal where units count,
/// is either among `rest`, the clauses still to be looked at, or holds one
/// of the pending literals.
pub open spec fn covered(
    formula: Seq<Seq<Lit>>,
    state: Seq<OptBool>,
    pending: Seq<Lit>,
    rest: Set<int>,
    units_count: bool,
) -> bool {
    forall|c: int|
        0 <= c < formula.len() && stirred(state, #[trigger] formula[c], units_count)
            ==> rest.contains(c) || exists|k: int|
            0 <= k < pending.len() && formula[c].contains(#[trigger] pending[k])
}

/// Before each decision above the initial ones was made, propagation had
/// nothing left to do.
pub open spec fn levels_safe(formula: Seq<Seq<Lit>>, a: AssignmentView, units_count: bool) -> bool {
    forall|level: int|
        a.initial_level <= level < a.marks.len() ==> quiet(
            formula,
            a.cleared_from((#[trigger] a.marks[level]) as int),
            units_count,
        )
}

/// Every clause names variables of the formula only.
pub open spec fn formula_in_range(formula: Seq<Seq<Lit>>, num_vars: nat) -> bool {
    forall|c: int| 0 <= c < formula.len() ==> clause_in_range(#[trigger] formula[c], num_vars)
}

/// Two assignments have the same first `k` trail entries with the same
/// values, and the same marks among them.
pub open spec fn same_upto(a: AssignmentView, b: AssignmentView, k: int) -> bool {
    &&& a.state.len() == b.state.len()
    &&& a.initial_level == b.initial_level
    &&& 0 <= k <= a.trail.len()
    &&& k <= b.trail.len()
    &&& forall|j: int| 0 <= j < k ==> (#[trigger] a.trail[j]) == b.trail[j]
    &&& forall|j: int| 0 <= j < k ==> a.state[(#[trigger] a.trail[j]) as int] == b.state[a.trail[j] as int]
    &&& forall|j: usize| j < k ==> (#[trigger] a.marks.contains(j)) == b.marks.contains(j)
}

/// The places that two assignments share are justified in the one if they
/// are in the other.
pub proof fn lemma_same_upto(formula: Seq<Seq<Lit>>, a: AssignmentView, b: AssignmentView, k: int)
    requires
        same_upto(a, b, k),
    ensures
        forall|p: int| 0 <= p < k && justified(formula, a, p) ==> #[trigger] justified(formula, b, p),
        forall|model: Seq<bool>, p: int|
            0 <= p <= k ==> (#[trigger] agrees(model, a, p) <==> agrees(model, b, p)),
{
    assert forall|model: Seq<bool>, p: int| 0 <= p <= k implies (#[trigger] agrees(model, a, p)
        <==> agrees(model, b, p)) by {
        if agrees(model, a, p) {
            assert forall|j: int| 0 <= j < p implies model[(#[trigger] b.trail[j]) as int]
                == value_at(b, j) by {
                assert(a.trail[j] == b.trail[j]);
            }
        }
        if agrees(model, b, p) {
            assert forall|j: int| 0 <= j < p implies model[(#[trigger] a.trail[j]) as int]
                == value_at(a, j) by {
                assert(a.trail[j] == b.trail[j]);
                assert(model[b.trail[j] as int] == value_at(b, j));
            }
        }
    }
    assert forall|p: int| 0 <= p < k && justified(formula, a, p) implies #[trigger] justified(
        formula,
        b,
        p,
    ) by {
        assert(a.trail[p] == b.trail[p]);
        assert(value_at(a, p) == value_at(b, p));
        if !first_branch(a, p) {
            assert forall|model: Seq<bool>|
                #![trigger agrees(model, b, p)]
                is_model(formula, b.state.len(), model) && agrees(
                    model,
                    b,
                    p,
                ) implies model[b.trail[p] as int] == value_at(b, p) by {
                assert(agrees(model, a, p));
            }
        }
    }
}

/// A model that agrees with the whole trail gives every assigned variable
/// its value.
pub proof fn lemma_agrees_on_assigned(model: Seq<bool>, a: AssignmentView, var: int)
    requires
        a.wf(),
        agrees(model, a, a.trail.len() as int),
        0 <= var < a.state.len(),
        a.state[var] != OptBool::Unassigned,
    ensures
        model[var] == (a.state[var] == OptBool::True),
{
    assert(a.trail.contains(var as usize));
    let j = choose|j: int| 0 <= j < a.trail.len() && a.trail[j] == var as usize;
    assert(model[a.trail[j] as int] == value_at(a, j));
}

/// A model that agrees with the whole trail does not satisfy a clause that
/// the assignment falsifies: no model agrees with a trail in conflict.
pub proof fn lemma_conflict_dead(formula: Seq<Seq<Lit>>, a: AssignmentView, c: int)
    requires
        a.wf(),
        0 <= c < formula.len(),
        clause_in_range(formula[c], a.state.len()),
        clause_falsified(a.state, formula[c]),
    ensures
        dead(formula, a),
{
    let clause = formula[c];
    assert forall|model: Seq<bool>|
        #![trigger agrees(model, a, a.trail.len() as int)]
        is_model(formula, a.state.len(), model) implies !agrees(
        model,
        a,
        a.trail.len() as int,
    ) by {
        if agrees(model, a, a.trail.len() as int) {
            assert(clause_satisfied_by(clause, model));
            let i = choose|i: int|
                0 <= i < clause.len() && (#[trigger] clause[i]).spec_eval_with(
                    model[clause[i].spec_var() as int],
                );
            assert(lit_false(a.state, clause[i]));
            lemma_agrees_on_assigned(model, a, clause[i].spec_var() as int);
        }
    }
}

/// The literal of a unit clause is true in every model that agrees with
/// the trail: propagating it is forced.
pub proof fn lemma_unit_forced(formula: Seq<Seq<Lit>>, a: AssignmentView, c: int, unit: Lit)
    requires
        a.wf(),
        0 <= c < formula.len(),
        clause_in_range(formula[c], a.state.len()),
        clause_state(a.state, formula[c]) == ClauseState::Unit(unit),
    ensures
        unit.spec_var() < a.state.len(),
        lit_unassigned(a.state, unit),
        formula[c].contains(unit),
        forced(formula, a.propagated(unit.spec_var(), unit.spec_is_pos()), a.trail.len() as int),
{
    let clause = formula[c];
    let b = a.propagated(unit.spec_var(), unit.spec_is_pos());
    let p = a.trail.len() as int;
    lemma_clause_state(a.state, clause);
    let at = choose|at: int|
        0 <= at < clause.len() && #[trigger] clause[at] == unit && lit_unassigned(a.state, unit)
            && forall|i: int|
            0 <= i < clause.len() && i != at ==> lit_false(a.state, #[trigger] clause[i]);
    assert(clause[at].spec_var() < a.state.len());
    a.lemma_assign_wf(unit.spec_var(), unit.spec_is_pos());
    assert(same_upto(a, b, p)) by {
        assert forall|j: int| 0 <= j < p implies a.state[(#[trigger] a.trail[j]) as int]
            == b.state[a.trail[j] as int] by {
            assert(a.state[a.trail[j] as int] != OptBool::Unassigned);
        }
    }
    lemma_same_upto(formula, a, b, p);
    assert forall|model: Seq<bool>|
        #![trigger agrees(model, b, p)]
        is_model(formula, b.state.len(), model) && agrees(model, b, p) implies model[b.trail[p] as int]
        == value_at(b, p) by {
        assert(agrees(model, a, p));
        assert(clause_satisfied_by(clause, model));
        let i = choose|i: int|
            0 <= i < clause.len() && (#[trigger] clause[i]).spec_eval_with(
                model[clause[i].spec_var() as int],
            );
        if i != at {
            assert(lit_false(a.state, clause[i]));
            lemma_agrees_on_assigned(model, a, clause[i].spec_var() as int);
        }
    }
}

/// Where every place from `k` on is forced, a model that agrees with the
/// trail before `k` agrees with all of it.
pub proof fn lemma_agree_through(
    formula: Seq<Seq<Lit>>,
    a: AssignmentView,
    model: Seq<bool>,
    k: int,
)
    requires
        all_justified(formula, a),
        is_model(formula, a.state.len(), model),
        a.initial_level <= k <= a.trail.len(),
        agrees(model, a, k),
        forall|p: int| k <= p < a.trail.len() ==> !first_branch(a, p),
    ensures
        agrees(model, a, a.trail.len() as int),
    decreases a.trail.len() - k,
{
    if k < a.trail.len() {
        assert(justified(formula, a, k));
        assert(forced(formula, a, k));
        assert(model[a.trail[k] as int] == value_at(a, k));
        assert(agrees(model, a, k + 1));
        lemma_agree_through(formula, a, model, k + 1);
    }
}

/// Appending to the trail leaves every earlier place as it was.
pub proof fn lemma_append_same(a: AssignmentView, var: usize, val: bool)
    requires
        a.wf(),
        var < a.state.len(),
        !a.assigned(var as int),
    ensures
        same_upto(a, a.propagated(var, val), a.trail.len() as int),
        same_upto(a, a.decided(var), a.trail.len() as int),
{
    let p = a.trail.len() as int;
    let b = a.propagated(var, val);
    let d = a.decided(var);
    a.lemma_trail_counts_assigned();
    assert forall|j: int| 0 <= j < p implies a.state[(#[trigger] a.trail[j]) as int] == b.state[a.trail[j] as int]
        && a.state[a.trail[j] as int] == d.state[a.trail[j] as int] by {
        assert(a.state[a.trail[j] as int] != OptBool::Unassigned);
    }
    assert forall|j: usize| j < p implies (#[trigger] a.marks.contains(j)) == d.marks.contains(
        j,
    ) by {
        if a.marks.contains(j) {
            let i = choose|i: int| 0 <= i < a.marks.len() && a.marks[i] == j;
            assert(d.marks[i] == j);
        }
        if d.marks.contains(j) {
            let i = choose|i: int| 0 <= i < d.marks.len() && d.marks[i] == j;
            assert(i < a.marks.len());
            assert(a.marks[i] == j);
        }
    }
}

/// Cutting the trail at or behind `k` leaves every place before `k` as it
/// was, whether the last level is switched or removed.
pub proof fn lemma_backtrack_same(a: AssignmentView)
    requires
        a.wf(),
        a.can_backtrack(),
    ensures
        same_upto(a, a.flipped(), a.marks.last() as int),
        same_upto(a, a.popped(), a.marks.last() as int),
        a.initial_level <= a.marks.last(),
        forall|p: int| a.marks.last() < p < a.trail.len() ==> !first_branch(a, p),
{
    let last = a.marks.len() - 1;
    let mark = a.marks[last] as int;
    let f = a.flipped();
    let q = a.popped();
    a.lemma_trail_counts_assigned();
    assert(a.initial_level <= mark) by {
        if a.initial_level > 0 {
            assert(a.marks[a.initial_level - 1] == a.initial_level - 1);
            assert(a.marks[a.initial_level - 1] < a.marks[last]);
        }
    }
    assert forall|p: int| mark < p < a.trail.len() implies !first_branch(a, p) by {
        if a.marks.contains(p as usize) {
            let i = choose|i: int| 0 <= i < a.marks.len() && a.marks[i] == p as usize;
            if i < last {
                assert(a.marks[i] < a.marks[last]);
            }
        }
    }
    assert forall|j: int| 0 <= j < mark implies a.state[(#[trigger] a.trail[j]) as int] == f.state[a.trail[j] as int]
        && a.state[a.trail[j] as int] == q.state[a.trail[j] as int] by {
        let v = a.trail[j] as int;
        assert(a.trail[j] != a.trail[mark]);
        assert(!(exists|i: int| mark <= i < a.trail.len() && a.trail[i] == v)) by {
            if exists|i: int| mark <= i < a.trail.len() && a.trail[i] == v {
                let i = choose|i: int| mark <= i < a.trail.len() && a.trail[i] == v;
                assert(a.trail[j] != a.trail[i]);
            }
        }
        assert(!(exists|i: int| mark + 1 <= i < a.trail.len() && a.trail[i] == v)) by {
            if exists|i: int| mark + 1 <= i < a.trail.len() && a.trail[i] == v {
                let i = choose|i: int| mark + 1 <= i < a.trail.len() && a.trail[i] == v;
                assert(a.trail[j] != a.trail[i]);
            }
        }
    }
    assert forall|j: usize| j < mark implies (#[trigger] a.marks.contains(j)) == q.marks.contains(
        j,
    ) by {
        if a.marks.contains(j) {
            let i = choose|i: int| 0 <= i < a.marks.len() && a.marks[i] == j;
            assert(i != last);
            assert(q.marks[i] == j);
        }
        if q.marks.contains(j) {
            let i = choose|i: int| 0 <= i < q.marks.len() && q.marks[i] == j;
            assert(a.marks[i] == j);
        }
    }
}

/// Appending a forced value or a decision keeps every place justified.
pub proof fn lemma_append_justified(formula: Seq<Seq<Lit>>, a: AssignmentView, var: usize, val: bool)
    requires
        a.wf(),
        all_justified(formula, a),
        var < a.state.len(),
        !a.assigned(var as int),
    ensures
        forced(formula, a.propagated(var, val), a.trail.len() as int) ==> all_justified(
            formula,
            a.propagated(var, val),
        ),
        all_justified(formula, a.decided(var)),
{
    let p = a.trail.len() as int;
    lemma_append_same(a, var, val);
    let b = a.propagated(var, val);
    let d = a.decided(var);
    lemma_same_upto(formula, a, b, p);
    lemma_same_upto(formula, a, d, p);
    a.lemma_trail_counts_assigned();
    assert(d.marks[a.marks.len() as int] == p as usize);
    assert(first_branch(d, p));
    assert forall|k: int| d.initial_level <= k < d.trail.len() implies #[trigger] justified(
        formula,
        d,
        k,
    ) by {
        if k < p {
            assert(justified(formula, a, k));
        }
    }
    if forced(formula, b, p) {
        assert forall|k: int| b.initial_level <= k < b.trail.len() implies #[trigger] justified(
            formula,
            b,
            k,
        ) by {
            if k < p {
                assert(justified(formula, a, k));
            }
        }
    }
}

/// Once the last level has failed on its first branch, the second branch
/// is forced.
pub proof fn lemma_flip_justified(formula: Seq<Seq<Lit>>, a: AssignmentView)
    requires
        a.wf(),
        all_justified(formula, a),
        dead(formula, a),
        a.can_backtrack(),
        a.last_is_first_branch(),
    ensures
        all_justified(formula, a.flipped()),
{
    let mark = a.marks.last() as int;
    let f = a.flipped();
    lemma_backtrack_same(a);
    lemma_same_upto(formula, a, f, mark);
    assert(f.trail[mark] == a.trail[mark]);
    assert(!value_at(f, mark));
    assert forall|model: Seq<bool>|
        #![trigger agrees(model, f, mark)]
        is_model(formula, f.state.len(), model) && agrees(model, f, mark) implies model[f.trail[mark] as int]
        == value_at(f, mark) by {
        if model[a.trail[mark] as int] {
            assert(agrees(model, a, mark));
            assert(agrees(model, a, mark + 1));
            lemma_agree_through(formula, a, model, mark + 1);
        }
    }
    assert forall|k: int| f.initial_level <= k < f.trail.len() implies #[trigger] justified(
        formula,
        f,
        k,
    ) by {
        if k < mark {
            assert(justified(formula, a, k));
        } else {
            assert(forced(formula, f, mark));
        }
    }
}

/// Once the last level has failed on both branches, the trail before it
/// has failed.
pub proof fn lemma_pop_dead(formula: Seq<Seq<Lit>>, a: AssignmentView)
    requires
        a.wf(),
        all_justified(formula, a),
        dead(formula, a),
        a.can_backtrack(),
        !a.last_is_first_branch(),
    ensures
        all_justified(formula, a.popped()),
        dead(formula, a.popped()),
{
    let mark = a.marks.last() as int;
    let q = a.popped();
    lemma_backtrack_same(a);
    lemma_same_upto(formula, a, q, mark);
    assert forall|k: int| q.initial_level <= k < q.trail.len() implies #[trigger] justified(
        formula,
        q,
        k,
    ) by {
        assert(justified(formula, a, k));
    }
    assert forall|model: Seq<bool>|
        #![trigger agrees(model, q, q.trail.len() as int)]
        is_model(formula, q.state.len(), model) implies !agrees(
        model,
        q,
        q.trail.len() as int,
    ) by {
        if agrees(model, q, mark) {
            assert(agrees(model, a, mark));
            assert(!first_branch(a, mark));
            lemma_agree_through(formula, a, model, mark);
        }
    }
}

/// A trail that has failed without a decision above the initial ones
/// refutes the initial decisions.
pub proof fn lemma_exhausted(formula: Seq<Seq<Lit>>, a: AssignmentView)
    requires
        a.wf(),
        all_justified(formula, a),
        dead(formula, a),
        !a.can_backtrack(),
    ensures
        base_refuted(formula, a),
{
    a.lemma_trail_counts_assigned();
    assert forall|p: int| a.initial_level <= p < a.trail.len() implies !first_branch(a, p) by {
        if a.marks.contains(p as usize) {
            let i = choose|i: int| 0 <= i < a.marks.len() && a.marks[i] == p as usize;
            assert(a.marks[i] == i);
        }
    }
    assert(a.initial_level <= a.trail.len()) by {
        if a.initial_level > 0 {
            assert(a.marks[a.initial_level - 1] < a.trail.len());
        }
    }
    assert forall|model: Seq<bool>|
        #![trigger agrees(model, a, a.initial_level as int)]
        is_model(formula, a.state.len(), model) implies !agrees(
        model,
        a,
        a.initial_level as int,
    ) by {
        if agrees(model, a, a.initial_level as int) {
            lemma_agree_through(formula, a, model, a.initial_level as int);
        }
    }
}

/// With nothing pending and nothing left to look at, what is covered is
/// quiet; and what is quiet has no falsified clause.
pub proof fn lemma_covered_quiet(formula: Seq<Seq<Lit>>, state: Seq<OptBool>, units_count: bool)
    ensures
        covered(formula, state, Seq::empty(), Set::empty(), units_count) <==> quiet(
            formula,
            state,
            units_count,
        ),
        quiet(formula, state, units_count) ==> conflict_free(formula, state),
        quiet(formula, state, false) <==> conflict_free(formula, state),
{
    if covered(formula, state, Seq::empty(), Set::empty(), units_count) {
        assert forall|c: int| 0 <= c < formula.len() implies !stirred(
            state,
            #[trigger] formula[c],
            units_count,
        ) by {
            if stirred(state, formula[c], units_count) {
                assert(!Set::<int>::empty().contains(c));
            }
        }
    }
    if quiet(formula, state, units_count) {
        assert forall|c: int| 0 <= c < formula.len() implies !clause_falsified(
            state,
            #[trigger] formula[c],
        ) by {
            assert(!stirred(state, formula[c], units_count));
        }
    }
    if conflict_free(formula, state) {
        assert forall|c: int| 0 <= c < formula.len() implies !stirred(
            state,
            #[trigger] formula[c],
            false,
        ) by {
            assert(!clause_falsified(state, formula[c]));
        }
    }
    if quiet(formula, state, false) {
        assert forall|c: int| 0 <= c < formula.len() implies !clause_falsified(
            state,
            #[trigger] formula[c],
        ) by {
            assert(!stirred(state, formula[c], false));
        }
    }
}

/// Giving a value to an unassigned variable stirs only clauses that hold
/// the literal of that variable which has become false.
pub proof fn lemma_assign_covered(
    formula: Seq<Seq<Lit>>,
    state: Seq<OptBool>,
    pending: Seq<Lit>,
    rest: Set<int>,
    var: usize,
    val: bool,
    units_count: bool,
)
    requires
        formula_in_range(formula, state.len()),
        covered(formula, state, pending, rest, units_count),
        var < state.len(),
        var < crate::lit::MAX_VARS,
        state[var as int] == OptBool::Unassigned,
    ensures
        covered(
            formula,
            state.update(var as int, OptBool::of(val)),
            pending.push(Lit::spec_new(var, !val)),
            rest,
            units_count,
        ),
{
    let after = state.update(var as int, OptBool::of(val));
    let falsified = Lit::spec_new(var, !val);
    let waiting = pending.push(falsified);
    assert forall|c: int|
        0 <= c < formula.len() && stirred(
            after,
            #[trigger] formula[c],
            units_count,
        ) implies rest.contains(c) || exists|k: int|
        0 <= k < waiting.len() && formula[c].contains(#[trigger] waiting[k]) by {
        let clause = formula[c];
        assert(clause_in_range(clause, state.len()));
        if exists|i: int|
            0 <= i < clause.len() && (#[trigger] clause[i]).spec_var() == var && lit_false(
                after,
                clause[i],
            ) {
            let i = choose|i: int|
                0 <= i < clause.len() && (#[trigger] clause[i]).spec_var() == var && lit_false(
                    after,
                    clause[i],
                );
            assert(clause[i] == falsified);
            assert(waiting[pending.len() as int] == falsified);
        } else if exists|i: int| 0 <= i < clause.len() && (#[trigger] clause[i]).spec_var() == var {
            // The literal of the variable is true now: the clause is
            // satisfied, and asks for nothing.
            let i = choose|i: int| 0 <= i < clause.len() && (#[trigger] clause[i]).spec_var() == var;
            assert(!lit_false(after, clause[i]));
            assert(!lit_unassigned(after, clause[i]));
            if clause_unit(after, clause) {
                let at = choose|at: int|
                    0 <= at < clause.len() && lit_unassigned(after, #[trigger] clause[at])
                        && forall|k: int|
                        0 <= k < clause.len() && k != at ==> lit_false(after, #[trigger] clause[k]);
                assert(i != at);
                assert(lit_false(after, clause[i]));
            }
        } else {
            // The clause does not hold the variable: it is what it was.
            assert forall|i: int| 0 <= i < clause.len() implies (lit_false(
                state,
                #[trigger] clause[i],
            ) <==> lit_false(after, clause[i])) && (lit_unassigned(state, clause[i])
                <==> lit_unassigned(after, clause[i])) by {
                assert(clause[i].spec_var() != var);
            }
            if clause_falsified(after, clause) {
                assert(clause_falsified(state, clause));
            } else {
                let at = choose|at: int|
                    0 <= at < clause.len() && lit_unassigned(after, #[trigger] clause[at])
                        && forall|k: int|
                        0 <= k < clause.len() && k != at ==> lit_false(after, #[trigger] clause[k]);
                assert(lit_unassigned(state, clause[at]));
                assert forall|k: int| 0 <= k < clause.len() && k != at implies lit_false(
                    state,
                    #[trigger] clause[k],
                ) by {
                    assert(lit_false(after, clause[k]));
                }
                assert(clause_unit(state, clause));
            }
            assert(stirred(state, formula[c], units_count));
            if !rest.contains(c) {
                let k = choose|k: int|
                    0 <= k < pending.len() && formula[c].contains(#[trigger] pending[k]);
                assert(waiting[k] == pending[k]);
            }
        }
    }
}

/// Appending to the trail leaves the values before every place of the
/// trail as they were.
pub proof fn lemma_cleared_append(a: AssignmentView, var: usize, val: bool, k: int)
    requires
        a.wf(),
        var < a.state.len(),
        !a.assigned(var as int),
        0 <= k <= a.trail.len(),
    ensures
        a.propagated(var, val).cleared_from(k) == a.cleared_from(k),
        a.decided(var).cleared_from(k) == a.cleared_from(k),
        a.cleared_from(a.trail.len() as int) == a.state,
{
    let b = a.propagated(var, val);
    let d = a.decided(var);
    assert(!a.trail.contains(var)) by {
        if a.trail.contains(var) {
            let j = choose|j: int| 0 <= j < a.trail.len() && a.trail[j] == var;
            assert(a.state[a.trail[j] as int] != OptBool::Unassigned);
        }
    }
    assert(b.trail == d.trail);
    assert forall|v: int| 0 <= v < a.state.len() implies b.cleared_from(k)[v] == a.cleared_from(
        k,
    )[v] && d.cleared_from(k)[v] == a.cleared_from(k)[v] by {
        if exists|j: int| k <= j < a.trail.len() && a.trail[j] == v {
            let j = choose|j: int| k <= j < a.trail.len() && a.trail[j] == v;
            assert(k <= j < b.trail.len() && b.trail[j] == v);
        } else if v == var {
            assert(k <= a.trail.len() < b.trail.len() && b.trail[a.trail.len() as int] == v);
        } else {
            if exists|j: int| k <= j < b.trail.len() && b.trail[j] == v {
                let j = choose|j: int| k <= j < b.trail.len() && b.trail[j] == v;
                assert(j < a.trail.len());
                assert(a.trail[j] == v);
            }
        }
    }
    assert(b.cleared_from(k) =~= a.cleared_from(k));
    assert(d.cleared_from(k) =~= a.cleared_from(k));
    assert(a.cleared_from(a.trail.len() as int) =~= a.state);
}

/// Appending to the trail keeps the levels safe; a new decision does so
/// if propagation has nothing left to do.
pub proof fn lemma_append_levels_safe(
    formula: Seq<Seq<Lit>>,
    a: AssignmentView,
    var: usize,
    val: bool,
    units_count: bool,
)
    requires
        a.wf(),
        var < a.state.len(),
        !a.assigned(var as int),
        levels_safe(formula, a, units_count),
    ensures
        levels_safe(formula, a.propagated(var, val), units_count),
        quiet(formula, a.state, units_count) ==> levels_safe(formula, a.decided(var), units_count),
{
    let b = a.propagated(var, val);
    let d = a.decided(var);
    assert forall|level: int| b.initial_level <= level < b.marks.len() implies quiet(
        formula,
        b.cleared_from((#[trigger] b.marks[level]) as int),
        units_count,
    ) by {
        lemma_cleared_append(a, var, val, a.marks[level] as int);
    }
    if quiet(formula, a.state, units_count) {
        assert forall|level: int| d.initial_level <= level < d.marks.len() implies quiet(
            formula,
            d.cleared_from((#[trigger] d.marks[level]) as int),
            units_count,
        ) by {
            if level < a.marks.len() {
                assert(d.marks[level] == a.marks[level]);
                lemma_cleared_append(a, var, val, a.marks[level] as int);
            } else {
                lemma_cleared_append(a, var, val, a.trail.len() as int);
                a.lemma_trail_counts_assigned();
            }
        }
    }
}

/// Switching or removing the last level leaves the values before every
/// place up to its decision as they were.
pub proof fn lemma_cleared_backtrack(a: AssignmentView, k: int)
    requires
        a.wf(),
        a.can_backtrack(),
        0 <= k <= a.marks.last(),
    ensures
        a.flipped().cleared_from(k) == a.cleared_from(k),
        a.popped().cleared_from(k) == a.cleared_from(k),
        a.flipped().state == a.cleared_from(a.marks.last() as int).update(
            a.trail[a.marks.last() as int] as int,
            OptBool::False,
        ),
        a.cleared_from(a.marks.last() as int)[a.trail[a.marks.last() as int] as int]
            == OptBool::Unassigned,
{
    let mark = a.marks.last() as int;
    let d = a.trail[mark] as int;
    let f = a.flipped();
    let q = a.popped();
    assert(a.trail[mark] < a.state.len());
    assert forall|v: int| 0 <= v < a.state.len() implies f.cleared_from(k)[v] == a.cleared_from(
        k,
    )[v] && q.cleared_from(k)[v] == a.cleared_from(k)[v] by {
        if exists|j: int| k <= j < a.trail.len() && a.trail[j] == v {
            let j = choose|j: int| k <= j < a.trail.len() && a.trail[j] == v;
            if j <= mark {
                assert(k <= j < f.trail.len() && f.trail[j] == v);
                if j < mark {
                    assert(k <= j < q.trail.len() && q.trail[j] == v);
                } else {
                    assert(mark <= j < a.trail.len() && a.trail[j] == v);
                }
            } else {
                assert(mark + 1 <= j < a.trail.len() && a.trail[j] == v);
                assert(mark <= j < a.trail.len() && a.trail[j] == v);
                assert(a.trail[mark] != a.trail[j]);
            }
        } else {
            if exists|j: int| k <= j < f.trail.len() && f.trail[j] == v {
                let j = choose|j: int| k <= j < f.trail.len() && f.trail[j] == v;
                assert(k <= j < a.trail.len() && a.trail[j] == v);
            }
            if exists|j: int| k <= j < q.trail.len() && q.trail[j] == v {
                let j = choose|j: int| k <= j < q.trail.len() && q.trail[j] == v;
                assert(k <= j < a.trail.len() && a.trail[j] == v);
            }
            assert(!(exists|j: int| mark <= j < a.trail.len() && a.trail[j] == v)) by {
                if exists|j: int| mark <= j < a.trail.len() && a.trail[j] == v {
                    let j = choose|j: int| mark <= j < a.trail.len() && a.trail[j] == v;
                    assert(k <= j < a.trail.len() && a.trail[j] == v);
                }
            }
            assert(!(exists|j: int| mark + 1 <= j < a.trail.len() && a.trail[j] == v)) by {
                if exists|j: int| mark + 1 <= j < a.trail.len() && a.trail[j] == v {
                    let j = choose|j: int| mark + 1 <= j < a.trail.len() && a.trail[j] == v;
                    assert(k <= j < a.trail.len() && a.trail[j] == v);
                }
            }
            assert(v != d) by {
                if v == d {
                    assert(k <= mark < a.trail.len() && a.trail[mark] == v);
                }
            }
        }
    }
    assert(f.cleared_from(k) =~= a.cleared_from(k));
    assert(q.cleared_from(k) =~= a.cleared_from(k));
    let before = a.cleared_from(mark);
    assert(before[d] == OptBool::Unassigned) by {
        assert(mark <= mark < a.trail.len() && a.trail[mark] == d);
    }
    assert forall|v: int| 0 <= v < a.state.len() implies f.state[v] == before.update(
        d,
        OptBool::False,
    )[v] by {
        if v != d {
            if exists|j: int| mark <= j < a.trail.len() && a.trail[j] == v {
                let j = choose|j: int| mark <= j < a.trail.len() && a.trail[j] == v;
                assert(mark + 1 <= j < a.trail.len() && a.trail[j] == v);
            }
            if exists|j: int| mark + 1 <= j < a.trail.len() && a.trail[j] == v {
                let j = choose|j: int| mark + 1 <= j < a.trail.len() && a.trail[j] == v;
                assert(mark <= j < a.trail.len() && a.trail[j] == v);
            }
        }
    }
    assert(f.state =~= before.update(d, OptBool::False));
}

/// Switching the last decision to its second branch stirs only clauses
/// that hold the positive literal of its variable. Switching and removing
/// the level keep the levels safe.
pub proof fn lemma_backtrack_safe(formula: Seq<Seq<Lit>>, a: AssignmentView, units_count: bool)
    requires
        a.wf(),
        formula_in_range(formula, a.state.len()),
        levels_safe(formula, a, units_count),
        a.can_backtrack(),
    ensures
        covered(
            formula,
            a.flipped().state,
            seq![Lit::spec_new(a.trail[a.marks.last() as int], true)],
            Set::empty(),
            units_count,
        ),
        levels_safe(formula, a.flipped(), units_count),
        levels_safe(formula, a.popped(), units_count),
{
    let last = a.marks.len() - 1;
    let mark = a.marks[last] as int;
    let d = a.trail[mark];
    let f = a.flipped();
    let q = a.popped();
    let before = a.cleared_from(mark);
    a.lemma_backtracked_once_wf();
    a.lemma_trail_counts_assigned();
    lemma_cleared_backtrack(a, mark);
    assert(quiet(formula, a.cleared_from(a.marks[last] as int), units_count));
    lemma_covered_quiet(formula, before, units_count);
    assert(d < a.state.len());
    lemma_assign_covered(formula, before, Seq::empty(), Set::empty(), d, false, units_count);
    assert(Seq::<Lit>::empty().push(Lit::spec_new(d, true)) =~= seq![Lit::spec_new(d, true)]);
    assert forall|level: int| f.initial_level <= level < f.marks.len() implies quiet(
        formula,
        f.cleared_from((#[trigger] f.marks[level]) as int),
        units_count,
    ) by {
        if level < last {
            assert(a.marks[level] < a.marks[last]);
        }
        lemma_cleared_backtrack(a, a.marks[level] as int);
    }
    assert forall|level: int| q.initial_level <= level < q.marks.len() implies quiet(
        formula,
        q.cleared_from((#[trigger] q.marks[level]) as int),
        units_count,
    ) by {
        assert(q.marks[level] == a.marks[level]);
        assert(a.marks[level] < a.marks[last]);
        lemma_cleared_backtrack(a, a.marks[level] as int);
    }
}

/// A total assignment under which no clause is falsified satisfies the
/// formula.
pub proof fn lemma_complete_is_model(formula: Seq<Seq<Lit>>, state: Seq<OptBool>)
    requires
        formula_in_range(formula, state.len()),
        conflict_free(formula, state),
        forall|v: int| 0 <= v < state.len() ==> state[v] != OptBool::Unassigned,
    ensures
        is_model(formula, state.len(), solution_of(state)),
{
    let solution = solution_of(state);
    assert forall|c: int| 0 <= c < formula.len() implies clause_satisfied_by(
        #[trigger] formula[c],
        solution,
    ) by {
        let clause = formula[c];
        assert(clause_in_range(clause, state.len()));
        assert(!clause_falsified(state, clause));
        let i = choose|i: int| 0 <= i < clause.len() && !lit_false(state, #[trigger] clause[i]);
        assert(state[clause[i].spec_var() as int] != OptBool::Unassigned);
        assert(clause[i].spec_eval_with(solution[clause[i].spec_var() as int]));
    }
}

/// Three to the power of `e`.
pub open spec fn pow3(e: nat) -> nat
    decreases e,
{
    if e == 0 {
        1
    } else {
        3 * pow3((e - 1) as nat)
    }
}

/// The digit of a level: 1 on the first branch, 2 on the second.
pub open spec fn branch_digit(a: AssignmentView, level: int) -> nat {
    if a.state[a.decision_var(level) as int] == OptBool::True {
        1
    } else {
        2
    }
}

/// The weight of the `k`-th digit behind the initial levels when `depth`
/// digits are counted in all.
pub open spec fn digit_weight(depth: nat, k: int) -> nat {
    pow3((depth - k) as nat)
}

/// How far the search has come: the branches of the levels `initial_level`
/// to `upto`, read as a number of `depth` digits to the base three. Every
/// decision and every switch to a second branch makes the number larger.
pub open spec fn progress(a: AssignmentView, upto: int, depth: nat) -> nat
    decreases upto - a.initial_level,
{
    if upto <= a.initial_level {
        0
    } else {
        progress(a, upto - 1, depth) + branch_digit(a, upto - 1) * digit_weight(
            depth,
            upto - a.initial_level,
        )
    }
}

/// The marks are no more than the trail entries.
pub proof fn lemma_marks_bounded(a: AssignmentView, level: int)
    requires
        a.wf(),
        0 <= level < a.marks.len(),
    ensures
        level <= a.marks[level],
        a.marks.len() <= a.trail.len() <= a.state.len(),
{
    a.lemma_trail_counts_assigned();
    lemma_mark_at_least(a, level);
    lemma_mark_at_least(a, a.marks.len() - 1);
}

/// Each mark lies at or behind the place that its level numbers.
pub proof fn lemma_mark_at_least(a: AssignmentView, level: int)
    requires
        a.wf(),
        0 <= level < a.marks.len(),
    ensures
        level <= a.marks[level],
    decreases level,
{
    if level > 0 {
        lemma_mark_at_least(a, level - 1);
        assert(a.marks[level - 1] < a.marks[level]);
    }
}

/// Two assignments with the same decisions on the same levels below `upto`.
pub open spec fn same_levels(a: AssignmentView, b: AssignmentView, upto: int) -> bool {
    &&& a.initial_level == b.initial_level
    &&& forall|level: int|
        a.initial_level <= level < upto ==> #[trigger] branch_digit(a, level) == branch_digit(
            b,
            level,
        )
}

/// The progress below `upto` depends on the levels below `upto` only.
pub proof fn lemma_progress_same(a: AssignmentView, b: AssignmentView, upto: int, depth: nat)
    requires
        same_levels(a, b, upto),
    ensures
        progress(a, upto, depth) == progress(b, upto, depth),
    decreases upto - a.initial_level,
{
    if upto > a.initial_level {
        lemma_progress_same(a, b, upto - 1, depth);
        assert(branch_digit(a, upto - 1) == branch_digit(b, upto - 1));
    }
}

/// The levels above `lower` add less to the progress than one step of the
/// digit of level `lower - 1` is worth.
pub proof fn lemma_progress_tail(a: AssignmentView, lower: int, upper: int, depth: nat)
    requires
        a.initial_level <= lower <= upper,
        upper - a.initial_level <= depth,
    ensures
        progress(a, upper, depth) + digit_weight(depth, upper - a.initial_level) <= progress(
            a,
            lower,
            depth,
        ) + digit_weight(depth, lower - a.initial_level),
        progress(a, lower, depth) <= progress(a, upper, depth),
        digit_weight(depth, upper - a.initial_level) >= 1,
    decreases upper - lower,
{
    lemma_pow3_positive((depth - (upper - a.initial_level)) as nat);
    if lower < upper {
        lemma_progress_tail(a, lower, upper - 1, depth);
        let k = upper - a.initial_level;
        let w = digit_weight(depth, k);
        assert(digit_weight(depth, k - 1) == 3 * w);
        let digit = branch_digit(a, upper - 1);
        assert(digit * w <= 2 * w) by (nonlinear_arith)
            requires
                digit <= 2,
        ;
        assert(digit * w >= 0) by (nonlinear_arith);
    }
}

/// A power of three is at least one.
pub proof fn lemma_pow3_positive(e: nat)
    ensures
        pow3(e) >= 1,
    decreases e,
{
    if e > 0 {
        lemma_pow3_positive((e - 1) as nat);
    }
}

/// The progress never reaches three to the power of the depth.
pub proof fn lemma_progress_bound(a: AssignmentView, depth: nat)
    requires
        a.wf(),
        a.marks.len() - a.initial_level <= depth,
    ensures
        progress(a, a.marks.len() as int, depth) < pow3(depth),
{
    lemma_progress_tail(a, a.initial_level as int, a.marks.len() as int, depth);
}

/// A decision makes the progress larger.
pub proof fn lemma_decide_progress(a: AssignmentView, var: usize, depth: nat)
    requires
        a.wf(),
        var < a.state.len(),
        !a.assigned(var as int),
        a.state.len() - a.initial_level <= depth,
    ensures
        progress(a, a.marks.len() as int, depth) < progress(
            a.decided(var),
            a.decided(var).marks.len() as int,
            depth,
        ),
{
    let d = a.decided(var);
    let levels = a.marks.len() as int;
    a.lemma_assign_wf(var, true);
    lemma_marks_bounded(d, levels);
    assert(same_levels(a, d, levels)) by {
        assert forall|level: int| a.initial_level <= level < levels implies #[trigger] branch_digit(
            a,
            level,
        ) == branch_digit(d, level) by {
            assert(d.marks[level] == a.marks[level]);
            assert(a.marks[level] < a.trail.len());
            assert(a.state[a.trail[a.marks[level] as int] as int] != OptBool::Unassigned);
        }
    }
    lemma_progress_same(a, d, levels, depth);
    lemma_pow3_positive((depth - (levels + 1 - a.initial_level)) as nat);
    assert(branch_digit(d, levels) * digit_weight(depth, levels + 1 - a.initial_level) >= 1)
        by (nonlinear_arith)
        requires
            branch_digit(d, levels) >= 1,
            digit_weight(depth, levels + 1 - a.initial_level) >= 1,
    ;
}

/// Extending the trail without a decision keeps the levels as they are.
pub proof fn lemma_same_upto_levels(a: AssignmentView, b: AssignmentView, depth: nat)
    requires
        a.wf(),
        same_upto(a, b, a.trail.len() as int),
        a.marks == b.marks,
    ensures
        progress(a, a.marks.len() as int, depth) == progress(b, b.marks.len() as int, depth),
{
    assert(same_levels(a, b, a.marks.len() as int)) by {
        assert forall|level: int|
            a.initial_level <= level < a.marks.len() implies #[trigger] branch_digit(a, level)
            == branch_digit(b, level) by {
            assert(a.marks[level] < a.trail.len());
            assert(a.trail[a.marks[level] as int] == b.trail[a.marks[level] as int]);
        }
    }
    lemma_progress_same(a, b, a.marks.len() as int, depth);
}

/// Backtracking that finds a branch to enter makes the progress larger.
pub proof fn lemma_backtrack_progress(a: AssignmentView, depth: nat)
    requires
        a.wf(),
        a.state.len() - a.initial_level <= depth,
        a.backtrack_result() is Some,
    ensures
        progress(a, a.marks.len() as int, depth) + digit_weight(
            depth,
            a.marks.len() - a.initial_level,
        ) <= progress(a.backtracked(), a.backtracked().marks.len() as int, depth),
        progress(a, a.marks.len() as int, depth) < progress(
            a.backtracked(),
            a.backtracked().marks.len() as int,
            depth,
        ),
    decreases a.marks.len(),
{
    let levels = a.marks.len() as int;
    let last = levels - 1;
    let k = levels - a.initial_level;
    lemma_marks_bounded(a, last);
    lemma_pow3_positive((depth - k) as nat);
    let w = digit_weight(depth, k);
    a.lemma_backtracked_once_wf();
    lemma_backtrack_same(a);
    let mark = a.marks[last] as int;
    if a.last_is_first_branch() {
        let f = a.flipped();
        assert(same_levels(a, f, last)) by {
            assert forall|level: int| a.initial_level <= level < last implies #[trigger] branch_digit(
                a,
                level,
            ) == branch_digit(f, level) by {
                assert(a.marks[level] < a.marks[last]);
                assert(a.trail[a.marks[level] as int] == f.trail[a.marks[level] as int]);
            }
        }
        lemma_progress_same(a, f, last, depth);
        assert(branch_digit(a, last) == 1);
        assert(f.trail[mark] == a.trail[mark]);
        assert(branch_digit(f, last) == 2);
        assert(1 * w == w && 2 * w == w + w) by (nonlinear_arith);
    } else {
        let q = a.popped();
        assert(same_levels(a, q, last)) by {
            assert forall|level: int| a.initial_level <= level < last implies #[trigger] branch_digit(
                a,
                level,
            ) == branch_digit(q, level) by {
                assert(a.marks[level] < a.marks[last]);
                assert(q.marks[level] == a.marks[level]);
                assert(a.trail[a.marks[level] as int] == q.trail[a.marks[level] as int]);
            }
        }
        lemma_progress_same(a, q, last, depth);
        lemma_backtrack_progress(q, depth);
        assert(branch_digit(a, last) == 2);
        assert(digit_weight(depth, k - 1) == 3 * w);
        assert(2 * w == w + w) by (nonlinear_arith);
    }
}

/// What backtracking leaves behind, for the models of `theory` and the
/// clauses of `formula`. Where it finds a branch to enter, every
/// place of the trail is justified again, and only clauses that hold the
/// literal just made false can be falsified or, where units count, force
/// a literal. Where it finds none, the
/// initial decisions are refuted. The initial decisions themselves are
/// never touched.
pub proof fn lemma_backtracked(
    theory: Seq<Seq<Lit>>,
    formula: Seq<Seq<Lit>>,
    a: AssignmentView,
    units_count: bool,
)
    requires
        a.wf(),
        formula_in_range(formula, a.state.len()),
        all_justified(theory, a),
        dead(theory, a),
    ensures
        a.backtracked().wf(),
        same_upto(a, a.backtracked(), a.initial_level as int),
        a.backtrack_result() is None ==> base_refuted(theory, a),
        a.backtrack_result() matches Some(falsified) ==> {
            &&& all_justified(theory, a.backtracked())
            &&& falsified.spec_var() < a.state.len()
            &&& levels_safe(formula, a, units_count) ==> levels_safe(
                formula,
                a.backtracked(),
                units_count,
            ) && covered(
                formula,
                a.backtracked().state,
                seq![falsified],
                Set::empty(),
                units_count,
            )
        },
    decreases a.marks.len(),
{
    a.lemma_backtracked_once_wf();
    lemma_marks_bounded_or_empty(a);
    if !a.can_backtrack() {
        lemma_exhausted(theory, a);
        assert(same_upto(a, a, a.initial_level as int));
    } else {
        let mark = a.marks.last() as int;
        lemma_backtrack_same(a);
        if a.last_is_first_branch() {
            lemma_flip_justified(theory, a);
            if levels_safe(formula, a, units_count) {
                lemma_backtrack_safe(formula, a, units_count);
            }
            lemma_same_upto_shrinks(a, a.flipped(), mark, a.initial_level as int);
            assert(a.trail[mark] < a.state.len());
        } else {
            let q = a.popped();
            lemma_pop_dead(theory, a);
            if levels_safe(formula, a, units_count) {
                lemma_backtrack_safe(formula, a, units_count);
            }
            lemma_backtracked(theory, formula, q, units_count);
            lemma_same_upto_shrinks(a, q, mark, a.initial_level as int);
            lemma_same_upto_chain(a, q, q.backtracked(), a.initial_level as int);
            if q.backtrack_result() is None {
                assert forall|model: Seq<bool>|
                    #![trigger agrees(model, a, a.initial_level as int)]
                    is_model(theory, a.state.len(), model) implies !agrees(
                    model,
                    a,
                    a.initial_level as int,
                ) by {
                    lemma_same_upto(theory, a, q, a.initial_level as int);
                    assert(!agrees(model, q, q.initial_level as int));
                }
            }
        }
    }
}

/// The initial levels lie inside the trail.
pub proof fn lemma_marks_bounded_or_empty(a: AssignmentView)
    requires
        a.wf(),
    ensures
        a.initial_level <= a.marks.len() <= a.trail.len() <= a.state.len(),
        a.initial_level <= a.trail.len(),
{
    a.lemma_trail_counts_assigned();
    if a.marks.len() > 0 {
        lemma_marks_bounded(a, a.marks.len() - 1);
    }
}

/// Assignments that share `k` places share any fewer.
pub proof fn lemma_same_upto_shrinks(a: AssignmentView, b: AssignmentView, k: int, fewer: int)
    requires
        same_upto(a, b, k),
        0 <= fewer <= k,
    ensures
        same_upto(a, b, fewer),
{
}

/// Sharing the first `k` places carries over from one assignment to the
/// next.
pub proof fn lemma_same_upto_chain(a: AssignmentView, b: AssignmentView, c: AssignmentView, k: int)
    requires
        same_upto(a, b, k),
        same_upto(b, c, k),
    ensures
        same_upto(a, c, k),
{
    assert forall|j: int| 0 <= j < k implies (#[trigger] a.trail[j]) == c.trail[j] by {
        assert(a.trail[j] == b.trail[j]);
    }
    assert forall|j: int| 0 <= j < k implies a.state[(#[trigger] a.trail[j]) as int] == c.state[a.trail[j] as int] by {
        assert(a.trail[j] == b.trail[j]);
        assert(b.state[b.trail[j] as int] == c.state[b.trail[j] as int]);
    }
    assert forall|j: usize| j < k implies (#[trigger] a.marks.contains(j)) == c.marks.contains(
        j,
    ) by {
        assert(a.marks.contains(j) == b.marks.contains(j));
        assert(b.marks.contains(j) == c.marks.contains(j));
    }
}

/// The clause that rules a cube out: the inverses of its literals.
pub open spec fn blocking_clause(cube: Seq<Lit>) -> Seq<Lit> {
    Seq::new(cube.len(), |i: int| cube[i].spec_inverted())
}

/// The clauses that rule the cubes out, one for each.
pub open spec fn blocking_clauses(cubes: Seq<Seq<Lit>>) -> Seq<Seq<Lit>> {
    Seq::new(cubes.len(), |k: int| blocking_clause(cubes[k]))
}

/// The formula together with the clauses that rule out the cubes already
/// handed out: what is left to search.
pub open spec fn theory_of(formula: Seq<Seq<Lit>>, cubes: Seq<Seq<Lit>>) -> Seq<Seq<Lit>> {
    formula + blocking_clauses(cubes)
}

/// The total assignment makes every literal of the cube true.
pub open spec fn extends_cube(model: Seq<bool>, cube: Seq<Lit>) -> bool {
    forall|i: int|
        0 <= i < cube.len() ==> (#[trigger] cube[i]).spec_eval_with(
            model[cube[i].spec_var() as int],
        )
}

/// Two cubes that hold a variable with opposite polarities: no total
/// assignment extends both.
pub open spec fn cubes_disjoint(one: Seq<Lit>, other: Seq<Lit>) -> bool {
    exists|i: int, j: int|
        0 <= i < one.len() && 0 <= j < other.len() && (#[trigger] one[i]).spec_var() == (
        #[trigger] other[j]).spec_var() && one[i].spec_is_pos() != other[j].spec_is_pos()
}

/// Every model of `narrow` is a model of `wide`.
pub open spec fn refines(narrow: Seq<Seq<Lit>>, wide: Seq<Seq<Lit>>, num_vars: nat) -> bool {
    forall|model: Seq<bool>|
        is_model(narrow, num_vars, model) ==> #[trigger] is_model(wide, num_vars, model)
}

/// The models of a theory are the models of the formula that extend none
/// of the cubes handed out.
pub proof fn lemma_theory_models(
    formula: Seq<Seq<Lit>>,
    cubes: Seq<Seq<Lit>>,
    num_vars: nat,
    model: Seq<bool>,
)
    ensures
        is_model(theory_of(formula, cubes), num_vars, model) <==> is_model(
            formula,
            num_vars,
            model,
        ) && forall|k: int| 0 <= k < cubes.len() ==> !extends_cube(model, #[trigger] cubes[k]),
{
    let theory = theory_of(formula, cubes);
    if is_model(theory, num_vars, model) {
        assert forall|c: int| 0 <= c < formula.len() implies clause_satisfied_by(
            #[trigger] formula[c],
            model,
        ) by {
            assert(theory[c] == formula[c]);
        }
        assert forall|k: int| 0 <= k < cubes.len() implies !extends_cube(
            model,
            #[trigger] cubes[k],
        ) by {
            let blocking = theory[formula.len() + k];
            assert(blocking == blocking_clause(cubes[k]));
            assert(clause_satisfied_by(blocking, model));
            let i = choose|i: int|
                0 <= i < blocking.len() && (#[trigger] blocking[i]).spec_eval_with(
                    model[blocking[i].spec_var() as int],
                );
            assert(!cubes[k][i].spec_eval_with(model[cubes[k][i].spec_var() as int]));
        }
    }
    if is_model(formula, num_vars, model) && forall|k: int|
        0 <= k < cubes.len() ==> !extends_cube(model, #[trigger] cubes[k]) {
        assert forall|c: int| 0 <= c < theory.len() implies clause_satisfied_by(
            #[trigger] theory[c],
            model,
        ) by {
            if c < formula.len() {
                assert(theory[c] == formula[c]);
            } else {
                let k = c - formula.len();
                assert(theory[c] == blocking_clause(cubes[k]));
                assert(!extends_cube(model, cubes[k]));
                let i = choose|i: int|
                    0 <= i < cubes[k].len() && !(#[trigger] cubes[k][i]).spec_eval_with(
                        model[cubes[k][i].spec_var() as int],
                    );
                assert(blocking_clause(cubes[k])[i].spec_eval_with(
                    model[blocking_clause(cubes[k])[i].spec_var() as int],
                ));
            }
        }
    }
}

/// A theory has no more models than its formula, and a theory with one
/// more cube handed out no more than before.
pub proof fn lemma_theory_refines(formula: Seq<Seq<Lit>>, cubes: Seq<Seq<Lit>>, cube: Seq<Lit>, num_vars: nat)
    ensures
        refines(theory_of(formula, cubes), formula, num_vars),
        refines(theory_of(formula, cubes.push(cube)), theory_of(formula, cubes), num_vars),
{
    assert forall|model: Seq<bool>|
        is_model(theory_of(formula, cubes), num_vars, model) implies #[trigger] is_model(
        formula,
        num_vars,
        model,
    ) by {
        lemma_theory_models(formula, cubes, num_vars, model);
    }
    assert forall|model: Seq<bool>|
        is_model(
            theory_of(formula, cubes.push(cube)),
            num_vars,
            model,
        ) implies #[trigger] is_model(theory_of(formula, cubes), num_vars, model) by {
        lemma_theory_models(formula, cubes.push(cube), num_vars, model);
        lemma_theory_models(formula, cubes, num_vars, model);
        assert forall|k: int| 0 <= k < cubes.len() implies !extends_cube(
            model,
            #[trigger] cubes[k],
        ) by {
            assert(cubes.push(cube)[k] == cubes[k]);
        }
    }
}

/// What holds of the models of a formula holds of the models of a
/// formula with fewer models.
pub proof fn lemma_refines(narrow: Seq<Seq<Lit>>, wide: Seq<Seq<Lit>>, a: AssignmentView)
    requires
        refines(narrow, wide, a.state.len()),
    ensures
        forall|p: int| forced(wide, a, p) ==> #[trigger] forced(narrow, a, p),
        all_justified(wide, a) ==> all_justified(narrow, a),
        dead(wide, a) ==> dead(narrow, a),
{
    assert forall|p: int| forced(wide, a, p) implies #[trigger] forced(narrow, a, p) by {
        assert forall|model: Seq<bool>|
            #![trigger agrees(model, a, p)]
            is_model(narrow, a.state.len(), model) && agrees(model, a, p) implies model[a.trail[p] as int]
            == value_at(a, p) by {
            assert(is_model(wide, a.state.len(), model));
        }
    }
    if all_justified(wide, a) {
        assert forall|p: int| a.initial_level <= p < a.trail.len() implies #[trigger] justified(
            narrow,
            a,
            p,
        ) by {
            assert(justified(wide, a, p));
        }
    }
    if dead(wide, a) {
        assert forall|model: Seq<bool>|
            #![trigger agrees(model, a, a.trail.len() as int)]
            is_model(narrow, a.state.len(), model) implies !agrees(
            model,
            a,
            a.trail.len() as int,
        ) by {
            assert(is_model(wide, a.state.len(), model));
        }
    }
}

/// Once the decisions of the trail are handed out as a cube, no model of
/// what is left agrees with the trail.
pub proof fn lemma_handed_out_dead(formula: Seq<Seq<Lit>>, cubes: Seq<Seq<Lit>>, a: AssignmentView)
    requires
        a.wf(),
    ensures
        dead(theory_of(formula, cubes.push(a.decisions())), a),
{
    let cube = a.decisions();
    let theory = theory_of(formula, cubes.push(cube));
    assert forall|model: Seq<bool>|
        #![trigger agrees(model, a, a.trail.len() as int)]
        is_model(theory, a.state.len(), model) implies !agrees(
        model,
        a,
        a.trail.len() as int,
    ) by {
        if agrees(model, a, a.trail.len() as int) {
            lemma_theory_models(formula, cubes.push(cube), a.state.len(), model);
            assert(cubes.push(cube)[cubes.len() as int] == cube);
            assert(!extends_cube(model, cube));
            let level = choose|level: int|
                0 <= level < cube.len() && !(#[trigger] cube[level]).spec_eval_with(
                    model[cube[level].spec_var() as int],
                );
            let p = a.marks[level] as int;
            assert(a.trail[p] < a.state.len());
            assert(model[a.trail[p] as int] == value_at(a, p));
            assert(cube[level] == a.decision_lit(level));
        }
    }
}

} // verus!
