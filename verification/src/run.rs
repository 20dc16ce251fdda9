//! The run of the search as a function of its start: which variable is
//! decided next, what unit propagation leaves behind, what one step of
//! the search does, and what the search returns in the end.
//!
//! The solver's contracts say that it does exactly this. So two runs from
//! the same formula, assignment and activity return the same.

use crate::clause::{clause_state, ClauseState};
use crate::indexed_heap::outranks;
use crate::lit::Lit;
use crate::opt_bool::OptBool;
use crate::partial_assignment::{solution_of, AssignmentView};
use crate::problem::lit_occurrences;
use crate::vsids::Activity;
use vstd::prelude::*;

verus! {

/// `var` is the variable to decide next: it has no value, and no variable
/// without a value outranks it.
pub open spec fn is_top_unassigned(scores: Seq<u64>, state: Seq<OptBool>, var: usize) -> bool {
    &&& var < state.len()
    &&& state[var as int] == OptBool::Unassigned
    &&& forall|u: usize|
        u < state.len() && state[u as int] == OptBool::Unassigned ==> !outranks(scores, u, var)
}

/// The variable to decide next: among the variables without a value the
/// one of the highest score, and of these the one of the smallest id.
pub open spec fn top_unassigned(scores: Seq<u64>, state: Seq<OptBool>) -> usize {
    choose|var: usize| is_top_unassigned(scores, state, var)
}

/// There is only one variable to decide next.
pub proof fn lemma_top_unassigned(scores: Seq<u64>, state: Seq<OptBool>, var: usize)
    requires
        is_top_unassigned(scores, state, var),
    ensures
        top_unassigned(scores, state) == var,
{
    let top = top_unassigned(scores, state);
    assert(is_top_unassigned(scores, state, top));
    assert(!outranks(scores, top, var));
    assert(!outranks(scores, var, top));
}

/// What unit propagation leaves behind: the assignment, and the clause
/// that it found falsified, if it found one.
pub struct Propagation {
    pub a: AssignmentView,
    pub conflict: Option<usize>,
}

/// Unit propagation. The clauses `listed[k..]` are looked at in turn, then
/// the clauses of the last pending literal, and so on until no literal is
/// pending. A falsified clause ends it. The literal of a unit clause is
/// made true, and its inverse joins the pending literals.
pub open spec fn propagation(
    formula: Seq<Seq<Lit>>,
    a: AssignmentView,
    pending: Seq<Lit>,
    listed: Seq<usize>,
    k: int,
) -> Propagation
    decreases a.state.len() - a.trail.len(), pending.len(), listed.len() - k,
{
    if 0 <= k < listed.len() {
        match clause_state(a.state, formula[listed[k] as int]) {
            ClauseState::Unsatisfied => Propagation { a, conflict: Some(listed[k]) },
            ClauseState::Unit(unit) => if a.trail.len() < a.state.len() && unit.spec_var()
                < a.state.len() {
                propagation(
                    formula,
                    a.propagated(unit.spec_var(), unit.spec_is_pos()),
                    pending.push(unit.spec_inverted()),
                    listed,
                    k + 1,
                )
            } else {
                Propagation { a, conflict: None }
            },
            _ => propagation(formula, a, pending, listed, k + 1),
        }
    } else if pending.len() > 0 {
        propagation(
            formula,
            a,
            pending.drop_last(),
            lit_occurrences(formula, pending.last()),
            0,
        )
    } else {
        Propagation { a, conflict: None }
    }
}

/// The ids of the first `n` clauses, in their order.
pub open spec fn all_ids(n: nat) -> Seq<usize> {
    Seq::new(n, |c: int| c as usize)
}

/// The variables of the literals of a clause, in their order.
pub open spec fn vars_of(clause: Seq<Lit>) -> Seq<usize> {
    Seq::new(clause.len(), |i: int| clause[i].spec_var())
}

/// The activity after a conflict in `clause`: its variables are bumped
/// and the conflict is counted.
pub open spec fn after_conflict(activity: Activity, clause: Seq<Lit>) -> Activity {
    activity.bumped_all(vars_of(clause)).decayed()
}

/// The activity after a round of propagation.
pub open spec fn after_propagation(
    formula: Seq<Seq<Lit>>,
    activity: Activity,
    found: Propagation,
) -> Activity {
    match found.conflict {
        Some(c) => after_conflict(activity, formula[c as int]),
        None => activity,
    }
}

/// Where the search stands: the assignment and the activity.
pub struct SearchState {
    pub a: AssignmentView,
    pub activity: Activity,
}

/// The start of a search without initial decisions: no variable has a
/// value, the scores are the given ones, and the increment is one.
pub open spec fn fresh_start(num_vars: nat, scores: Seq<u64>) -> SearchState {
    SearchState {
        a: AssignmentView {
            state: Seq::new(num_vars, |v: int| OptBool::Unassigned),
            trail: Seq::empty(),
            marks: Seq::empty(),
            initial_level: 0,
        },
        activity: Activity { scores, increment: crate::vsids::ACTIVITY_ONE },
    }
}

/// What one step of the search does.
pub enum Step {
    /// Every variable has a value.
    Sat(SearchState),
    /// A clause is falsified.
    Conflict(SearchState),
    /// A decision was made; the literal is the one that it made false.
    Decided(Lit, SearchState),
}

/// The search after the most active variable without a value was decided
/// true, and the literal that this has made false.
pub open spec fn decision(s: SearchState) -> (Lit, SearchState) {
    let var = top_unassigned(s.activity.scores, s.a.state);
    (Lit::spec_new(var, false), SearchState { a: s.a.decided(var), ..s })
}

/// One step of the search: propagation from the literal that has just
/// become false, and a decision if that settles nothing.
pub open spec fn step_of(formula: Seq<Seq<Lit>>, s: SearchState, falsified: Lit) -> Step {
    let found = propagation(formula, s.a, seq![falsified], Seq::empty(), 0);
    let next = SearchState { a: found.a, activity: after_propagation(formula, s.activity, found) };
    if found.conflict is Some {
        Step::Conflict(next)
    } else if found.a.trail.len() == found.a.state.len() {
        Step::Sat(next)
    } else {
        let (made_false, decided) = decision(next);
        Step::Decided(made_false, decided)
    }
}

/// The search for at most `fuel` steps from the literal that has just
/// become false. The outcome is a total assignment, or nothing where every
/// branch has failed. There is no outcome where the steps do not suffice.
pub open spec fn search_from(
    fuel: nat,
    formula: Seq<Seq<Lit>>,
    s: SearchState,
    falsified: Lit,
) -> Option<Option<Seq<bool>>>
    decreases fuel,
{
    if fuel == 0 {
        None
    } else {
        match step_of(formula, s, falsified) {
            Step::Sat(next) => Some(Some(solution_of(next.a.state))),
            Step::Decided(made_false, next) => search_from(
                (fuel - 1) as nat,
                formula,
                next,
                made_false,
            ),
            Step::Conflict(next) => match next.a.backtrack_result() {
                None => Some(None),
                Some(made_false) => search_from(
                    (fuel - 1) as nat,
                    formula,
                    SearchState { a: next.a.backtracked(), ..next },
                    made_false,
                ),
            },
        }
    }
}

/// The search from a start at which some variable has no value: a first
/// decision, and then step by step.
pub open spec fn search(fuel: nat, formula: Seq<Seq<Lit>>, s: SearchState) -> Option<
    Option<Seq<bool>>,
> {
    let (made_false, decided) = decision(s);
    search_from(fuel, formula, decided, made_false)
}

/// More steps do not change an outcome.
pub proof fn lemma_search_more(
    fewer: nat,
    more: nat,
    formula: Seq<Seq<Lit>>,
    s: SearchState,
    falsified: Lit,
)
    requires
        fewer <= more,
        search_from(fewer, formula, s, falsified) is Some,
    ensures
        search_from(more, formula, s, falsified) == search_from(fewer, formula, s, falsified),
    decreases fewer,
{
    if fewer > 0 {
        match step_of(formula, s, falsified) {
            Step::Sat(next) => {},
            Step::Decided(made_false, next) => {
                lemma_search_more((fewer - 1) as nat, (more - 1) as nat, formula, next, made_false);
            },
            Step::Conflict(next) => {
                match next.a.backtrack_result() {
                    None => {},
                    Some(made_false) => {
                        lemma_search_more(
                            (fewer - 1) as nat,
                            (more - 1) as nat,
                            formula,
                            SearchState { a: next.a.backtracked(), ..next },
                            made_false,
                        );
                    },
                }
            },
        }
    }
}

/// The outcome of the search is a function of its start: two runs from the
/// same formula, assignment and activity, each of which has come to an
/// outcome within its steps, have come to the same.
pub proof fn lemma_search_determined(
    one: nat,
    other: nat,
    formula: Seq<Seq<Lit>>,
    s: SearchState,
)
    requires
        search(one, formula, s) is Some,
        search(other, formula, s) is Some,
    ensures
        search(one, formula, s) == search(other, formula, s),
{
    let (made_false, decided) = decision(s);
    if one <= other {
        lemma_search_more(one, other, formula, decided, made_false);
    } else {
        lemma_search_more(other, one, formula, decided, made_false);
    }
}

/// Two runs of the search from the same start return the same: both
/// nothing, or both the same assignment.
pub proof fn lemma_runs_agree(
    formula: Seq<Seq<Lit>>,
    s: SearchState,
    one: Option<Seq<bool>>,
    other: Option<Seq<bool>>,
)
    requires
        exists|fuel: nat| #[trigger] search(fuel, formula, s) == Some(one),
        exists|fuel: nat| #[trigger] search(fuel, formula, s) == Some(other),
    ensures
        one == other,
{
    let first = choose|fuel: nat| #[trigger] search(fuel, formula, s) == Some(one);
    let second = choose|fuel: nat| #[trigger] search(fuel, formula, s) == Some(other);
    lemma_search_determined(first, second, formula, s);
}

} // verus!
