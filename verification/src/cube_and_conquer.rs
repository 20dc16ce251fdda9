//! Splitting a formula into cubes: partial decision paths that tile the
//! search space, so that each can be searched on its own.

use crate::clause::{clause_falsified, lit_false};
use crate::decision_path::{
    lemma_path_assignment, path_assignment, path_distinct, path_in_range, DecisionPath,
};
use crate::dpll::{DPLLSolver, UnitPropagationResult};
use crate::lit::Lit;
use crate::models::{
    agrees, base_refuted, conflict_free, cubes_disjoint, extends_cube, is_model,
    lemma_backtrack_progress, lemma_complete_is_model, lemma_decide_progress,
    lemma_marks_bounded_or_empty, lemma_progress_bound, lemma_same_upto_levels,
    lemma_theory_models, pow3, progress,
};
use crate::opt_bool::OptBool;
use crate::partial_assignment::{solution_of, AssignmentView};
use crate::problem::Problem;
use crate::run::{after_propagation, all_ids, decision, propagation, SearchState};
use vstd::prelude::*;

verus! {

/// What the cube generator hands out.
#[derive(Debug)]
pub enum CubeGenerationResult {
    /// A satisfying assignment, found while splitting.
    SAT(Vec<bool>),
    /// The formula has no satisfying assignment.
    UNSAT,
    /// A decision path that unit propagation has not refuted.
    Cube(DecisionPath),
}

/// Where the generator stands.
#[derive(Debug, Clone, Copy, PartialEq, Eq, Structural)]
pub enum CubePhase {
    /// Nothing was done yet.
    Root,
    /// A branch was entered; this literal has just become false.
    Entered(Lit),
    /// The present branch is done.
    Leaving,
    /// A satisfying assignment was found, or the formula refuted at once.
    Settled,
    /// Every branch was refuted or handed out as a cube.
    Exhausted,
}

/// What the generator hands out, as plain values.
pub enum Yield {
    /// A satisfying assignment.
    Sat(Seq<bool>),
    /// The formula has no satisfying assignment.
    Unsat,
    /// A cube: the decisions of a branch.
    Cube(Seq<Lit>),
}

/// The plain value of a result.
pub open spec fn plain(result: CubeGenerationResult) -> Yield {
    match result {
        CubeGenerationResult::SAT(values) => Yield::Sat(values@),
        CubeGenerationResult::UNSAT => Yield::Unsat,
        CubeGenerationResult::Cube(path) => Yield::Cube(path@),
    }
}

/// The plain value of what `next` returns.
pub open spec fn yield_of(result: Option<CubeGenerationResult>) -> Option<Yield> {
    match result {
        None => None,
        Some(handed) => Some(plain(handed)),
    }
}

/// The plain values of a list of results.
pub open spec fn plain_all(results: Seq<CubeGenerationResult>) -> Seq<Yield> {
    Seq::new(results.len(), |i: int| plain(results[i]))
}

/// Where the generator stands, as plain values: the search, the phase, and
/// whether a cube was handed out.
pub struct CubeState {
    pub s: SearchState,
    pub phase: CubePhase,
    pub any: bool,
}

/// One turn of the generator: what it hands out, if it hands anything out
/// in this turn, and where it stands afterwards.
///
/// At the root every clause is looked at once. A branch that was entered
/// is propagated from the literal that has just become false: a conflict
/// means leaving it, a total assignment ends the generation, a branch of
/// the depth asked for is handed out as a cube and left, and in any other
/// branch the most active variable without a value is decided. Leaving a
/// branch is backtracking; where no level is left, the generation is over,
/// and the formula refuted if no cube went before.
pub open spec fn turn(formula: Seq<Seq<Lit>>, depth: nat, g: CubeState) -> (
    Option<Option<Yield>>,
    CubeState,
) {
    match g.phase {
        CubePhase::Settled => (Some(None), g),
        CubePhase::Exhausted => (Some(None), g),
        CubePhase::Root => {
            let found = propagation(formula, g.s.a, Seq::empty(), all_ids(formula.len()), 0);
            let next = SearchState {
                a: found.a,
                activity: after_propagation(formula, g.s.activity, found),
            };
            if found.conflict is Some {
                (Some(Some(Yield::Unsat)), CubeState { s: next, phase: CubePhase::Settled, ..g })
            } else if found.a.trail.len() == found.a.state.len() {
                (
                    Some(Some(Yield::Sat(solution_of(found.a.state)))),
                    CubeState { s: next, phase: CubePhase::Settled, ..g },
                )
            } else {
                let (made_false, decided) = decision(next);
                (None, CubeState { s: decided, phase: CubePhase::Entered(made_false), ..g })
            }
        },
        CubePhase::Entered(falsified) => {
            let found = propagation(formula, g.s.a, seq![falsified], Seq::empty(), 0);
            let next = SearchState {
                a: found.a,
                activity: after_propagation(formula, g.s.activity, found),
            };
            if found.conflict is Some {
                (None, CubeState { s: next, phase: CubePhase::Leaving, ..g })
            } else if found.a.trail.len() == found.a.state.len() {
                (
                    Some(Some(Yield::Sat(solution_of(found.a.state)))),
                    CubeState { s: next, phase: CubePhase::Settled, ..g },
                )
            } else if found.a.marks.len() >= depth {
                (
                    Some(Some(Yield::Cube(found.a.decisions()))),
                    CubeState { s: next, phase: CubePhase::Leaving, any: true },
                )
            } else {
                let (made_false, decided) = decision(next);
                (None, CubeState { s: decided, phase: CubePhase::Entered(made_false), ..g })
            }
        },
        CubePhase::Leaving => {
            let back = SearchState { a: g.s.a.backtracked(), ..g.s };
            match g.s.a.backtrack_result() {
                Some(made_false) => (
                    None,
                    CubeState { s: back, phase: CubePhase::Entered(made_false), ..g },
                ),
                None => if !g.any {
                    (Some(Some(Yield::Unsat)), CubeState { s: back, phase: CubePhase::Settled, ..g })
                } else {
                    (Some(None), CubeState { s: back, phase: CubePhase::Exhausted, ..g })
                },
            }
        },
    }
}

/// The generator run for at most `fuel` turns, until it hands something
/// out or ends: what it hands out, and where it stands then. There is no
/// outcome where the turns do not suffice.
pub open spec fn next_of(fuel: nat, formula: Seq<Seq<Lit>>, depth: nat, g: CubeState) -> Option<
    (Option<Yield>, CubeState),
>
    decreases fuel,
{
    if fuel == 0 {
        None
    } else {
        let (out, after) = turn(formula, depth, g);
        match out {
            Some(handed) => Some((handed, after)),
            None => next_of((fuel - 1) as nat, formula, depth, after),
        }
    }
}

/// More turns do not change what the generator hands out next.
pub proof fn lemma_next_more(
    fewer: nat,
    more: nat,
    formula: Seq<Seq<Lit>>,
    depth: nat,
    g: CubeState,
)
    requires
        fewer <= more,
        next_of(fewer, formula, depth, g) is Some,
    ensures
        next_of(more, formula, depth, g) == next_of(fewer, formula, depth, g),
    decreases fewer,
{
    if fewer > 0 {
        let (out, after) = turn(formula, depth, g);
        if out is None {
            lemma_next_more((fewer - 1) as nat, (more - 1) as nat, formula, depth, after);
        }
    }
}

/// What the generator hands out next is a function of where it stands:
/// two runs from the same formula, depth and state hand out the same, and
/// stand alike afterwards.
pub proof fn lemma_next_determined(
    formula: Seq<Seq<Lit>>,
    depth: nat,
    g: CubeState,
    one: (Option<Yield>, CubeState),
    other: (Option<Yield>, CubeState),
)
    requires
        exists|fuel: nat| #[trigger] next_of(fuel, formula, depth, g) == Some(one),
        exists|fuel: nat| #[trigger] next_of(fuel, formula, depth, g) == Some(other),
    ensures
        one == other,
{
    let first = choose|fuel: nat| #[trigger] next_of(fuel, formula, depth, g) == Some(one);
    let second = choose|fuel: nat| #[trigger] next_of(fuel, formula, depth, g) == Some(other);
    if first <= second {
        lemma_next_more(first, second, formula, depth, g);
    } else {
        lemma_next_more(second, first, formula, depth, g);
    }
}

/// All that the generator hands out from where it stands, within `fuel`
/// turns for each result and `fuel` results: cube after cube, and at the
/// end a satisfying assignment, or the finding that there is none, or
/// nothing more.
pub open spec fn run_of(fuel: nat, formula: Seq<Seq<Lit>>, depth: nat, g: CubeState) -> Option<
    Seq<Yield>,
>
    decreases fuel,
{
    if fuel == 0 {
        None
    } else {
        match next_of(fuel, formula, depth, g) {
            None => None,
            Some((None, _)) => Some(Seq::empty()),
            Some((Some(Yield::Cube(cube)), after)) => match run_of(
                (fuel - 1) as nat,
                formula,
                depth,
                after,
            ) {
                Some(rest) => Some(seq![Yield::Cube(cube)] + rest),
                None => None,
            },
            Some((Some(other), _)) => Some(seq![other]),
        }
    }
}

/// More fuel does not change what the generator hands out in all.
pub proof fn lemma_run_more(
    fewer: nat,
    more: nat,
    formula: Seq<Seq<Lit>>,
    depth: nat,
    g: CubeState,
)
    requires
        fewer <= more,
        run_of(fewer, formula, depth, g) is Some,
    ensures
        run_of(more, formula, depth, g) == run_of(fewer, formula, depth, g),
    decreases fewer,
{
    if fewer > 0 {
        lemma_next_more(fewer, more, formula, depth, g);
        match next_of(fewer, formula, depth, g) {
            Some((Some(Yield::Cube(cube)), after)) => {
                lemma_run_more((fewer - 1) as nat, (more - 1) as nat, formula, depth, after);
            },
            _ => {},
        }
    }
}

/// All that the generator hands out is a function of where it stands.
pub proof fn lemma_run_determined(
    formula: Seq<Seq<Lit>>,
    depth: nat,
    g: CubeState,
    one: Seq<Yield>,
    other: Seq<Yield>,
)
    requires
        exists|fuel: nat| #[trigger] run_of(fuel, formula, depth, g) == Some(one),
        exists|fuel: nat| #[trigger] run_of(fuel, formula, depth, g) == Some(other),
    ensures
        one == other,
{
    let first = choose|fuel: nat| #[trigger] run_of(fuel, formula, depth, g) == Some(one);
    let second = choose|fuel: nat| #[trigger] run_of(fuel, formula, depth, g) == Some(other);
    if first <= second {
        lemma_run_more(first, second, formula, depth, g);
    } else {
        lemma_run_more(second, first, formula, depth, g);
    }
}

/// The results from the `i`-th on: the cubes, and what came last.
pub open spec fn results_from(cubes: Seq<Seq<Lit>>, i: int, last: Option<Yield>) -> Seq<Yield> {
    Seq::new((cubes.len() - i) as nat, |k: int| Yield::Cube(cubes[i + k])) + match last {
        Some(handed) => seq![handed],
        None => Seq::empty(),
    }
}

/// Results that came one by one, each from where the one before had left
/// the generator, are what the generator hands out in all.
pub proof fn lemma_run_assembled(
    formula: Seq<Seq<Lit>>,
    depth: nat,
    states: Seq<CubeState>,
    fuels: Seq<nat>,
    cubes: Seq<Seq<Lit>>,
    last_fuel: nat,
    last: Option<Yield>,
    end: CubeState,
    i: int,
)
    requires
        0 <= i <= cubes.len(),
        states.len() == cubes.len() + 1,
        fuels.len() == cubes.len(),
        forall|j: int|
            0 <= j < cubes.len() ==> next_of(#[trigger] fuels[j], formula, depth, states[j])
                == Some((Some(Yield::Cube(cubes[j])), states[j + 1])),
        next_of(last_fuel, formula, depth, states[cubes.len() as int]) == Some((last, end)),
        !(last matches Some(Yield::Cube(_))),
    ensures
        exists|fuel: nat| #[trigger]
            run_of(fuel, formula, depth, states[i]) == Some(results_from(cubes, i, last)),
    decreases cubes.len() - i,
{
    if i == cubes.len() {
        assert(last_fuel > 0);
        assert(results_from(cubes, i, last) =~= match last {
            Some(handed) => seq![handed],
            None => Seq::<Yield>::empty(),
        });
        assert(run_of(last_fuel, formula, depth, states[i]) == Some(results_from(cubes, i, last)));
    } else {
        lemma_run_assembled(formula, depth, states, fuels, cubes, last_fuel, last, end, i + 1);
        let rest = results_from(cubes, i + 1, last);
        let later = choose|fuel: nat| #[trigger]
            run_of(fuel, formula, depth, states[i + 1]) == Some(rest);
        let here = fuels[i];
        let enough: nat = if here >= later + 1 {
            here
        } else {
            later + 1
        };
        assert(next_of(here, formula, depth, states[i]) == Some(
            (Some(Yield::Cube(cubes[i])), states[i + 1]),
        ));
        lemma_next_more(here, enough, formula, depth, states[i]);
        lemma_run_more(later, (enough - 1) as nat, formula, depth, states[i + 1]);
        assert(results_from(cubes, i, last) =~= seq![Yield::Cube(cubes[i])] + rest);
        assert(run_of(enough, formula, depth, states[i]) == Some(results_from(cubes, i, last)));
    }
}

/// A turn that hands nothing out is one turn more on the way from the
/// start.
pub proof fn lemma_turn_goes_on(
    formula: Seq<Seq<Lit>>,
    depth: nat,
    origin: CubeState,
    turns: nat,
    here: CubeState,
    after: CubeState,
)
    requires
        forall|fuel: nat|
            next_of(fuel + turns, formula, depth, origin) == #[trigger] next_of(
                fuel,
                formula,
                depth,
                here,
            ),
        turn(formula, depth, here) == (None::<Option<Yield>>, after),
    ensures
        forall|fuel: nat|
            next_of(fuel + turns + 1, formula, depth, origin) == #[trigger] next_of(
                fuel,
                formula,
                depth,
                after,
            ),
{
    assert forall|fuel: nat|
        next_of(fuel + turns + 1, formula, depth, origin) == #[trigger] next_of(
            fuel,
            formula,
            depth,
            after,
        ) by {
        let more = (fuel + 1) as nat;
        assert(next_of(more, formula, depth, here) == next_of(fuel, formula, depth, after));
        assert(next_of(more + turns, formula, depth, origin) == next_of(
            more,
            formula,
            depth,
            here,
        ));
    }
}

/// A turn that hands something out, or ends the generation, is the
/// outcome of the run from the start.
pub proof fn lemma_turn_hands_out(
    formula: Seq<Seq<Lit>>,
    depth: nat,
    origin: CubeState,
    turns: nat,
    here: CubeState,
    handed: Option<Yield>,
    after: CubeState,
)
    requires
        forall|fuel: nat|
            next_of(fuel + turns, formula, depth, origin) == #[trigger] next_of(
                fuel,
                formula,
                depth,
                here,
            ),
        turn(formula, depth, here) == (Some(handed), after),
    ensures
        exists|fuel: nat| #[trigger] next_of(fuel, formula, depth, origin) == Some((handed, after)),
{
    assert(next_of(1, formula, depth, here) == Some((handed, after)));
    assert(next_of(1 + turns, formula, depth, origin) == Some((handed, after)));
    assert(next_of((1 + turns) as nat, formula, depth, origin) == Some((handed, after)));
}

/// Every model of the formula extends one of the cubes.
pub open spec fn cubes_cover(formula: Seq<Seq<Lit>>, num_vars: nat, cubes: Seq<Seq<Lit>>) -> bool {
    forall|model: Seq<bool>|
        is_model(formula, num_vars, model) ==> exists|k: int|
            0 <= k < cubes.len() && extends_cube(model, #[trigger] cubes[k])
}

/// At `level` the cube took the first branch of the decision that the
/// search has since switched to its second branch, and on the levels before
/// the cube and the search agree.
pub open spec fn split_at(a: AssignmentView, cube: Seq<Lit>, level: int) -> bool {
    &&& 0 <= level < a.marks.len()
    &&& level < cube.len()
    &&& cube[level] == Lit::spec_new(a.decision_var(level), true)
    &&& a.state[a.decision_var(level) as int] == OptBool::False
    &&& forall|l: int| 0 <= l < level ==> cube[l] == #[trigger] a.decision_lit(l)
}

/// The search has left the cube for good: it is on the other side of one
/// of the decisions of the cube.
pub open spec fn parted(a: AssignmentView, cube: Seq<Lit>) -> bool {
    exists|level: int| split_at(a, cube, level)
}

/// The decisions of the search are the first decisions of the cube.
pub open spec fn follows(a: AssignmentView, cube: Seq<Lit>) -> bool {
    &&& a.marks.len() <= cube.len()
    &&& forall|l: int| 0 <= l < a.marks.len() ==> cube[l] == #[trigger] a.decision_lit(l)
}

/// No two of the cubes can be extended by one assignment.
pub open spec fn pairwise_disjoint(cubes: Seq<Seq<Lit>>) -> bool {
    forall|i: int, j: int|
        0 <= i < j < cubes.len() ==> cubes_disjoint(#[trigger] cubes[i], #[trigger] cubes[j])
}

/// Two assignments with the same decisions on the levels below `upto`.
pub open spec fn same_decisions(a: AssignmentView, b: AssignmentView, upto: int) -> bool {
    forall|l: int|
        0 <= l < upto ==> #[trigger] a.decision_var(l) == b.decision_var(l) && a.state[a.decision_var(
            l,
        ) as int] == b.state[b.decision_var(l) as int]
}

/// A cube that the search has left stays left while the levels up to the
/// parting keep their decisions; so it does when levels are added.
pub proof fn lemma_parted_stays(a: AssignmentView, b: AssignmentView, cube: Seq<Lit>)
    requires
        parted(a, cube),
        a.marks.len() <= b.marks.len(),
        same_decisions(a, b, a.marks.len() as int),
    ensures
        parted(b, cube),
{
    let level = choose|level: int| split_at(a, cube, level);
    assert(a.decision_var(level) == b.decision_var(level));
    assert forall|l: int| 0 <= l < level implies cube[l] == #[trigger] b.decision_lit(l) by {
        assert(a.decision_var(l) == b.decision_var(l));
        assert(cube[l] == a.decision_lit(l));
    }
    assert(split_at(b, cube, level));
}

/// Appending to the trail, with or without a new level, keeps the
/// decisions of the levels there are.
pub proof fn lemma_append_same_decisions(a: AssignmentView, b: AssignmentView)
    requires
        a.wf(),
        crate::models::same_upto(a, b, a.trail.len() as int),
        a.marks.len() <= b.marks.len(),
        forall|l: int| 0 <= l < a.marks.len() ==> a.marks[l] == b.marks[l],
    ensures
        same_decisions(a, b, a.marks.len() as int),
{
    assert forall|l: int| 0 <= l < a.marks.len() implies #[trigger] a.decision_var(l)
        == b.decision_var(l) && a.state[a.decision_var(l) as int] == b.state[b.decision_var(
        l,
    ) as int] by {
        assert(a.marks[l] < a.trail.len());
        assert(a.trail[a.marks[l] as int] == b.trail[a.marks[l] as int]);
    }
}

/// The cube of the decisions of the search is disjoint from every cube
/// that the search has left.
pub proof fn lemma_parted_disjoint(a: AssignmentView, cube: Seq<Lit>)
    requires
        a.wf(),
        parted(a, cube),
    ensures
        cubes_disjoint(cube, a.decisions()),
{
    let level = choose|level: int| split_at(a, cube, level);
    let mine = a.decisions();
    assert(a.marks[level] < a.trail.len());
    assert(a.trail[a.marks[level] as int] < a.state.len());
    assert(mine[level] == a.decision_lit(level));
    assert(cube[level].spec_var() == mine[level].spec_var() && cube[level].spec_is_pos()
        != mine[level].spec_is_pos());
}

/// After backtracking has entered a second branch, the search has left
/// every cube that it had left or was inside of before.
pub proof fn lemma_backtracked_parts(a: AssignmentView, cube: Seq<Lit>)
    requires
        a.wf(),
        parted(a, cube) || follows(a, cube),
        a.backtrack_result() is Some,
    ensures
        parted(a.backtracked(), cube),
    decreases a.marks.len(),
{
    let last = a.marks.len() - 1;
    let mark = a.marks[last] as int;
    a.lemma_backtracked_once_wf();
    crate::models::lemma_backtrack_same(a);
    a.lemma_trail_counts_assigned();
    assert(a.trail[mark] < a.state.len());
    if a.last_is_first_branch() {
        let f = a.flipped();
        assert(same_decisions(a, f, last)) by {
            assert forall|l: int| 0 <= l < last implies #[trigger] a.decision_var(l)
                == f.decision_var(l) && a.state[a.decision_var(l) as int] == f.state[f.decision_var(
                l,
            ) as int] by {
                assert(a.marks[l] < a.marks[last]);
                assert(a.trail[a.marks[l] as int] == f.trail[a.marks[l] as int]);
            }
        }
        assert(f.decision_var(last) == a.decision_var(last));
        if parted(a, cube) {
            let level = choose|level: int| split_at(a, cube, level);
            assert(level < last);
            assert forall|l: int| 0 <= l < level implies cube[l] == #[trigger] f.decision_lit(
                l,
            ) by {
                assert(a.decision_var(l) == f.decision_var(l));
                assert(cube[l] == a.decision_lit(l));
            }
            assert(a.decision_var(level) == f.decision_var(level));
            assert(split_at(f, cube, level));
        } else {
            assert(cube[last] == a.decision_lit(last));
            assert forall|l: int| 0 <= l < last implies cube[l] == #[trigger] f.decision_lit(
                l,
            ) by {
                assert(a.decision_var(l) == f.decision_var(l));
                assert(cube[l] == a.decision_lit(l));
            }
            assert(split_at(f, cube, last));
        }
    } else {
        let q = a.popped();
        assert(same_decisions(a, q, last)) by {
            assert forall|l: int| 0 <= l < last implies #[trigger] a.decision_var(l)
                == q.decision_var(l) && a.state[a.decision_var(l) as int] == q.state[q.decision_var(
                l,
            ) as int] by {
                assert(a.marks[l] < a.marks[last]);
                assert(q.marks[l] == a.marks[l]);
                assert(a.trail[a.marks[l] as int] == q.trail[a.marks[l] as int]);
            }
        }
        if parted(a, cube) {
            let level = choose|level: int| split_at(a, cube, level);
            if level < last {
                assert forall|l: int| 0 <= l < level implies cube[l] == #[trigger] q.decision_lit(
                    l,
                ) by {
                    assert(a.decision_var(l) == q.decision_var(l));
                    assert(cube[l] == a.decision_lit(l));
                }
                assert(a.decision_var(level) == q.decision_var(level));
                assert(split_at(q, cube, level));
            } else {
                assert forall|l: int| 0 <= l < q.marks.len() implies cube[l]
                    == #[trigger] q.decision_lit(l) by {
                    assert(a.decision_var(l) == q.decision_var(l));
                    assert(cube[l] == a.decision_lit(l));
                }
                assert(follows(q, cube));
            }
        } else {
            assert forall|l: int| 0 <= l < q.marks.len() implies cube[l]
                == #[trigger] q.decision_lit(l) by {
                assert(a.decision_var(l) == q.decision_var(l));
                assert(cube[l] == a.decision_lit(l));
            }
            assert(follows(q, cube));
        }
        lemma_backtracked_parts(q, cube);
    }
}

/// Searching the cubes one by one comes to the verdict of searching the
/// formula at once: if the cubes cover the formula, and each outcome is
/// either a model or the finding that no model extends its cube, then some
/// outcome is a model exactly if the formula has one.
pub proof fn lemma_cube_and_conquer(
    formula: Seq<Seq<Lit>>,
    num_vars: nat,
    cubes: Seq<Seq<Lit>>,
    outcomes: Seq<Option<Seq<bool>>>,
)
    requires
        cubes_cover(formula, num_vars, cubes),
        outcomes.len() == cubes.len(),
        forall|k: int|
            0 <= k < cubes.len() ==> match #[trigger] outcomes[k] {
                Some(values) => is_model(formula, num_vars, values),
                None => forall|model: Seq<bool>|
                    is_model(formula, num_vars, model) ==> !extends_cube(model, cubes[k]),
            },
    ensures
        (exists|k: int| 0 <= k < outcomes.len() && #[trigger] outcomes[k] is Some) <==> exists|
            model: Seq<bool>,
        | is_model(formula, num_vars, model),
{
    if exists|k: int| 0 <= k < outcomes.len() && #[trigger] outcomes[k] is Some {
        let k = choose|k: int| 0 <= k < outcomes.len() && #[trigger] outcomes[k] is Some;
        assert(is_model(formula, num_vars, outcomes[k]->0));
    }
    if exists|model: Seq<bool>| is_model(formula, num_vars, model) {
        let model = choose|model: Seq<bool>| is_model(formula, num_vars, model);
        let k = choose|k: int| 0 <= k < cubes.len() && extends_cube(model, #[trigger] cubes[k]);
        assert(outcomes[k] is Some);
    }
}

/// Splits the search for a formula into cubes of a given depth.
pub struct CubeGenerator<'p> {
    solver: DPLLSolver<'p>,
    max_depth: usize,
    phase: CubePhase,
    generated_any: bool,
}

impl<'p> CubeGenerator<'p> {
    /// The clauses of the formula.
    pub closed spec fn formula(&self) -> Seq<Seq<Lit>> {
        self.solver.formula()
    }

    /// The number of variables of the formula.
    pub closed spec fn num_vars(&self) -> nat {
        self.solver.num_vars()
    }

    /// The depth at which a branch becomes a cube.
    pub closed spec fn depth(&self) -> nat {
        self.max_depth as nat
    }

    /// The cubes handed out so far, first cube first.
    pub closed spec fn emitted(&self) -> Seq<Seq<Lit>> {
        self.solver.handed_out()
    }

    /// Where the generator stands.
    pub closed spec fn phase(&self) -> CubePhase {
        self.phase
    }

    /// Where the generator stands, as plain values.
    pub closed spec fn state(&self) -> CubeState {
        CubeState { s: self.solver.state(), phase: self.phase, any: self.generated_any }
    }

    /// Whether the generator will hand out nothing more.
    pub open spec fn is_done(&self) -> bool {
        self.phase() == CubePhase::Settled || self.phase() == CubePhase::Exhausted
    }

    /// What is left to do, as a number that every step makes smaller.
    pub closed spec fn remaining(&self) -> nat {
        (3 * (pow3(self.solver.num_vars()) - progress(
            self.solver@,
            self.solver@.marks.len() as int,
            self.solver.num_vars(),
        )) + match self.phase {
            CubePhase::Root => 2int,
            CubePhase::Entered(_) => 1int,
            _ => 0int,
        }) as nat
    }

    /// The solver is in step with the phase, and no branch is deeper than
    /// the depth of the cubes.
    pub closed spec fn wf(&self) -> bool {
        &&& self.solver.wf()
        &&& self.max_depth >= 1
        &&& self.solver@.initial_level == 0
        &&& self.solver@.marks.len() <= self.max_depth
        &&& self.generated_any == (self.solver.handed_out().len() > 0)
        &&& forall|k: int|
            0 <= k < self.solver.handed_out().len() ==> (
            #[trigger] self.solver.handed_out()[k]).len() == self.max_depth
        &&& pairwise_disjoint(self.solver.handed_out())
        &&& match self.phase {
            CubePhase::Entered(_) => forall|k: int|
                0 <= k < self.solver.handed_out().len() ==> parted(
                    self.solver@,
                    #[trigger] self.solver.handed_out()[k],
                ),
            CubePhase::Leaving => forall|k: int|
                0 <= k < self.solver.handed_out().len() ==> parted(
                    self.solver@,
                    #[trigger] self.solver.handed_out()[k],
                ) || follows(self.solver@, self.solver.handed_out()[k]),
            _ => true,
        }
        &&& match self.phase {
            CubePhase::Root => {
                &&& self.solver.search_ok(Seq::empty(), Set::empty())
                &&& self.solver@.marks.len() == 0
                &&& self.solver.handed_out().len() == 0
            },
            CubePhase::Entered(falsified) => {
                &&& self.solver.is_vetted()
                &&& self.solver.lit_in_range(falsified)
                &&& self.solver.search_ok(seq![falsified], Set::empty())
                &&& self.solver@.marks.len() >= 1
            },
            CubePhase::Leaving => self.solver.is_vetted() && self.solver.search_failed(),
            CubePhase::Settled => true,
            CubePhase::Exhausted => cubes_cover(
                self.solver.formula(),
                self.solver.num_vars(),
                self.solver.handed_out(),
            ),
        }
    }

    /// The cubes handed out tile the models of the formula. No two of them
    /// can be extended by one assignment, at any time; and once the
    /// generator is exhausted, every model extends one of them. All of them
    /// have the depth asked for.
    pub proof fn lemma_cubes_cover(&self)
        requires
            self.wf(),
        ensures
            pairwise_disjoint(self.emitted()),
            self.phase() == CubePhase::Exhausted ==> cubes_cover(
                self.formula(),
                self.num_vars(),
                self.emitted(),
            ),
            forall|k: int|
                0 <= k < self.emitted().len() ==> (#[trigger] self.emitted()[k]).len()
                    == self.depth(),
    {
    }

    /// A generator for `problem` that hands out cubes of `max_depth`
    /// decisions. The depth must not be zero.
    pub fn new(problem: &'p Problem, max_depth: usize) -> (generator: CubeGenerator<'p>)
        requires
            problem.wf(),
            max_depth >= 1,
        ensures
            generator.wf(),
            generator.formula() == problem.spec_clauses(),
            generator.num_vars() == problem.spec_num_vars(),
            generator.depth() == max_depth,
            generator.emitted() == Seq::<Seq<Lit>>::empty(),
            generator.phase() == CubePhase::Root,
            generator.state().phase == CubePhase::Root,
            !generator.state().any,
            generator.state().s.activity == (crate::vsids::Activity {
                scores: problem.spec_var_scores(),
                increment: crate::vsids::ACTIVITY_ONE,
            }),
            generator.state().s.a.state == path_assignment(
                Seq::<Lit>::empty(),
                problem.spec_num_vars(),
            ),
            generator.state().s.a.trail == Seq::<usize>::empty(),
            generator.state().s.a.marks == Seq::<usize>::empty(),
            generator.state().s.a.initial_level == 0,
    {
        let empty_path = DecisionPath(Vec::new());
        let solver = DPLLSolver::with_decisions(problem, &empty_path);
        assert(solver@.trail =~= Seq::<usize>::empty());
        assert(solver@.marks =~= Seq::<usize>::empty());
        CubeGenerator { solver, max_depth, phase: CubePhase::Root, generated_any: false }
    }

    /// Runs the search to the next thing to hand out, and returns nothing
    /// when all is handed out.
    ///
    /// A satisfying assignment ends the generation, and so does the finding
    /// that the formula has none, which is reported if no cube went before.
    /// A cube is the decision path of a branch of the depth asked for that
    /// unit propagation has not refuted.
    #[verifier::rlimit(100)]
    pub fn next(&mut self) -> (result: Option<CubeGenerationResult>)
        requires
            old(self).wf(),
        ensures
            final(self).wf(),
            final(self).formula() == old(self).formula(),
            final(self).num_vars() == old(self).num_vars(),
            final(self).depth() == old(self).depth(),
            old(self).is_done() ==> result is None && final(self).phase() == old(self).phase()
                && final(self).emitted() == old(self).emitted(),
            result is None ==> final(self).is_done() && final(self).emitted() == old(self).emitted() && (!old(self).is_done() ==> final(self).phase() == CubePhase::Exhausted
                && final(self).emitted().len() > 0),
            result matches Some(CubeGenerationResult::SAT(values)) ==> {
                &&& is_model(old(self).formula(), old(self).num_vars(), values@)
                &&& final(self).phase() == CubePhase::Settled
                &&& final(self).emitted() == old(self).emitted()
            },
            result matches Some(CubeGenerationResult::UNSAT) ==> {
                &&& forall|model: Seq<bool>|
                    !is_model(old(self).formula(), old(self).num_vars(), model)
                &&& final(self).is_done()
                &&& final(self).emitted() == Seq::<Seq<Lit>>::empty()
                &&& old(self).emitted() == Seq::<Seq<Lit>>::empty()
            },
            result matches Some(CubeGenerationResult::Cube(path)) ==> {
                &&& final(self).emitted() == old(self).emitted().push(path@)
                &&& forall|k: int|
                    0 <= k < old(self).emitted().len() ==> cubes_disjoint(
                        #[trigger] old(self).emitted()[k],
                        path@,
                    )
                &&& path@.len() == old(self).depth()
                &&& path_in_range(path@, old(self).num_vars())
                &&& path_distinct(path@)
                &&& conflict_free(
                    old(self).formula(),
                    path_assignment(path@, old(self).num_vars()),
                )
                &&& !final(self).is_done()
                &&& final(self).remaining() < old(self).remaining()
            },
            exists|fuel: nat| #[trigger]
                next_of(fuel, old(self).formula(), old(self).depth(), old(self).state()) == Some(
                    (yield_of(result), final(self).state()),
                ),
    {
        let ghost formula = self.formula();
        let ghost deep = self.depth();
        let ghost origin = self.state();
        let ghost mut turns: nat = 0;
        loop
            invariant
                self.wf(),
                formula == old(self).formula(),
                deep == old(self).depth(),
                origin == old(self).state(),
                forall|fuel: nat|
                    next_of(fuel + turns, formula, deep, origin) == #[trigger] next_of(
                        fuel,
                        formula,
                        deep,
                        self.state(),
                    ),
                self.formula() == old(self).formula(),
                self.num_vars() == old(self).num_vars(),
                self.depth() == old(self).depth(),
                self.emitted() == old(self).emitted(),
                old(self).is_done() ==> self.phase() == old(self).phase(),
                self.is_done() ==> old(self).is_done(),
                self.remaining() <= old(self).remaining(),
            decreases self.remaining(),
        {
            let ghost here = self.solver@;
            let ghost depth = self.solver.num_vars();
            let ghost at = self.state();
            proof {
                self.solver.lemma_wf();
                lemma_marks_bounded_or_empty(here);
                lemma_progress_bound(here, depth);
            }
            match self.phase {
                CubePhase::Settled => {
                    proof {
                        lemma_turn_hands_out(formula, deep, origin, turns, at, None, self.state());
                    }
                    return None;
                },
                CubePhase::Exhausted => {
                    proof {
                        lemma_turn_hands_out(formula, deep, origin, turns, at, None, self.state());
                    }
                    return None;
                },
                CubePhase::Root => {
                    match self.solver.propagate_units_root() {
                        UnitPropagationResult::SAT => {
                            let values = self.solver.assignment().to_solution();
                            proof {
                                self.lemma_solved(values@);
                            }
                            self.phase = CubePhase::Settled;
                            proof {
                                lemma_turn_hands_out(
                                    formula,
                                    deep,
                                    origin,
                                    turns,
                                    at,
                                    Some(Yield::Sat(values@)),
                                    self.state(),
                                );
                            }
                            return Some(CubeGenerationResult::SAT(values));
                        },
                        UnitPropagationResult::UNSAT => {
                            proof {
                                self.solver.lemma_wf();
                                crate::models::lemma_exhausted(self.solver.theory(), self.solver@);
                                self.lemma_refuted(self.solver@);
                            }
                            self.phase = CubePhase::Settled;
                            proof {
                                lemma_turn_hands_out(
                                    formula,
                                    deep,
                                    origin,
                                    turns,
                                    at,
                                    Some(Yield::Unsat),
                                    self.state(),
                                );
                            }
                            return Some(CubeGenerationResult::UNSAT);
                        },
                        UnitPropagationResult::Undecided => {
                            let ghost mid = self.solver@;
                            proof {
                                self.solver.lemma_wf();
                                lemma_marks_bounded_or_empty(mid);
                                lemma_same_upto_levels(here, mid, depth);
                            }
                            let falsified = self.solver.make_branching_decision();
                            proof {
                                lemma_decide_progress(mid, falsified.spec_var(), depth);
                                self.solver.lemma_wf();
                                lemma_marks_bounded_or_empty(self.solver@);
                                lemma_progress_bound(self.solver@, depth);
                            }
                            self.phase = CubePhase::Entered(falsified);
                            proof {
                                lemma_turn_goes_on(formula, deep, origin, turns, at, self.state());
                                turns = turns + 1;
                            }
                        },
                    }
                },
                CubePhase::Entered(falsified) => {
                    match self.solver.propagate_units_from(falsified) {
                        UnitPropagationResult::SAT => {
                            let values = self.solver.assignment().to_solution();
                            proof {
                                self.lemma_solved(values@);
                            }
                            self.phase = CubePhase::Settled;
                            proof {
                                lemma_turn_hands_out(
                                    formula,
                                    deep,
                                    origin,
                                    turns,
                                    at,
                                    Some(Yield::Sat(values@)),
                                    self.state(),
                                );
                            }
                            return Some(CubeGenerationResult::SAT(values));
                        },
                        UnitPropagationResult::UNSAT => {
                            proof {
                                self.solver.lemma_wf();
                                lemma_same_upto_levels(here, self.solver@, depth);
                                Self::lemma_parted_carried(
                                    self.solver.handed_out(),
                                    here,
                                    self.solver@,
                                );
                            }
                            self.phase = CubePhase::Leaving;
                            proof {
                                lemma_turn_goes_on(formula, deep, origin, turns, at, self.state());
                                turns = turns + 1;
                            }
                        },
                        UnitPropagationResult::Undecided => {
                            let ghost mid = self.solver@;
                            proof {
                                self.solver.lemma_wf();
                                lemma_marks_bounded_or_empty(mid);
                                lemma_same_upto_levels(here, mid, depth);
                            }
                            if self.solver.assignment().decision_level() >= self.max_depth {
                                let mut cube: Vec<Lit> = Vec::new();
                                let ghost earlier = self.solver.handed_out();
                                proof {
                                    self.lemma_cube_unrefuted();
                                    mid.lemma_decisions_path();
                                    Self::lemma_parted_carried(earlier, here, mid);
                                    assert forall|k: int|
                                        0 <= k < earlier.len() implies cubes_disjoint(
                                        #[trigger] earlier[k],
                                        mid.decisions(),
                                    ) by {
                                        lemma_parted_disjoint(mid, earlier[k]);
                                    }
                                }
                                self.solver.hand_out_branch(&mut cube);
                                assert(cube@ =~= mid.decisions());
                                proof {
                                    let cubes = self.solver.handed_out();
                                    assert(follows(mid, mid.decisions()));
                                    assert forall|i: int, j: int|
                                        0 <= i < j < cubes.len() implies cubes_disjoint(
                                        #[trigger] cubes[i],
                                        #[trigger] cubes[j],
                                    ) by {
                                        assert(cubes[i] == earlier[i]);
                                        if j < earlier.len() {
                                            assert(cubes[j] == earlier[j]);
                                        }
                                    }
                                    assert forall|k: int| 0 <= k < cubes.len() implies parted(
                                        mid,
                                        #[trigger] cubes[k],
                                    ) || follows(mid, cubes[k]) by {
                                        if k < earlier.len() {
                                            assert(cubes[k] == earlier[k]);
                                        }
                                    }
                                }
                                self.generated_any = true;
                                self.phase = CubePhase::Leaving;
                                proof {
                                lemma_turn_hands_out(
                                    formula,
                                    deep,
                                    origin,
                                    turns,
                                    at,
                                    Some(Yield::Cube(cube@)),
                                    self.state(),
                                );
                            }
                            return Some(CubeGenerationResult::Cube(DecisionPath(cube)));
                            } else {
                                let falsified = self.solver.make_branching_decision();
                                proof {
                                    lemma_decide_progress(mid, falsified.spec_var(), depth);
                                    self.solver.lemma_wf();
                                    lemma_marks_bounded_or_empty(self.solver@);
                                    lemma_progress_bound(self.solver@, depth);
                                    Self::lemma_parted_carried(self.solver.handed_out(), here, mid);
                                    crate::models::lemma_append_same(
                                        mid,
                                        falsified.spec_var(),
                                        true,
                                    );
                                    Self::lemma_parted_carried(
                                        self.solver.handed_out(),
                                        mid,
                                        self.solver@,
                                    );
                                }
                                self.phase = CubePhase::Entered(falsified);
                                proof {
                                lemma_turn_goes_on(formula, deep, origin, turns, at, self.state());
                                turns = turns + 1;
                            }
                            }
                        },
                    }
                },
                CubePhase::Leaving => {
                    match self.solver.backtrack() {
                        Some(falsified) => {
                            proof {
                                lemma_backtrack_progress(here, depth);
                                self.solver.lemma_wf();
                                lemma_marks_bounded_or_empty(self.solver@);
                                lemma_progress_bound(self.solver@, depth);
                                self.lemma_backtracked_levels(here);
                                let cubes = self.solver.handed_out();
                                assert forall|k: int| 0 <= k < cubes.len() implies parted(
                                    self.solver@,
                                    #[trigger] cubes[k],
                                ) by {
                                    lemma_backtracked_parts(here, cubes[k]);
                                }
                            }
                            self.phase = CubePhase::Entered(falsified);
                            proof {
                                lemma_turn_goes_on(formula, deep, origin, turns, at, self.state());
                                turns = turns + 1;
                            }
                        },
                        None => {
                            proof {
                                self.lemma_backtracked_levels(here);
                            }
                            if !self.generated_any {
                                proof {
                                    self.lemma_refuted(here);
                                }
                                self.phase = CubePhase::Settled;
                                proof {
                                lemma_turn_hands_out(
                                    formula,
                                    deep,
                                    origin,
                                    turns,
                                    at,
                                    Some(Yield::Unsat),
                                    self.state(),
                                );
                            }
                            return Some(CubeGenerationResult::UNSAT);
                            }
                            proof {
                                self.lemma_exhausted_covers(here);
                            }
                            self.phase = CubePhase::Exhausted;
                            proof {
                                lemma_turn_hands_out(
                                    formula,
                                    deep,
                                    origin,
                                    turns,
                                    at,
                                    None,
                                    self.state(),
                                );
                            }
                            return None;
                        },
                    }
                },
            }
        }
    }

    /// Runs the generator to its end and returns all that it hands out, in
    /// order.
    ///
    /// The last result is a satisfying assignment, or the only result says
    /// that there is none, or all results are cubes and every model of the
    /// formula extends one of them. No two cubes can be extended by one
    /// assignment.
    pub fn generate(self) -> (results: Vec<CubeGenerationResult>)
        requires
            self.wf(),
            self.phase() == CubePhase::Root,
        ensures
            results@.len() >= 1,
            results@.last() matches CubeGenerationResult::SAT(values) ==> is_model(
                self.formula(),
                self.num_vars(),
                values@,
            ),
            results@.last() matches CubeGenerationResult::UNSAT ==> results@.len() == 1
                && forall|model: Seq<bool>| !is_model(self.formula(), self.num_vars(), model),
            results@.last() matches CubeGenerationResult::Cube(_) ==> cubes_cover(
                self.formula(),
                self.num_vars(),
                result_cubes(results@),
            ),
            pairwise_disjoint(result_cubes(results@)),
            forall|i: int|
                0 <= i < results@.len() - 1 ==> #[trigger] results@[i] is Cube,
            forall|i: int|
                0 <= i < results@.len() ==> (#[trigger] results@[i] matches CubeGenerationResult::Cube(
                    path,
                ) ==> path@.len() == self.depth() && path_in_range(path@, self.num_vars())
                    && path_distinct(path@)),
            exists|fuel: nat| #[trigger]
                run_of(fuel, self.formula(), self.depth(), self.state()) == Some(
                    plain_all(results@),
                ),
    {
        let mut generator = self;
        let mut results: Vec<CubeGenerationResult> = Vec::new();
        assert(result_cubes(results@) =~= generator.emitted());
        let ghost formula = self.formula();
        let ghost deep = self.depth();
        let ghost mut states: Seq<CubeState> = seq![self.state()];
        let ghost mut fuels: Seq<nat> = Seq::empty();
        let ghost mut cubes: Seq<Seq<Lit>> = Seq::empty();
        loop
            invariant
                generator.wf(),
                formula == self.formula(),
                deep == self.depth(),
                states.len() == results@.len() + 1,
                fuels.len() == results@.len(),
                cubes.len() == results@.len(),
                states[0] == self.state(),
                states[results@.len() as int] == generator.state(),
                forall|j: int|
                    0 <= j < cubes.len() ==> next_of(
                        #[trigger] fuels[j],
                        formula,
                        deep,
                        states[j],
                    ) == Some((Some(Yield::Cube(cubes[j])), states[j + 1])),
                forall|j: int|
                    0 <= j < results@.len() ==> plain(#[trigger] results@[j]) == Yield::Cube(
                        cubes[j],
                    ),
                generator.formula() == self.formula(),
                generator.num_vars() == self.num_vars(),
                generator.depth() == self.depth(),
                !generator.is_done(),
                results@.len() == 0 ==> generator.emitted().len() == 0,
                result_cubes(results@) == generator.emitted(),
                forall|i: int| 0 <= i < results@.len() ==> #[trigger] results@[i] is Cube,
                forall|i: int|
                    0 <= i < results@.len() ==> (
                    #[trigger] results@[i] matches CubeGenerationResult::Cube(path) ==> path@.len()
                        == self.depth() && path_in_range(path@, self.num_vars()) && path_distinct(
                        path@,
                    )),
            decreases generator.remaining(),
        {
            let ghost before = results@;
            let ghost stood = generator.state();
            let handed = generator.next();
            let ghost took = choose|fuel: nat| #[trigger]
                next_of(fuel, formula, deep, stood) == Some((yield_of(handed), generator.state()));
            match handed {
                None => {
                    proof {
                        generator.lemma_cubes_cover();
                        lemma_run_assembled(
                            formula,
                            deep,
                            states,
                            fuels,
                            cubes,
                            took,
                            None,
                            generator.state(),
                            0,
                        );
                        assert(results_from(cubes, 0, None) =~= plain_all(results@));
                    }
                    return results;
                },
                Some(CubeGenerationResult::Cube(path)) => {
                    proof {
                        states = states.push(generator.state());
                        fuels = fuels.push(took);
                        cubes = cubes.push(path@);
                    }
                    results.push(CubeGenerationResult::Cube(path));
                    proof {
                        assert(result_cubes(results@) =~= generator.emitted()) by {
                            lemma_result_cubes_push(before, results@.last());
                        }
                    }
                },
                Some(other) => {
                    let ghost last = plain(other);
                    results.push(other);
                    proof {
                        generator.lemma_cubes_cover();
                        lemma_result_cubes_push(before, results@.last());
                        lemma_run_assembled(
                            formula,
                            deep,
                            states,
                            fuels,
                            cubes,
                            took,
                            Some(last),
                            generator.state(),
                            0,
                        );
                        assert(results_from(cubes, 0, Some(last)) =~= plain_all(results@));
                    }
                    return results;
                },
            }
        }
    }

    /// The cubes that the search had left before a round of propagation,
    /// and a decision behind it, are left after it.
    proof fn lemma_parted_carried(
        cubes: Seq<Seq<Lit>>,
        before: AssignmentView,
        after: AssignmentView,
    )
        requires
            before.wf(),
            crate::models::same_upto(before, after, before.trail.len() as int),
            before.marks.len() <= after.marks.len(),
            forall|l: int| 0 <= l < before.marks.len() ==> before.marks[l] == after.marks[l],
            forall|k: int| 0 <= k < cubes.len() ==> parted(before, #[trigger] cubes[k]),
        ensures
            forall|k: int| 0 <= k < cubes.len() ==> parted(after, #[trigger] cubes[k]),
    {
        lemma_append_same_decisions(before, after);
        assert forall|k: int| 0 <= k < cubes.len() implies parted(after, #[trigger] cubes[k]) by {
            lemma_parted_stays(before, after, cubes[k]);
        }
    }

    /// The values of a complete assignment of a vetted solver are a model.
    proof fn lemma_solved(&self, values: Seq<bool>)
        requires
            self.solver.wf(),
            self.solver.is_vetted(),
            self.solver.search_ok(Seq::empty(), Set::empty()),
            self.solver@.trail.len() == self.solver.num_vars(),
            values == solution_of(self.solver@.state),
        ensures
            is_model(self.solver.formula(), self.solver.num_vars(), values),
    {
        let now = self.solver@;
        self.solver.lemma_wf();
        now.lemma_trail_counts_assigned();
        assert forall|v: int| 0 <= v < now.state.len() implies now.state[v]
            != OptBool::Unassigned by {
            assert(now.assigned(v));
        }
        lemma_complete_is_model(self.solver.formula(), now.state);
    }

    /// A formula whose search has failed at the root, with nothing handed
    /// out, has no model.
    proof fn lemma_refuted(&self, failed: crate::partial_assignment::AssignmentView)
        requires
            failed.initial_level == 0,
            failed.state.len() == self.solver.num_vars(),
            self.solver.handed_out().len() == 0,
            base_refuted(self.solver.theory(), failed),
        ensures
            forall|model: Seq<bool>|
                !is_model(self.solver.formula(), self.solver.num_vars(), model),
            self.solver.handed_out() == Seq::<Seq<Lit>>::empty(),
    {
        let a = failed;
        assert(self.solver.handed_out() =~= Seq::<Seq<Lit>>::empty());
        assert forall|model: Seq<bool>|
            !is_model(self.solver.formula(), self.solver.num_vars(), model) by {
            lemma_theory_models(
                self.solver.formula(),
                self.solver.handed_out(),
                self.solver.num_vars(),
                model,
            );
            if is_model(self.solver.formula(), self.solver.num_vars(), model) {
                assert(agrees(model, a, a.initial_level as int));
            }
        }
    }

    /// Once nothing is left to search, every model extends a cube.
    proof fn lemma_exhausted_covers(&self, failed: crate::partial_assignment::AssignmentView)
        requires
            self.solver.wf(),
            failed.initial_level == 0,
            failed.state.len() == self.solver.num_vars(),
            base_refuted(self.solver.theory(), failed),
        ensures
            cubes_cover(self.solver.formula(), self.solver.num_vars(), self.solver.handed_out()),
    {
        let cubes = self.solver.handed_out();
        assert forall|model: Seq<bool>|
            is_model(
                self.solver.formula(),
                self.solver.num_vars(),
                model,
            ) implies exists|k: int|
            0 <= k < cubes.len() && extends_cube(model, #[trigger] cubes[k]) by {
            lemma_theory_models(self.solver.formula(), cubes, self.solver.num_vars(), model);
            assert(agrees(model, failed, failed.initial_level as int));
            assert(!is_model(self.solver.theory(), failed.state.len(), model));
        }
    }

    /// Backtracking does not add levels.
    proof fn lemma_backtracked_levels(&self, before: crate::partial_assignment::AssignmentView)
        requires
            before.wf(),
            self.solver@ == before.backtracked(),
        ensures
            self.solver@.marks.len() <= before.marks.len(),
            self.solver@.initial_level == before.initial_level,
            before.backtrack_result() is Some ==> self.solver@.marks.len() >= 1,
    {
        lemma_backtracked_shrinks(before);
    }

    /// The decisions of a state in which no clause is falsified falsify no
    /// clause by themselves.
    proof fn lemma_cube_unrefuted(&self)
        requires
            self.solver.wf(),
            self.solver.is_vetted(),
            self.solver.search_ok(Seq::empty(), Set::empty()),
        ensures
            conflict_free(
                self.solver.formula(),
                path_assignment(self.solver@.decisions(), self.solver.num_vars()),
            ),
    {
        let a = self.solver@;
        let formula = self.solver.formula();
        self.solver.lemma_wf();
        a.lemma_decisions_path();
        let path = a.decisions();
        let alone = path_assignment(path, self.solver.num_vars());
        lemma_path_assignment(path, self.solver.num_vars());
        assert forall|c: int| 0 <= c < formula.len() implies !clause_falsified(
            alone,
            #[trigger] formula[c],
        ) by {
            let clause = formula[c];
            if clause_falsified(alone, clause) {
                assert forall|i: int| 0 <= i < clause.len() implies lit_false(
                    a.state,
                    #[trigger] clause[i],
                ) by {
                    assert(lit_false(alone, clause[i]));
                    let v = clause[i].spec_var() as int;
                    assert(crate::clause::clause_in_range(clause, self.solver.num_vars()));
                    if forall|level: int|
                        0 <= level < path.len() ==> (#[trigger] path[level]).spec_var() != v {
                        assert(alone[v] == OptBool::Unassigned);
                    } else {
                        let level = choose|level: int|
                            0 <= level < path.len() && (#[trigger] path[level]).spec_var() == v;
                        assert(alone[path[level].spec_var() as int] == OptBool::of(
                            path[level].spec_is_pos(),
                        ));
                    }
                }
                assert(clause_falsified(a.state, clause));
            }
        }
    }
}

/// The cubes among the results, in order.
pub open spec fn result_cubes(results: Seq<CubeGenerationResult>) -> Seq<Seq<Lit>>
    decreases results.len(),
{
    if results.len() == 0 {
        Seq::empty()
    } else {
        match results.last() {
            CubeGenerationResult::Cube(path) => result_cubes(results.drop_last()).push(path@),
            _ => result_cubes(results.drop_last()),
        }
    }
}

/// One more result adds its cube to the cubes, if it is one.
proof fn lemma_result_cubes_push(results: Seq<CubeGenerationResult>, next: CubeGenerationResult)
    ensures
        next matches CubeGenerationResult::Cube(path) ==> result_cubes(results.push(next))
            == result_cubes(results).push(path@),
        !(next is Cube) ==> result_cubes(results.push(next)) == result_cubes(results),
{
    assert(results.push(next).drop_last() =~= results);
}

/// Backtracking adds no level, and leaves one where it finds a branch.
pub proof fn lemma_backtracked_shrinks(a: crate::partial_assignment::AssignmentView)
    requires
        a.wf(),
    ensures
        a.backtracked().marks.len() <= a.marks.len(),
        a.backtracked().initial_level == a.initial_level,
        a.backtrack_result() is Some ==> a.backtracked().marks.len() > a.initial_level,
    decreases a.marks.len(),
{
    if a.can_backtrack() && !a.last_is_first_branch() {
        a.lemma_backtracked_once_wf();
        lemma_backtracked_shrinks(a.popped());
    }
}

} // verus!
