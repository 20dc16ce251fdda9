use dpll::decision_path::DecisionPath;
use dpll::lit::Lit;
use dpll::opt_bool::OptBool;
use dpll::partial_assignment::{BacktrackResult, PartialAssignment};

#[test]
fn test_with_decisions() {
    let initial_decisions = DecisionPath(vec![
        Lit::new(1, false),
        Lit::new(3, true),
        Lit::new(2, true),
        Lit::new(0, true),
        Lit::new(4, false),
    ]);
    let assignment = PartialAssignment::with_decisions(8, &initial_decisions);

    assert_eq!(assignment.decision_level(), 5);
    assert_eq!(assignment.last_decision(), OptBool::from(false));

    assert_eq!(assignment[0], OptBool::from(true));
    assert_eq!(assignment[1], OptBool::from(false));
    assert_eq!(assignment[2], OptBool::from(true));
    assert_eq!(assignment[3], OptBool::from(true));
    assert_eq!(assignment[4], OptBool::from(false));
    assert_eq!(assignment[5], OptBool::Unassigned);
    assert_eq!(assignment[6], OptBool::Unassigned);
    assert_eq!(assignment[7], OptBool::Unassigned);
}

#[test]
fn test_extract_decisions() {
    let initial_decisions = DecisionPath(vec![
        Lit::new(1, false),
        Lit::new(3, true),
        Lit::new(2, true),
        Lit::new(0, true),
        Lit::new(4, false),
    ]);
    let assignment = PartialAssignment::with_decisions(8, &initial_decisions);

    let mut buffer = Vec::new();
    assignment.extract_decisions(&mut buffer);

    assert_eq!(buffer.len(), 5);
    assert_eq!(buffer[0], Lit::new(1, false));
    assert_eq!(buffer[1], Lit::new(3, true));
    assert_eq!(buffer[2], Lit::new(2, true));
    assert_eq!(buffer[3], Lit::new(0, true));
    assert_eq!(buffer[4], Lit::new(4, false));
}

#[test]
fn test_extract_decisions_until_next_true() {
    let initial_decisions = DecisionPath(vec![
        Lit::new(1, false),
        Lit::new(3, true),
        Lit::new(2, false), // 3rd decision
        Lit::new(0, false),
        Lit::new(4, false),
        Lit::new(6, true), // next true decision
        Lit::new(5, false),
    ]);

    let assignment = PartialAssignment::with_decisions(10, &initial_decisions);

    let mut buffer = Vec::new();
    assignment.extract_decisions_until_next_true(2, &mut buffer);

    assert_eq!(buffer.len(), 6);
    assert_eq!(buffer[0], Lit::new(1, false));
    assert_eq!(buffer[1], Lit::new(3, true));
    assert_eq!(buffer[2], Lit::new(2, false));
    assert_eq!(buffer[3], Lit::new(0, false));
    assert_eq!(buffer[4], Lit::new(4, false));
    assert_eq!(buffer[5], Lit::new(6, true));
}

#[test]
fn propagate_and_decide_fill_the_trail() {
    let mut assignment = PartialAssignment::with_decisions(4, &DecisionPath(vec![]));
    assert_eq!(assignment.decision_level(), 0);
    assert!(!assignment.is_complete());

    assignment.propagate(2, false);
    assert!(assignment.is_assigned(2));
    assert_eq!(assignment.get_unchecked(2), OptBool::False);
    assert_eq!(assignment.decision_level(), 0);
    assert_eq!(assignment.last_decision(), OptBool::Unassigned);
    assert_eq!(assignment.last_decision_lit(), None);

    assignment.decide(0);
    assert_eq!(assignment.decision_level(), 1);
    assert_eq!(assignment.get_unchecked(0), OptBool::True);
    assert_eq!(assignment.last_decision(), OptBool::True);
    assert_eq!(assignment.last_decision_lit(), Some(Lit::new(0, true)));

    assignment.propagate(1, true);
    assignment.propagate(3, false);
    assert!(assignment.is_complete());
    assert_eq!(assignment.to_solution(), vec![true, true, false, false]);
}

#[test]
fn backtrack_once_switches_then_removes_a_level() {
    let mut assignment = PartialAssignment::with_decisions(4, &DecisionPath(vec![]));
    assignment.decide(1);
    assignment.propagate(3, true);
    assignment.propagate(0, false);

    let mut given_up = Vec::new();
    let first = assignment.backtrack_once(&mut given_up);
    assert_eq!(first, BacktrackResult::TryAlternative(Lit::new(1, true)));
    assert_eq!(given_up, vec![0, 3]);
    assert_eq!(assignment.get_unchecked(1), OptBool::False);
    assert_eq!(assignment.get_unchecked(3), OptBool::Unassigned);
    assert_eq!(assignment.get_unchecked(0), OptBool::Unassigned);
    assert_eq!(assignment.decision_level(), 1);

    assignment.propagate(2, true);
    given_up.clear();
    let second = assignment.backtrack_once(&mut given_up);
    assert_eq!(second, BacktrackResult::ContinueBacktracking);
    assert_eq!(given_up, vec![2, 1]);
    assert_eq!(assignment.decision_level(), 0);
    assert!(!assignment.is_assigned(1));

    given_up.clear();
    let third = assignment.backtrack_once(&mut given_up);
    assert_eq!(third, BacktrackResult::NoMoreDecisions);
    assert!(given_up.is_empty());
}

#[test]
fn backtrack_never_undoes_the_initial_decisions() {
    let initial = DecisionPath(vec![Lit::new(0, true), Lit::new(1, false)]);
    let mut assignment = PartialAssignment::with_decisions(5, &initial);
    let mut given_up = Vec::new();
    assert_eq!(
        assignment.backtrack_once(&mut given_up),
        BacktrackResult::NoMoreDecisions
    );
    assert_eq!(assignment.backtrack(&mut given_up), None);

    assignment.decide(2);
    assignment.decide(3);
    assignment.propagate(4, true);
    assert_eq!(
        assignment.backtrack(&mut given_up),
        Some(Lit::new(3, true))
    );
    assert_eq!(given_up, vec![4]);
    given_up.clear();
    assert_eq!(
        assignment.backtrack(&mut given_up),
        Some(Lit::new(2, true))
    );
    assert_eq!(given_up, vec![3]);
    given_up.clear();
    assert_eq!(assignment.backtrack(&mut given_up), None);
    assert_eq!(given_up, vec![2]);
    assert_eq!(assignment.decision_level(), 2);
    assert_eq!(assignment.get_unchecked(0), OptBool::True);
    assert_eq!(assignment.get_unchecked(1), OptBool::False);
}

#[test]
fn with_assignment_takes_assigned_variables_as_initial_levels() {
    let values = vec![
        OptBool::Unassigned,
        OptBool::True,
        OptBool::Unassigned,
        OptBool::False,
    ];
    let mut assignment = PartialAssignment::with_assignment(values, 2);
    assert_eq!(assignment.decision_level(), 2);
    assert_eq!(assignment.extract_decision(), vec![(1, true), (3, false)]);
    assert_eq!(assignment.to_solution(), vec![false, true, false, false]);
    // The initial levels have no mark: there is no last decision, no
    // decision literal to extract, and nothing to backtrack to.
    assert_eq!(assignment.last_decision(), OptBool::Unassigned);
    assert_eq!(assignment.last_decision_lit(), None);
    let mut path = Vec::new();
    assignment.extract_decisions(&mut path);
    assert!(path.is_empty());
    assert!(!assignment.is_complete());
    let mut given_up = Vec::new();
    assert_eq!(
        assignment.backtrack_once(&mut given_up),
        BacktrackResult::NoMoreDecisions
    );
    assert!(given_up.is_empty());
    assert_eq!(assignment.decision_level(), 2);
    // A decision on top of them is the third level, and the only one that
    // backtracking undoes.
    assignment.decide(0);
    assert_eq!(assignment.decision_level(), 3);
    assert_eq!(assignment.last_decision(), OptBool::True);
    assert_eq!(
        assignment.extract_decision(),
        vec![(1, true), (3, false), (0, true)]
    );
    assert_eq!(
        assignment.backtrack_once(&mut given_up),
        BacktrackResult::TryAlternative(Lit::new(0, true))
    );
    assert_eq!(
        assignment.backtrack_once(&mut given_up),
        BacktrackResult::ContinueBacktracking
    );
    assert_eq!(given_up, vec![0]);
    assert_eq!(
        assignment.backtrack_once(&mut given_up),
        BacktrackResult::NoMoreDecisions
    );
    assert_eq!(assignment.get_unchecked(1), OptBool::True);
    assert_eq!(assignment.get_unchecked(3), OptBool::False);
    let full = PartialAssignment::with_assignment(vec![OptBool::False, OptBool::True], 2);
    assert!(full.is_complete());
    assert_eq!(full.last_decision(), OptBool::Unassigned);
    assert_eq!(
        PartialAssignment::assignment_to_solution(&[OptBool::True, OptBool::Unassigned]),
        vec![true, false]
    );
    assert_eq!(
        PartialAssignment::get_unchecked_from(&[OptBool::True, OptBool::False], 1),
        OptBool::False
    );
}

#[test]
fn extract_decisions_upto_stops_at_the_level() {
    let initial = DecisionPath(vec![Lit::new(2, true), Lit::new(0, false), Lit::new(1, true)]);
    let assignment = PartialAssignment::with_decisions(3, &initial);
    let mut buffer = vec![Lit::new(7, true)];
    assignment.extract_decisions_upto(2, &mut buffer);
    assert_eq!(
        buffer,
        vec![Lit::new(7, true), Lit::new(2, true), Lit::new(0, false)]
    );
    let mut all = Vec::new();
    assignment.extract_decisions_upto(9, &mut all);
    assert_eq!(all.len(), 3);
}
