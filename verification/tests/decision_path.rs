use dpll::decision_path::DecisionPath;
use dpll::lit::Lit;
use dpll::opt_bool::OptBool;

#[test]
fn to_assignment_makes_each_literal_true() {
    let path = DecisionPath(vec![Lit::new(2, false), Lit::new(0, true)]);
    assert_eq!(
        path.to_assignment(4),
        vec![
            OptBool::True,
            OptBool::Unassigned,
            OptBool::False,
            OptBool::Unassigned
        ]
    );
    assert_eq!(
        DecisionPath(vec![]).to_assignment(2),
        vec![OptBool::Unassigned, OptBool::Unassigned]
    );
}

#[test]
fn later_literals_overrule_earlier_ones() {
    let path = DecisionPath(vec![Lit::new(1, true), Lit::new(1, false)]);
    assert_eq!(
        path.to_assignment(2),
        vec![OptBool::Unassigned, OptBool::False]
    );
}

#[test]
fn paths_from_literals_and_from_signed_numbers() {
    let from_lits = DecisionPath::from(vec![Lit::new(0, true), Lit::new(3, false)]);
    assert_eq!(from_lits.0, vec![Lit::new(0, true), Lit::new(3, false)]);
    let from_signed = DecisionPath::from_signed(&vec![1, -4, 2]);
    assert_eq!(
        from_signed.0,
        vec![Lit::new(0, true), Lit::new(3, false), Lit::new(1, true)]
    );
}

#[test]
fn validity_asks_for_range_and_distinct_variables() {
    assert!(DecisionPath(vec![]).is_valid_for(0));
    assert!(DecisionPath(vec![Lit::new(0, true), Lit::new(2, false)]).is_valid_for(3));
    assert!(!DecisionPath(vec![Lit::new(0, true), Lit::new(3, false)]).is_valid_for(3));
    assert!(!DecisionPath(vec![Lit::new(1, true), Lit::new(1, false)]).is_valid_for(3));
    assert!(!DecisionPath(vec![Lit::new(1, true), Lit::new(0, true), Lit::new(1, true)])
        .is_valid_for(3));
}
