use dpll::clause::Clause;
use dpll::decision_path::DecisionPath;
use dpll::indexed_heap::{has_priority, IndexedHeap};
use dpll::lit::Lit;
use dpll::partial_assignment::PartialAssignment;
use dpll::vsids::{ACTIVITY_LIMIT, ACTIVITY_ONE, VSIDS};

#[test]
fn heap_pops_by_score_then_by_smaller_id() {
    let scores: Vec<u64> = vec![5, 9, 5, 1, 9, 0];
    let mut heap = IndexedHeap::with_capacity(6);
    for id in 0..6 {
        assert!(!heap.contains(id));
        heap.insert(id, &scores);
        assert!(heap.contains(id));
    }
    assert_eq!(heap.len(), 6);
    let mut order = Vec::new();
    while let Some(id) = heap.pop(&scores) {
        assert!(!heap.contains(id));
        order.push(id);
    }
    assert_eq!(order, vec![1, 4, 0, 2, 3, 5]);
    assert_eq!(heap.pop(&scores), None);
    assert_eq!(heap.len(), 0);
}

#[test]
fn heap_update_follows_a_changed_score() {
    let mut scores: Vec<u64> = vec![10, 20, 30, 40];
    let mut heap = IndexedHeap::with_capacity(4);
    for id in 0..4 {
        heap.insert(id, &scores);
    }
    scores[0] = 100;
    heap.update(0, &scores);
    assert_eq!(heap.pop(&scores), Some(0));
    scores[3] = 5;
    heap.update(3, &scores);
    assert_eq!(heap.pop(&scores), Some(2));
    assert_eq!(heap.pop(&scores), Some(1));
    assert_eq!(heap.pop(&scores), Some(3));
    assert_eq!(heap.pop(&scores), None);
}

#[test]
fn priority_is_score_then_smaller_id() {
    let scores: Vec<u64> = vec![3, 7, 3];
    assert!(has_priority(&scores, 1, 0));
    assert!(!has_priority(&scores, 0, 1));
    assert!(has_priority(&scores, 0, 2));
    assert!(!has_priority(&scores, 2, 0));
    assert!(!has_priority(&scores, 1, 1));
}

#[test]
fn vsids_hands_out_the_most_active_unassigned_variable() {
    let mut vsids = VSIDS::with_scores(&[1, 8, 3, 8]);
    let mut assignment = PartialAssignment::with_decisions(4, &DecisionPath(vec![]));
    assignment.propagate(1, true);
    assert_eq!(vsids.pop_most_active_unassigned_var(&assignment), Some(3));
    assert_eq!(vsids.pop_most_active_unassigned_var(&assignment), Some(2));
    assert_eq!(vsids.pop_most_active_unassigned_var(&assignment), Some(0));
    assert_eq!(vsids.pop_most_active_unassigned_var(&assignment), None);
    vsids.on_unassign_var(2);
    vsids.on_unassign_var(2);
    assert_eq!(vsids.pop_most_active_unassigned_var(&assignment), Some(2));
    assert_eq!(vsids.pop_most_active_unassigned_var(&assignment), None);
}

#[test]
fn bumps_raise_scores_by_a_growing_increment() {
    let mut vsids = VSIDS::with_scores(&[0, 0, 0]);
    let assignment = PartialAssignment::with_decisions(3, &DecisionPath(vec![]));
    // One bump of variable 2 puts it in front.
    vsids.bump_var_activities(&[2]);
    assert_eq!(vsids.pop_most_active_unassigned_var(&assignment), Some(2));
    vsids.on_unassign_var(2);
    // After a conflict the increment is larger by one part in nineteen, so
    // one later bump of variable 1 outweighs the earlier bump of variable 2.
    vsids.decay();
    vsids.bump_var_activities(&[1]);
    assert_eq!(vsids.pop_most_active_unassigned_var(&assignment), Some(1));
    assert_eq!(vsids.pop_most_active_unassigned_var(&assignment), Some(2));
    assert_eq!(vsids.pop_most_active_unassigned_var(&assignment), Some(0));
}

#[test]
fn bumping_the_literals_of_a_clause_bumps_their_variables() {
    let mut vsids = VSIDS::with_scores(&[5, 5, 5, 5]);
    let assignment = PartialAssignment::with_decisions(4, &DecisionPath(vec![]));
    let clause = Clause::from_lits(&[Lit::new(3, false), Lit::new(1, true)]);
    vsids.bump_lit_activities(&clause);
    assert_eq!(vsids.pop_most_active_unassigned_var(&assignment), Some(1));
    assert_eq!(vsids.pop_most_active_unassigned_var(&assignment), Some(3));
    assert_eq!(vsids.pop_most_active_unassigned_var(&assignment), Some(0));
    assert_eq!(vsids.pop_most_active_unassigned_var(&assignment), Some(2));
}

#[test]
fn scores_are_scaled_down_beyond_the_limit() {
    let mut vsids = VSIDS::with_scores(&[ACTIVITY_LIMIT, ACTIVITY_LIMIT - ACTIVITY_ONE, 7]);
    let assignment = PartialAssignment::with_decisions(3, &DecisionPath(vec![]));
    // The bump takes variable 1 to the limit, not beyond it.
    vsids.bump_var_activity(1);
    // Now variable 0 passes the limit and everything is scaled down; the
    // order of the scores stays.
    vsids.bump_var_activity(0);
    vsids.rescale();
    assert_eq!(vsids.pop_most_active_unassigned_var(&assignment), Some(0));
    assert_eq!(vsids.pop_most_active_unassigned_var(&assignment), Some(1));
    assert_eq!(vsids.pop_most_active_unassigned_var(&assignment), Some(2));
}

#[test]
fn many_conflicts_keep_the_numbers_in_bounds() {
    let mut vsids = VSIDS::with_scores(&[0, 0]);
    let assignment = PartialAssignment::with_decisions(2, &DecisionPath(vec![]));
    for round in 0..5000 {
        vsids.bump_var_activities(&[round % 2]);
        vsids.decay();
    }
    // The last bump went to variable 1 and weighs most.
    assert_eq!(vsids.pop_most_active_unassigned_var(&assignment), Some(1));
    assert_eq!(vsids.pop_most_active_unassigned_var(&assignment), Some(0));
}
