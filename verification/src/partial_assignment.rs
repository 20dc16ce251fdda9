//! The partial assignment of a search: the value of every variable, the
//! trail of assignments in the order in which they were made, and the marks
//! that split the trail into decision levels.

use crate::decision_path::{path_assignment, path_distinct, path_in_range, DecisionPath};
use crate::decision_path::lemma_path_assignment;
use crate::lit::{Lit, VariableId, MAX_VARS};
use crate::opt_bool::OptBool;
use vstd::prelude::*;

verus! {

/// What a single step of backtracking found.
#[derive(Debug, Clone, Copy, PartialEq, Eq, Structural)]
pub enum BacktrackResult {
    /// The last decision was switched from true to false. The literal is the
    /// positive literal of its variable, which has just become false.
    TryAlternative(Lit),
    /// No decision above the initial ones is left.
    NoMoreDecisions,
    /// Both values of the last decision were tried: the level was removed.
    ContinueBacktracking,
}

/// The mathematical content of a `PartialAssignment`.
pub struct AssignmentView {
    /// The value of each variable.
    pub state: Seq<OptBool>,
    /// The assigned variables, oldest first.
    pub trail: Seq<usize>,
    /// For each decision level, the place of its decision in the trail.
    pub marks: Seq<usize>,
    /// The number of levels that were given at the start and are never undone.
    pub initial_level: nat,
}

/// The entries of `trail` from the end down to `new_len`, last entry first:
/// the order in which shortening the trail to `new_len` gives them up.
pub open spec fn popped_suffix(trail: Seq<usize>, new_len: int) -> Seq<usize> {
    Seq::new((trail.len() - new_len) as nat, |j: int| trail[trail.len() - 1 - j])
}

impl AssignmentView {
    /// The number of variables.
    pub open spec fn num_vars(self) -> nat {
        self.state.len()
    }

    /// Whether `var` has a value.
    pub open spec fn assigned(self, var: int) -> bool {
        self.state[var] != OptBool::Unassigned
    }

    /// The trail holds exactly the assigned variables, each once, and the
    /// marks climb strictly inside the trail, the initial levels first.
    pub open spec fn wf(self) -> bool {
        &&& self.state.len() <= MAX_VARS
        &&& forall|i: int| 0 <= i < self.trail.len() ==> (#[trigger] self.trail[i]) < self.state.len()
        &&& forall|i: int, j: int|
            0 <= i < j < self.trail.len() ==> (#[trigger] self.trail[i]) != (
            #[trigger] self.trail[j])
        &&& forall|i: int|
            0 <= i < self.trail.len() ==> self.state[(#[trigger] self.trail[i]) as int]
                != OptBool::Unassigned
        &&& forall|v: int|
            0 <= v < self.state.len() && (#[trigger] self.state[v]) != OptBool::Unassigned
                ==> self.trail.contains(v as usize)
        &&& forall|i: int, j: int|
            0 <= i < j < self.marks.len() ==> (#[trigger] self.marks[i]) < (
            #[trigger] self.marks[j])
        &&& forall|i: int| 0 <= i < self.marks.len() ==> (#[trigger] self.marks[i]) < self.trail.len()
        &&& self.initial_level <= self.marks.len()
        &&& forall|i: int| 0 <= i < self.initial_level ==> (#[trigger] self.marks[i]) == i
    }

    /// The variable decided at `level` (levels count from zero here).
    pub open spec fn decision_var(self, level: int) -> usize {
        self.trail[self.marks[level] as int]
    }

    /// The decision of `level` as a literal: the variable with the polarity
    /// of its present value.
    pub open spec fn decision_lit(self, level: int) -> Lit {
        Lit::spec_new(
            self.decision_var(level),
            self.state[self.decision_var(level) as int] == OptBool::True,
        )
    }

    /// The decisions of all levels, first level first.
    pub open spec fn decisions(self) -> Seq<Lit> {
        Seq::new(self.marks.len(), |level: int| self.decision_lit(level))
    }

    /// The values once every trail entry from place `from` on is unassigned.
    pub open spec fn cleared_from(self, from: int) -> Seq<OptBool> {
        Seq::new(
            self.state.len(),
            |v: int|
                if exists|j: int| from <= j < self.trail.len() && self.trail[j] == v {
                    OptBool::Unassigned
                } else {
                    self.state[v]
                },
        )
    }

    /// Whether a step of backtracking can undo anything.
    pub open spec fn can_backtrack(self) -> bool {
        self.marks.len() > self.initial_level
    }

    /// Whether the last decision still holds its first value, true.
    pub open spec fn last_is_first_branch(self) -> bool {
        self.state[self.decision_var(self.marks.len() - 1) as int] == OptBool::True
    }

    /// The assignment after `propagate(var, val)`.
    pub open spec fn propagated(self, var: usize, val: bool) -> AssignmentView {
        AssignmentView {
            state: self.state.update(var as int, OptBool::of(val)),
            trail: self.trail.push(var),
            ..self
        }
    }

    /// The assignment after `decide(var)`.
    pub open spec fn decided(self, var: usize) -> AssignmentView {
        AssignmentView {
            state: self.state.update(var as int, OptBool::True),
            trail: self.trail.push(var),
            marks: self.marks.push(self.trail.len() as usize),
            ..self
        }
    }

    /// The assignment after the last level lost its propagations and its
    /// decision went from true to false.
    pub open spec fn flipped(self) -> AssignmentView {
        let mark = self.marks.last() as int;
        AssignmentView {
            state: self.cleared_from(mark + 1).update(self.trail[mark] as int, OptBool::False),
            trail: self.trail.take(mark + 1),
            ..self
        }
    }

    /// The assignment after the last level was removed altogether.
    pub open spec fn popped(self) -> AssignmentView {
        let mark = self.marks.last() as int;
        AssignmentView {
            state: self.cleared_from(mark),
            trail: self.trail.take(mark),
            marks: self.marks.drop_last(),
            ..self
        }
    }

    /// The assignment after one step of backtracking.
    pub open spec fn backtracked_once(self) -> AssignmentView {
        if !self.can_backtrack() {
            self
        } else if self.last_is_first_branch() {
            self.flipped()
        } else {
            self.popped()
        }
    }

    /// What one step of backtracking answers.
    pub open spec fn backtrack_once_result(self) -> BacktrackResult {
        if !self.can_backtrack() {
            BacktrackResult::NoMoreDecisions
        } else if self.last_is_first_branch() {
            BacktrackResult::TryAlternative(
                Lit::spec_new(self.decision_var(self.marks.len() - 1), true),
            )
        } else {
            BacktrackResult::ContinueBacktracking
        }
    }

    /// The assignment after backtracking to the deepest level above the
    /// initial ones whose decision is still on its first branch, or to the
    /// initial levels where there is none.
    pub open spec fn backtracked(self) -> AssignmentView
        decreases self.marks.len(),
    {
        if self.can_backtrack() && !self.last_is_first_branch() {
            self.popped().backtracked()
        } else {
            self.backtracked_once()
        }
    }

    /// What backtracking answers: the literal that the switched decision has
    /// made false, or nothing where no decision could be switched.
    pub open spec fn backtrack_result(self) -> Option<Lit>
        decreases self.marks.len(),
    {
        if !self.can_backtrack() {
            None
        } else if self.last_is_first_branch() {
            Some(Lit::spec_new(self.decision_var(self.marks.len() - 1), true))
        } else {
            self.popped().backtrack_result()
        }
    }
}

/// A sequence without repeats whose entries lie below `n` has at most `n`
/// entries, and one that holds every number below `n` has exactly `n`.
pub proof fn lemma_distinct_bounded(s: Seq<usize>, n: usize)
    requires
        forall|i: int| 0 <= i < s.len() ==> (#[trigger] s[i]) < n,
        forall|i: int, j: int| 0 <= i < j < s.len() ==> (#[trigger] s[i]) != (#[trigger] s[j]),
    ensures
        s.len() <= n,
        (forall|v: usize| v < n ==> #[trigger] s.contains(v)) ==> s.len() == n,
    decreases n,
{
    if n == 0 {
        if s.len() > 0 {
            assert(s[0] < n);
        }
    } else {
        let top = (n - 1) as usize;
        if s.contains(top) {
            let at = choose|i: int| 0 <= i < s.len() && s[i] == top;
            let rest = s.remove(at);
            assert forall|i: int| 0 <= i < rest.len() implies (#[trigger] rest[i]) < n - 1 by {
                if i < at {
                    assert(rest[i] == s[i]);
                } else {
                    assert(rest[i] == s[i + 1]);
                }
            }
            assert forall|i: int, j: int| 0 <= i < j < rest.len() implies (#[trigger] rest[i]) != (
            #[trigger] rest[j]) by {
                let si = if i < at { i } else { i + 1 };
                let sj = if j < at { j } else { j + 1 };
                assert(rest[i] == s[si] && rest[j] == s[sj]);
            }
            lemma_distinct_bounded(rest, (n - 1) as usize);
            if forall|v: usize| v < n ==> #[trigger] s.contains(v) {
                assert forall|v: usize| v < n - 1 implies #[trigger] rest.contains(v) by {
                    assert(s.contains(v));
                    let k = choose|k: int| 0 <= k < s.len() && s[k] == v;
                    if k < at {
                        assert(rest[k] == s[k]);
                    } else {
                        assert(k != at);
                        assert(rest[k - 1] == s[k]);
                    }
                }
            }
        } else {
            assert forall|i: int| 0 <= i < s.len() implies (#[trigger] s[i]) < n - 1 by {
                assert(s.contains(s[i]));
            }
            lemma_distinct_bounded(s, (n - 1) as usize);
            assert(!(forall|v: usize| v < n ==> #[trigger] s.contains(v))) by {
                assert(!s.contains(top));
            }
        }
    }
}

impl AssignmentView {
    /// In a well-formed assignment the trail is as long as there are
    /// assigned variables: never longer than the number of variables, and
    /// of that length exactly when every variable has a value.
    pub proof fn lemma_trail_counts_assigned(self)
        requires
            self.wf(),
        ensures
            self.trail.len() <= self.state.len(),
            self.trail.len() == self.state.len() <==> (forall|v: int|
                0 <= v < self.state.len() ==> self.assigned(v)),
    {
        lemma_distinct_bounded(self.trail, self.state.len() as usize);
        if forall|v: int| 0 <= v < self.state.len() ==> self.assigned(v) {
            assert forall|v: usize| v < self.state.len() implies #[trigger] self.trail.contains(
                v,
            ) by {
                assert(self.assigned(v as int));
            }
        }
        if self.trail.len() == self.state.len() {
            assert forall|v: int| 0 <= v < self.state.len() implies self.assigned(v) by {
                if !self.assigned(v) {
                    assert(!self.trail.contains(v as usize)) by {
                        if self.trail.contains(v as usize) {
                            let k = choose|k: int|
                                0 <= k < self.trail.len() && self.trail[k] == v as usize;
                            assert(self.state[self.trail[k] as int] != OptBool::Unassigned);
                        }
                    }
                    let longer = self.trail.push(v as usize);
                    assert forall|i: int, j: int| 0 <= i < j < longer.len() implies (
                    #[trigger] longer[i]) != (#[trigger] longer[j]) by {
                        if j == self.trail.len() {
                            assert(self.trail.contains(self.trail[i]));
                        }
                    }
                    lemma_distinct_bounded(longer, self.state.len() as usize);
                }
            }
        }
    }

    /// Assigning a variable that had no value keeps the assignment
    /// well-formed, with or without a new decision level.
    pub proof fn lemma_assign_wf(self, var: usize, val: bool)
        requires
            self.wf(),
            var < self.state.len(),
            !self.assigned(var as int),
        ensures
            self.propagated(var, val).wf(),
            self.decided(var).wf(),
            self.trail.len() < self.state.len(),
    {
        self.lemma_trail_counts_assigned();
        assert(!self.trail.contains(var)) by {
            if self.trail.contains(var) {
                let k = choose|k: int| 0 <= k < self.trail.len() && self.trail[k] == var;
                assert(self.state[self.trail[k] as int] != OptBool::Unassigned);
            }
        }
        let p = self.propagated(var, val);
        let d = self.decided(var);
        assert(p.trail == d.trail);
        assert forall|i: int, j: int| 0 <= i < j < p.trail.len() implies (#[trigger] p.trail[i])
            != (#[trigger] p.trail[j]) by {
            if j == self.trail.len() {
                assert(self.trail.contains(self.trail[i]));
            }
        }
        assert forall|v: int|
            0 <= v < p.state.len() && (#[trigger] p.state[v])
                != OptBool::Unassigned implies p.trail.contains(v as usize) by {
            if v == var {
                assert(p.trail[self.trail.len() as int] == var);
            } else {
                assert(self.state[v] != OptBool::Unassigned);
                let k = choose|k: int| 0 <= k < self.trail.len() && self.trail[k] == v as usize;
                assert(p.trail[k] == v as usize);
            }
        }
        assert forall|v: int|
            0 <= v < d.state.len() && (#[trigger] d.state[v])
                != OptBool::Unassigned implies d.trail.contains(v as usize) by {
            if v == var {
                assert(d.trail[self.trail.len() as int] == var);
            } else {
                assert(self.state[v] != OptBool::Unassigned);
                let k = choose|k: int| 0 <= k < self.trail.len() && self.trail[k] == v as usize;
                assert(d.trail[k] == v as usize);
            }
        }
        assert forall|i: int| 0 <= i < p.trail.len() implies p.state[(
        #[trigger] p.trail[i]) as int] != OptBool::Unassigned by {
            if i < self.trail.len() {
                assert(self.trail[i] == p.trail[i]);
            }
        }
        assert forall|i: int| 0 <= i < d.trail.len() implies d.state[(
        #[trigger] d.trail[i]) as int] != OptBool::Unassigned by {
            if i < self.trail.len() {
                assert(self.trail[i] == d.trail[i]);
            }
        }
        if self.trail.len() == self.state.len() {
            assert(self.assigned(var as int));
        }
    }

    /// Shortening the trail to `new_len` entries, with the variables given
    /// up unassigned and the marks that point beyond `new_len`
    /// dropped, keeps the assignment well-formed.
    pub proof fn lemma_truncate_wf(self, new_len: int, new_marks: int)
        requires
            self.wf(),
            0 <= new_len <= self.trail.len(),
            self.initial_level <= new_marks <= self.marks.len(),
            forall|i: int| 0 <= i < new_marks ==> (#[trigger] self.marks[i]) < new_len,
        ensures
            (AssignmentView {
                state: self.cleared_from(new_len),
                trail: self.trail.take(new_len),
                marks: self.marks.take(new_marks),
                initial_level: self.initial_level,
            }).wf(),
    {
        let t = AssignmentView {
            state: self.cleared_from(new_len),
            trail: self.trail.take(new_len),
            marks: self.marks.take(new_marks),
            initial_level: self.initial_level,
        };
        assert forall|i: int| 0 <= i < t.trail.len() implies t.state[(
        #[trigger] t.trail[i]) as int] != OptBool::Unassigned by {
            assert(t.trail[i] == self.trail[i]);
            let v = self.trail[i] as int;
            assert(!(exists|j: int| new_len <= j < self.trail.len() && self.trail[j] == v)) by {
                if exists|j: int| new_len <= j < self.trail.len() && self.trail[j] == v {
                    let j = choose|j: int| new_len <= j < self.trail.len() && self.trail[j] == v;
                    assert(self.trail[i] != self.trail[j]);
                }
            }
        }
        assert forall|v: int|
            0 <= v < t.state.len() && (#[trigger] t.state[v])
                != OptBool::Unassigned implies t.trail.contains(v as usize) by {
            assert(self.state[v] != OptBool::Unassigned);
            let k = choose|k: int| 0 <= k < self.trail.len() && self.trail[k] == v as usize;
            if k >= new_len {
                assert(new_len <= k < self.trail.len() && self.trail[k] == v);
            }
            assert(t.trail[k] == v as usize);
        }
        assert forall|i: int, j: int| 0 <= i < j < t.marks.len() implies (#[trigger] t.marks[i])
            < (#[trigger] t.marks[j]) by {
            assert(t.marks[i] == self.marks[i] && t.marks[j] == self.marks[j]);
        }
        assert forall|i: int| 0 <= i < t.initial_level implies (#[trigger] t.marks[i]) == i by {
            assert(t.marks[i] == self.marks[i]);
        }
    }

    /// One step of backtracking keeps the assignment well-formed.
    pub proof fn lemma_backtracked_once_wf(self)
        requires
            self.wf(),
        ensures
            self.backtracked_once().wf(),
            self.can_backtrack() ==> self.popped().wf(),
    {
        if self.can_backtrack() {
            let last = self.marks.len() - 1;
            let mark = self.marks[last] as int;
            assert(self.marks.take(last) =~= self.marks.drop_last());
            assert(self.marks.take(last + 1) =~= self.marks);
            assert forall|i: int| 0 <= i < last implies (#[trigger] self.marks[i]) < mark by {
                assert(self.marks[i] < self.marks[last]);
            }
            self.lemma_truncate_wf(mark, last);
            self.lemma_truncate_wf(mark + 1, last + 1);
            if self.last_is_first_branch() {
                let cut = AssignmentView {
                    state: self.cleared_from(mark + 1),
                    trail: self.trail.take(mark + 1),
                    marks: self.marks,
                    initial_level: self.initial_level,
                };
                let f = self.flipped();
                let d = self.trail[mark];
                assert(cut.trail[mark] == d);
                assert(cut.state[cut.trail[mark] as int] != OptBool::Unassigned);
                assert forall|v: int|
                    0 <= v < f.state.len() && (#[trigger] f.state[v])
                        != OptBool::Unassigned implies f.trail.contains(v as usize) by {
                    if v == d {
                        assert(f.trail[mark] == d);
                    } else {
                        assert(cut.state[v] != OptBool::Unassigned);
                    }
                }
                assert forall|i: int| 0 <= i < f.trail.len() implies f.state[(
                #[trigger] f.trail[i]) as int] != OptBool::Unassigned by {
                    assert(cut.state[cut.trail[i] as int] != OptBool::Unassigned);
                }
            }
        }
    }
}

impl AssignmentView {
    /// The decisions of a well-formed assignment make a decision path: over
    /// the variables, and with no variable twice. Each literal of the path
    /// is true under the assignment.
    pub proof fn lemma_decisions_path(self)
        requires
            self.wf(),
        ensures
            path_in_range(self.decisions(), self.state.len()),
            path_distinct(self.decisions()),
            forall|level: int|
                0 <= level < self.marks.len() ==> self.state[(
                #[trigger] self.decisions()[level]).spec_var() as int] == OptBool::of(
                    self.decisions()[level].spec_is_pos(),
                ),
    {
        let path = self.decisions();
        assert forall|level: int| 0 <= level < path.len() implies (
        #[trigger] path[level]).spec_var() == self.decision_var(level) && path[level].spec_is_pos()
            == (self.state[self.decision_var(level) as int] == OptBool::True) by {
            assert(self.marks[level] < self.trail.len());
            assert(self.trail[self.marks[level] as int] < self.state.len());
        }
        assert forall|i: int, j: int| 0 <= i < j < path.len() implies (#[trigger] path[i]).spec_var()
            != (#[trigger] path[j]).spec_var() by {
            assert(self.marks[i] < self.marks[j]);
            assert(self.trail[self.marks[i] as int] != self.trail[self.marks[j] as int]);
        }
        assert forall|level: int| 0 <= level < self.marks.len() implies self.state[(
        #[trigger] self.decisions()[level]).spec_var() as int] == OptBool::of(
            self.decisions()[level].spec_is_pos(),
        ) by {
            assert(self.state[self.trail[self.marks[level] as int] as int]
                != OptBool::Unassigned);
        }
    }
}

/// The partial assignment of the variables during a search. It records
/// decisions and propagations and undoes them level by level.
pub struct PartialAssignment {
    /// The value of each variable.
    current_state: Vec<OptBool>,
    /// Every assigned variable, in the order of assignment.
    history: Vec<VariableId>,
    /// For each decision level, the index in `history` of its decision.
    decision_marks: Vec<usize>,
    /// The number of assigned variables.
    num_assigned: usize,
    /// The number of levels given at the start.
    initial_decision_level: usize,
    /// The number of levels that were given at the start as values only:
    /// they count as levels, but no mark points at them.
    unmarked_levels: usize,
}

/// Marks that climb strictly from `base` on lie at least their level
/// above `base`.
pub proof fn lemma_mark_offset(marks: Seq<usize>, base: nat, level: int)
    requires
        forall|i: int, j: int| 0 <= i < j < marks.len() ==> (#[trigger] marks[i]) < (
        #[trigger] marks[j]),
        forall|i: int| 0 <= i < marks.len() ==> (#[trigger] marks[i]) >= base,
        0 <= level < marks.len(),
    ensures
        marks[level] >= base + level,
    decreases level,
{
    if level > 0 {
        lemma_mark_offset(marks, base, level - 1);
        assert(marks[level - 1] < marks[level]);
    }
}

impl View for PartialAssignment {
    type V = AssignmentView;

    closed spec fn view(&self) -> AssignmentView {
        AssignmentView {
            state: self.current_state@,
            trail: self.history@,
            marks: self.decision_marks@,
            initial_level: self.initial_decision_level as nat,
        }
    }
}

impl PartialAssignment {
    /// The number of levels that were given at the start as values only.
    /// They stand first on the trail, count as decision levels, and have
    /// no decision mark.
    pub closed spec fn unmarked(&self) -> nat {
        self.unmarked_levels as nat
    }

    /// The view is well-formed, the counter of assigned variables agrees
    /// with the trail, and the levels without a mark stand on the trail
    /// before every mark.
    pub closed spec fn wf(&self) -> bool {
        &&& self@.wf()
        &&& self.num_assigned == self.history@.len()
        &&& self.unmarked_levels <= self.history@.len()
        &&& forall|i: int|
            0 <= i < self.decision_marks@.len() ==> (#[trigger] self.decision_marks@[i])
                >= self.unmarked_levels
    }

    /// The decision level, marked and unmarked levels together, is no more
    /// than the number of assigned variables.
    pub proof fn lemma_level_bound(&self)
        requires
            self.wf(),
        ensures
            self@.marks.len() + self.unmarked() <= self@.trail.len(),
            self@.initial_level > 0 ==> self.unmarked() == 0,
    {
        let marks = self@.marks;
        if marks.len() > 0 {
            lemma_mark_offset(marks, self.unmarked(), marks.len() - 1);
            assert(marks[marks.len() - 1] < self@.trail.len());
        }
        if self@.initial_level > 0 {
            assert(marks[0] == 0);
        }
    }

    /// The trail and the values go together: a variable is on the trail
    /// exactly if it has a value.
    pub proof fn lemma_trail_state_coherence(&self)
        requires
            self.wf(),
        ensures
            forall|v: usize|
                #[trigger] self@.trail.contains(v) <==> v < self@.num_vars() && self@.state[v as int]
                    != OptBool::Unassigned,
    {
        let a = self@;
        assert forall|v: usize| #[trigger] a.trail.contains(v) <==> v < a.num_vars() && a.state[v as int]
            != OptBool::Unassigned by {
            if a.trail.contains(v) {
                let i = choose|i: int| 0 <= i < a.trail.len() && a.trail[i] == v;
                assert(a.trail[i] < a.state.len());
                assert(a.state[a.trail[i] as int] != OptBool::Unassigned);
            }
            if v < a.num_vars() && a.state[v as int] != OptBool::Unassigned {
                assert(a.trail.contains(v as int as usize));
            }
        }
    }

    /// The decision marks climb strictly, and each lies inside the trail.
    pub proof fn lemma_marks_increasing(&self)
        requires
            self.wf(),
        ensures
            forall|i: int, j: int|
                0 <= i < j < self@.marks.len() ==> self@.marks[i] < self@.marks[j],
            forall|i: int|
                0 <= i < self@.marks.len() ==> (#[trigger] self@.marks[i]) < self@.trail.len(),
    {
    }

    /// Well-formedness of the assignment is that of its view.
    pub proof fn lemma_wf_view(&self)
        requires
            self.wf(),
        ensures
            self@.wf(),
    {
    }

    /// The assignment in which exactly the decisions of `initial_decisions`
    /// are made, each on a level of its own. These levels are never undone.
    pub fn with_decisions(num_vars: usize, initial_decisions: &DecisionPath) -> (assignment:
        PartialAssignment)
        requires
            num_vars <= MAX_VARS,
            path_in_range(initial_decisions@, num_vars as nat),
            path_distinct(initial_decisions@),
        ensures
            assignment.wf(),
            assignment@.state == path_assignment(initial_decisions@, num_vars as nat),
            assignment@.state.len() == num_vars,
            assignment@.trail == Seq::new(
                initial_decisions@.len(),
                |i: int| initial_decisions@[i].spec_var(),
            ),
            assignment@.marks == Seq::new(initial_decisions@.len(), |i: int| i as usize),
            assignment@.initial_level == initial_decisions@.len(),
            assignment.unmarked() == 0,
    {
        let count = initial_decisions.0.len();
        let mut history: Vec<VariableId> = Vec::new();
        let mut decision_marks: Vec<usize> = Vec::new();
        let mut i: usize = 0;
        while i < count
            invariant
                count == initial_decisions@.len(),
                i <= count,
                history@.len() == i,
                decision_marks@.len() == i,
                forall|j: int| 0 <= j < i ==> #[trigger] history@[j] == initial_decisions@[j].spec_var(),
                forall|j: int| 0 <= j < i ==> #[trigger] decision_marks@[j] == j,
            decreases count - i,
        {
            history.push(initial_decisions.0[i].var());
            decision_marks.push(i);
            i = i + 1;
        }
        let current_state = initial_decisions.to_assignment(num_vars);
        let assignment = PartialAssignment {
            current_state,
            history,
            decision_marks,
            num_assigned: count,
            initial_decision_level: count,
            unmarked_levels: 0,
        };
        proof {
            let path = initial_decisions@;
            lemma_path_assignment(path, num_vars as nat);
            let view = assignment@;
            assert(view.trail =~= Seq::new(path.len(), |i: int| path[i].spec_var()));
            assert(view.marks =~= Seq::new(path.len(), |i: int| i as usize));
            assert forall|i: int| 0 <= i < view.trail.len() implies view.state[(
            #[trigger] view.trail[i]) as int] != OptBool::Unassigned by {
                assert(view.state[path[i].spec_var() as int] == OptBool::of(
                    path[i].spec_is_pos(),
                ));
            }
            assert forall|v: int|
                0 <= v < view.state.len() && (#[trigger] view.state[v])
                    != OptBool::Unassigned implies view.trail.contains(v as usize) by {
                if forall|i: int| 0 <= i < path.len() ==> (#[trigger] path[i]).spec_var() != v {
                    assert(view.state[v] == OptBool::Unassigned);
                } else {
                    let i = choose|i: int| 0 <= i < path.len() && path[i].spec_var() == v;
                    assert(view.trail[i] == v as usize);
                }
            }
        }
        assignment
    }

    /// The assignment that starts from the values of `initial_assignment`.
    /// Its assigned variables stand on the trail in the order of their ids.
    /// Each of them counts as a decision level, and `initial_decision_level`
    /// is their number; but none has a decision mark, so there is no last
    /// decision and nothing to backtrack to.
    pub fn with_assignment(initial_assignment: Vec<OptBool>, initial_decision_level: usize) -> (assignment:
        PartialAssignment)
        requires
            initial_assignment@.len() <= MAX_VARS,
            initial_decision_level == count_assigned(initial_assignment@),
        ensures
            assignment.wf(),
            assignment@.state == initial_assignment@,
            assignment@.marks == Seq::<usize>::empty(),
            assignment@.initial_level == 0,
            assignment.unmarked() == initial_decision_level,
            assignment@.trail.len() == initial_decision_level,
            forall|i: int, j: int|
                0 <= i < j < assignment@.trail.len() ==> (#[trigger] assignment@.trail[i]) < (
                #[trigger] assignment@.trail[j]),
    {
        let n = initial_assignment.len();
        let mut history: Vec<VariableId> = Vec::new();
        let mut v: usize = 0;
        assert(initial_assignment@.take(0).len() == 0);
        while v < n
            invariant
                n == initial_assignment@.len(),
                v <= n,
                history@.len() == count_assigned(initial_assignment@.take(v as int)),
                history@.len() <= v,
                forall|j: int| 0 <= j < history@.len() ==> (#[trigger] history@[j]) < v,
                forall|j: int|
                    0 <= j < history@.len() ==> initial_assignment@[(
                    #[trigger] history@[j]) as int] != OptBool::Unassigned,
                forall|i: int, j: int|
                    0 <= i < j < history@.len() ==> (#[trigger] history@[i]) < (
                    #[trigger] history@[j]),
                forall|u: int|
                    0 <= u < v && (#[trigger] initial_assignment@[u]) != OptBool::Unassigned
                        ==> history@.contains(u as usize),
            decreases n - v,
        {
            proof {
                let upto = initial_assignment@.take(v + 1);
                assert(upto.drop_last() =~= initial_assignment@.take(v as int));
                assert(upto.last() == initial_assignment@[v as int]);
            }
            if initial_assignment[v].is_some() {
                let ghost before = history@;
                history.push(v);
                proof {
                    assert forall|u: int|
                        0 <= u < v + 1 && (#[trigger] initial_assignment@[u])
                            != OptBool::Unassigned implies history@.contains(u as usize) by {
                        if u == v {
                            assert(history@[before.len() as int] == v);
                        } else {
                            let k = choose|k: int| 0 <= k < before.len() && before[k] == u as usize;
                            assert(history@[k] == u as usize);
                        }
                    }
                }
            }
            v = v + 1;
        }
        assert(initial_assignment@.take(n as int) =~= initial_assignment@);
        let count = history.len();
        let assignment = PartialAssignment {
            current_state: initial_assignment,
            history,
            decision_marks: Vec::new(),
            num_assigned: count,
            initial_decision_level: 0,
            unmarked_levels: count,
        };
        assert(assignment@.marks =~= Seq::<usize>::empty());
        assignment
    }

    /// The current decision level: the number of decisions on the trail,
    /// the initial ones included, those without a mark too.
    pub fn decision_level(&self) -> (level: usize)
        requires
            self.wf(),
        ensures
            level == self@.marks.len() + self.unmarked(),
    {
        proof {
            self.lemma_level_bound();
        }
        self.decision_marks.len() + self.unmarked_levels
    }

    /// Whether `var` has a value.
    pub fn is_assigned(&self, var: VariableId) -> (assigned: bool)
        requires
            var < self@.num_vars(),
        ensures
            assigned == self@.assigned(var as int),
    {
        self.current_state[var].is_some()
    }

    /// Gives the unassigned variable `var` the value `val` without opening a
    /// decision level.
    pub fn propagate(&mut self, var: VariableId, val: bool)
        requires
            old(self).wf(),
            var < old(self)@.num_vars(),
            !old(self)@.assigned(var as int),
        ensures
            final(self).wf(),
            final(self)@ == old(self)@.propagated(var, val),
            final(self).unmarked() == old(self).unmarked(),
    {
        proof {
            self@.lemma_assign_wf(var, val);
        }
        let state = if val {
            OptBool::True
        } else {
            OptBool::False
        };
        self.current_state.set(var, state);
        self.num_assigned = self.num_assigned + 1;
        self.history.push(var);
    }

    /// Opens a decision level and gives the unassigned variable `var` the
    /// value true: the first branch of every decision.
    pub fn decide(&mut self, var: VariableId)
        requires
            old(self).wf(),
            var < old(self)@.num_vars(),
            !old(self)@.assigned(var as int),
        ensures
            final(self).wf(),
            final(self)@ == old(self)@.decided(var),
            final(self).unmarked() == old(self).unmarked(),
    {
        proof {
            self@.lemma_assign_wf(var, true);
        }
        self.decision_marks.push(self.history.len());
        self.current_state.set(var, OptBool::True);
        self.num_assigned = self.num_assigned + 1;
        self.history.push(var);
    }

    /// Removes from the trail all that follows the decision of the last
    /// level, and returns the place of that decision. Each variable given up
    /// is appended to `unassigned`.
    fn undo_current_unit_propagations(&mut self, unassigned: &mut Vec<VariableId>) -> (mark: usize)
        requires
            old(self).wf(),
            old(self)@.marks.len() > 0,
        ensures
            mark == old(self)@.marks.last(),
            final(self).wf(),
            final(self)@.state == old(self)@.cleared_from(mark + 1),
            final(self)@.trail == old(self)@.trail.take(mark + 1),
            final(self)@.marks == old(self)@.marks,
            final(self)@.initial_level == old(self)@.initial_level,
            final(self).unmarked() == old(self).unmarked(),
            final(unassigned)@ == old(unassigned)@ + popped_suffix(old(self)@.trail, mark + 1),
    {
        let level_start = self.decision_marks[self.decision_marks.len() - 1];
        let ghost before = self@;
        assert(before.cleared_from(before.trail.len() as int) =~= before.state);
        assert(before.trail.take(before.trail.len() as int) =~= before.trail);
        assert(old(unassigned)@ + popped_suffix(before.trail, before.trail.len() as int)
            =~= old(unassigned)@);
        while self.history.len() > level_start + 1
            invariant
                before.wf(),
                before == old(self)@,
                level_start == before.marks.last(),
                level_start < self.history@.len() <= before.trail.len(),
                self.num_assigned == self.history@.len(),
                self@.state == before.cleared_from(self.history@.len() as int),
                self@.trail == before.trail.take(self.history@.len() as int),
                self@.marks == before.marks,
                self@.initial_level == before.initial_level,
                self.unmarked_levels == old(self).unmarked_levels,
                level_start >= self.unmarked_levels,
                unassigned@ == old(unassigned)@ + popped_suffix(
                    before.trail,
                    self.history@.len() as int,
                ),
            decreases self.history@.len(),
        {
            let ghost len = self.history@.len() as int;
            let ghost state = self@.state;
            let var = self.history.pop().unwrap();
            assert(var == before.trail[len - 1]);
            self.current_state.set(var, OptBool::Unassigned);
            self.num_assigned = self.num_assigned - 1;
            unassigned.push(var);
            proof {
                assert(self@.trail =~= before.trail.take(len - 1));
                assert forall|v: int| 0 <= v < before.state.len() implies self@.state[v]
                    == before.cleared_from(len - 1)[v] by {
                    if v == var {
                        assert(len - 1 <= len - 1 < before.trail.len() && before.trail[len - 1]
                            == v);
                    } else {
                        if exists|j: int| len - 1 <= j < before.trail.len() && before.trail[j] == v {
                            let j = choose|j: int|
                                len - 1 <= j < before.trail.len() && before.trail[j] == v;
                            assert(len <= j < before.trail.len() && before.trail[j] == v);
                        }
                    }
                }
                assert(self@.state =~= before.cleared_from(len - 1));
                assert(unassigned@ =~= old(unassigned)@ + popped_suffix(before.trail, len - 1));
            }
        }
        proof {
            let last = before.marks.len() - 1;
            assert(before.marks.take(last + 1) =~= before.marks);
            before.lemma_truncate_wf(level_start + 1, last + 1);
        }
        level_start
    }

    /// One step of backtracking.
    ///
    /// Undoes the propagations of the last level. If its decision is still
    /// true, it becomes false, and the positive literal of its variable, now
    /// false, is returned for the next round of propagation. If it was false
    /// already, both branches are done: the decision is undone as well and
    /// the level removed. Above the initial levels nothing is left to undo.
    /// Each variable that loses its value is appended to `unassigned`, in the
    /// order in which the trail gives them up.
    pub fn backtrack_once(&mut self, unassigned: &mut Vec<VariableId>) -> (result:
        BacktrackResult)
        requires
            old(self).wf(),
        ensures
            final(self).wf(),
            final(self)@ == old(self)@.backtracked_once(),
            final(self).unmarked() == old(self).unmarked(),
            result == old(self)@.backtrack_once_result(),
            final(self)@.trail == old(self)@.trail.take(final(self)@.trail.len() as int),
            final(self)@.trail.len() <= old(self)@.trail.len(),
            final(unassigned)@ == old(unassigned)@ + popped_suffix(
                old(self)@.trail,
                final(self)@.trail.len() as int,
            ),
    {
        let ghost before = self@;
        if self.decision_marks.len() <= self.initial_decision_level {
            assert(old(unassigned)@ + popped_suffix(before.trail, before.trail.len() as int)
                =~= old(unassigned)@);
            assert(before.trail.take(before.trail.len() as int) =~= before.trail);
            return BacktrackResult::NoMoreDecisions;
        }
        proof {
            before.lemma_backtracked_once_wf();
        }
        let decision_idx = self.undo_current_unit_propagations(unassigned);
        let decision_var = self.history[decision_idx];
        assert(decision_var == before.trail[decision_idx as int]);
        assert(self@.state[decision_var as int] == before.state[decision_var as int]) by {
            if exists|j: int|
                decision_idx + 1 <= j < before.trail.len() && before.trail[j] == decision_var {
                let j = choose|j: int|
                    decision_idx + 1 <= j < before.trail.len() && before.trail[j] == decision_var;
                assert(before.trail[decision_idx as int] != before.trail[j]);
            }
        }
        if self.current_state[decision_var].is_true() {
            self.current_state.set(decision_var, OptBool::False);
            assert(self@ == before.flipped());
            BacktrackResult::TryAlternative(Lit::new(decision_var, true))
        } else {
            let ghost mid = self@.state;
            let ghost mid_unassigned = unassigned@;
            self.current_state.set(decision_var, OptBool::Unassigned);
            self.num_assigned = self.num_assigned - 1;
            unassigned.push(decision_var);
            self.history.pop();
            self.decision_marks.pop();
            proof {
                let mark = decision_idx as int;
                assert(self@.trail =~= before.trail.take(mark));
                assert forall|v: int| 0 <= v < before.state.len() implies self@.state[v]
                    == before.cleared_from(mark)[v] by {
                    if v == decision_var {
                        assert(mark <= mark < before.trail.len() && before.trail[mark] == v);
                    } else {
                        if exists|j: int| mark <= j < before.trail.len() && before.trail[j] == v {
                            let j = choose|j: int|
                                mark <= j < before.trail.len() && before.trail[j] == v;
                            assert(mark + 1 <= j < before.trail.len() && before.trail[j] == v);
                        }
                    }
                }
                assert(self@.state =~= before.cleared_from(mark));
                assert(self@ == before.popped());
                assert(unassigned@ =~= old(unassigned)@ + popped_suffix(before.trail, mark));
            }
            BacktrackResult::ContinueBacktracking
        }
    }

    /// Backtracks to the deepest level whose decision has a branch left, and
    /// enters that branch. Returns the literal that this has made false, or
    /// nothing if every level above the initial ones is used up. Each
    /// variable that loses its value is appended to `unassigned`.
    pub fn backtrack(&mut self, unassigned: &mut Vec<VariableId>) -> (falsified: Option<Lit>)
        requires
            old(self).wf(),
        ensures
            final(self).wf(),
            final(self)@ == old(self)@.backtracked(),
            final(self).unmarked() == old(self).unmarked(),
            falsified == old(self)@.backtrack_result(),
            final(self)@.trail == old(self)@.trail.take(final(self)@.trail.len() as int),
            final(self)@.trail.len() <= old(self)@.trail.len(),
            final(unassigned)@ == old(unassigned)@ + popped_suffix(
                old(self)@.trail,
                final(self)@.trail.len() as int,
            ),
    {
        let ghost before = self@;
        assert(old(unassigned)@ + popped_suffix(before.trail, before.trail.len() as int)
            =~= old(unassigned)@);
        loop
            invariant
                self.wf(),
                before.wf(),
                before == old(self)@,
                self.unmarked() == old(self).unmarked(),
                self@.backtracked() == before.backtracked(),
                self@.backtrack_result() == before.backtrack_result(),
                self@.trail == before.trail.take(self@.trail.len() as int),
                self@.trail.len() <= before.trail.len(),
                unassigned@ == old(unassigned)@ + popped_suffix(
                    before.trail,
                    self@.trail.len() as int,
                ),
            decreases self@.marks.len(),
        {
            let ghost here = self@;
            let ghost given_up = unassigned@;
            let step = self.backtrack_once(unassigned);
            proof {
                assert(self@.trail =~= before.trail.take(self@.trail.len() as int));
                assert(popped_suffix(here.trail, self@.trail.len() as int) =~= popped_suffix(
                    before.trail,
                    self@.trail.len() as int,
                ).subrange(before.trail.len() - here.trail.len(), before.trail.len() - self@.trail.len()));
                assert(unassigned@ =~= old(unassigned)@ + popped_suffix(
                    before.trail,
                    self@.trail.len() as int,
                ));
            }
            match step {
                BacktrackResult::TryAlternative(falsified_lit) => {
                    assert(here.can_backtrack() && here.last_is_first_branch());
                    assert(here.backtracked() == here.backtracked_once());
                    return Some(falsified_lit);
                },
                BacktrackResult::NoMoreDecisions => {
                    assert(!here.can_backtrack());
                    assert(here.backtracked() == here.backtracked_once());
                    return None;
                },
                BacktrackResult::ContinueBacktracking => {
                    assert(here.can_backtrack() && !here.last_is_first_branch());
                    assert(here.backtracked() == here.popped().backtracked());
                    assert(here.backtrack_result() == here.popped().backtrack_result());
                },
            }
        }
    }

    /// The value of the last decision, or unassigned where there is none.
    pub fn last_decision(&self) -> (value: OptBool)
        requires
            self.wf(),
        ensures
            value == if self@.marks.len() == 0 {
                OptBool::Unassigned
            } else {
                self@.state[self@.decision_var(self@.marks.len() - 1) as int]
            },
            self@.marks.len() > 0 ==> value != OptBool::Unassigned,
    {
        let levels = self.decision_marks.len();
        if levels > 0 {
            let decision_idx = self.decision_marks[levels - 1];
            let var = self.history[decision_idx];
            self.current_state[var]
        } else {
            OptBool::Unassigned
        }
    }

    /// The last decision as a literal, or nothing where there is none.
    pub fn last_decision_lit(&self) -> (lit: Option<Lit>)
        requires
            self.wf(),
        ensures
            lit == if self@.marks.len() == 0 {
                None
            } else {
                Some(self@.decision_lit(self@.marks.len() - 1))
            },
    {
        let levels = self.decision_marks.len();
        if levels > 0 {
            let mark = self.decision_marks[levels - 1];
            let var = self.history[mark];
            let val = self.current_state[var].unwrap();
            Some(Lit::new(var, val))
        } else {
            None
        }
    }

    /// The value of `var`, which must be a variable of the assignment.
    pub fn get_unchecked(&self, var: VariableId) -> (state: OptBool)
        requires
            var < self@.num_vars(),
        ensures
            state == self@.state[var as int],
    {
        Self::get_unchecked_from(self.current_state.as_slice(), var)
    }

    /// The value of `var` in `assignment`, which must hold it.
    pub fn get_unchecked_from(assignment: &[OptBool], var: VariableId) -> (state: OptBool)
        requires
            var < assignment@.len(),
        ensures
            state == assignment@[var as int],
    {
        assignment[var]
    }

    /// Whether every variable has a value.
    pub fn is_complete(&self) -> (complete: bool)
        requires
            self.wf(),
        ensures
            complete == (self@.trail.len() == self@.num_vars()),
            complete <==> (forall|v: int| 0 <= v < self@.num_vars() ==> self@.assigned(v)),
    {
        proof {
            self@.lemma_trail_counts_assigned();
        }
        self.num_assigned == self.current_state.len()
    }

    /// The number of variables.
    pub fn num_vars(&self) -> (n: usize)
        ensures
            n == self@.num_vars(),
    {
        self.current_state.len()
    }

    /// The assignment as a total one: unassigned variables count as false.
    pub fn to_solution(&self) -> (solution: Vec<bool>)
        ensures
            solution@ == solution_of(self@.state),
    {
        Self::assignment_to_solution(self.current_state.as_slice())
    }

    /// A total assignment from a partial one: unassigned variables count as
    /// false.
    pub fn assignment_to_solution(assignment: &[OptBool]) -> (solution: Vec<bool>)
        ensures
            solution@ == solution_of(assignment@),
    {
        let mut solution: Vec<bool> = Vec::new();
        let mut v: usize = 0;
        while v < assignment.len()
            invariant
                v <= assignment@.len(),
                solution@.len() == v,
                forall|u: int|
                    0 <= u < v ==> #[trigger] solution@[u] == assignment@[u].spec_unwrap_or(false),
            decreases assignment@.len() - v,
        {
            solution.push(assignment[v].unwrap_or(false));
            v = v + 1;
        }
        assert(solution@ =~= solution_of(assignment@));
        solution
    }

    /// Appends the decisions of the first `level` levels to `buffer`, first
    /// level first; all of them where there are fewer than `level`.
    pub fn extract_decisions_upto(&self, level: usize, buffer: &mut Vec<Lit>)
        requires
            self.wf(),
        ensures
            final(buffer)@ == old(buffer)@ + self@.decisions().take(
                if level <= self@.marks.len() {
                    level as int
                } else {
                    self@.marks.len() as int
                },
            ),
    {
        let levels = self.decision_marks.len();
        let count = if level <= levels {
            level
        } else {
            levels
        };
        let mut i: usize = 0;
        assert(old(buffer)@ + self@.decisions().take(0) =~= old(buffer)@);
        while i < count
            invariant
                self.wf(),
                i <= count <= self@.marks.len(),
                buffer@ == old(buffer)@ + self@.decisions().take(i as int),
            decreases count - i,
        {
            let decision_idx = self.decision_marks[i];
            let var = self.history[decision_idx];
            let val = self.current_state[var].unwrap();
            buffer.push(Lit::new(var, val));
            assert(self@.decisions().take(i + 1) =~= self@.decisions().take(i as int).push(
                self@.decision_lit(i as int),
            ));
            i = i + 1;
        }
    }

    /// Appends the decisions of all levels to `buffer`, first level first.
    pub fn extract_decisions(&self, buffer: &mut Vec<Lit>)
        requires
            self.wf(),
        ensures
            final(buffer)@ == old(buffer)@ + self@.decisions(),
    {
        assert(self@.decisions().take(self@.marks.len() as int) =~= self@.decisions());
        self.extract_decisions_upto(self.decision_level(), buffer);
    }

    /// The decisions of all levels as pairs of variable and value, first
    /// level first: the levels without a mark, as they stand on the trail,
    /// and then the decision of each mark.
    pub fn extract_decision(&self) -> (decisions: Vec<(VariableId, bool)>)
        requires
            self.wf(),
        ensures
            decisions@.len() == self.unmarked() + self@.marks.len(),
            forall|i: int|
                0 <= i < self.unmarked() ==> #[trigger] decisions@[i] == (
                    self@.trail[i],
                    self@.state[self@.trail[i] as int] == OptBool::True,
                ),
            forall|level: int|
                0 <= level < self@.marks.len() ==> #[trigger] decisions@[self.unmarked() + level]
                    == (
                    self@.decision_var(level),
                    self@.state[self@.decision_var(level) as int] == OptBool::True,
                ),
    {
        let mut buffer: Vec<(VariableId, bool)> = Vec::new();
        let mut k: usize = 0;
        while k < self.unmarked_levels
            invariant
                self.wf(),
                k <= self.unmarked(),
                buffer@.len() == k,
                forall|i: int|
                    0 <= i < k ==> #[trigger] buffer@[i] == (
                        self@.trail[i],
                        self@.state[self@.trail[i] as int] == OptBool::True,
                    ),
            decreases self.unmarked() - k,
        {
            let var = self.history[k];
            let val = self.current_state[var].unwrap();
            buffer.push((var, val));
            k = k + 1;
        }
        let mut i: usize = 0;
        while i < self.decision_marks.len()
            invariant
                self.wf(),
                i <= self@.marks.len(),
                buffer@.len() == self.unmarked() + i,
                forall|j: int|
                    0 <= j < self.unmarked() ==> #[trigger] buffer@[j] == (
                        self@.trail[j],
                        self@.state[self@.trail[j] as int] == OptBool::True,
                    ),
                forall|level: int|
                    0 <= level < i ==> #[trigger] buffer@[self.unmarked() + level] == (
                        self@.decision_var(level),
                        self@.state[self@.decision_var(level) as int] == OptBool::True,
                    ),
            decreases self@.marks.len() - i,
        {
            let decision_idx = self.decision_marks[i];
            let var = self.history[decision_idx];
            let val = self.current_state[var].unwrap();
            buffer.push((var, val));
            i = i + 1;
        }
        buffer
    }

    /// Appends decisions to `buffer` from the first level on, and stops
    /// behind the first level at or above `start_level` whose decision is
    /// true. Where there is no such level, all decisions are appended.
    pub fn extract_decisions_until_next_true(&self, start_level: usize, buffer: &mut Vec<Lit>)
        requires
            self.wf(),
        ensures
            final(buffer)@ == old(buffer)@ + self@.decisions().take(
                self@.next_true_end(start_level as int),
            ),
    {
        let mut level: usize = 0;
        assert(old(buffer)@ + self@.decisions().take(0) =~= old(buffer)@);
        while level < self.decision_marks.len()
            invariant
                self.wf(),
                level <= self@.marks.len(),
                buffer@ == old(buffer)@ + self@.decisions().take(level as int),
                forall|l: int|
                    start_level <= l < level ==> !(#[trigger] self@.decision_lit(l)).spec_is_pos(),
            decreases self@.marks.len() - level,
        {
            let decision_idx = self.decision_marks[level];
            let var = self.history[decision_idx];
            let val = self.current_state[var].unwrap();
            buffer.push(Lit::new(var, val));
            assert(self@.decisions().take(level + 1) =~= self@.decisions().take(level as int).push(
                self@.decision_lit(level as int),
            ));
            if level >= start_level && val {
                proof {
                    self@.lemma_next_true_end(start_level as int, level as int);
                }
                return ;
            }
            level = level + 1;
        }
        proof {
            self@.lemma_next_true_end_none(start_level as int);
        }
    }
}

impl std::ops::Index<usize> for PartialAssignment {
    type Output = OptBool;

    /// The value of the variable `index`.
    fn index(&self, index: usize) -> (output: &OptBool)
        ensures
            *output == self@.state[index as int],
    {
        &self.current_state[index]
    }
}

impl vstd::std_specs::core::IndexSpecImpl<usize> for PartialAssignment {
    open spec fn index_req(&self, index: &usize) -> bool {
        *index < self@.num_vars()
    }
}

impl std::ops::Deref for PartialAssignment {
    type Target = [OptBool];

    /// The values of all variables.
    fn deref(&self) -> (values: &[OptBool])
        ensures
            values@ == self@.state,
    {
        self.current_state.as_slice()
    }
}

/// The number of assigned entries of `state`.
pub open spec fn count_assigned(state: Seq<OptBool>) -> nat
    decreases state.len(),
{
    if state.len() == 0 {
        0
    } else {
        count_assigned(state.drop_last()) + if state.last() != OptBool::Unassigned {
            1nat
        } else {
            0nat
        }
    }
}

/// The total assignment that reads an unassigned variable as false.
pub open spec fn solution_of(state: Seq<OptBool>) -> Seq<bool> {
    Seq::new(state.len(), |v: int| state[v].spec_unwrap_or(false))
}

impl AssignmentView {
    /// Whether `level` is at or above `start` and holds a true decision.
    pub open spec fn is_true_from(self, start: int, level: int) -> bool {
        start <= level < self.marks.len() && 0 <= level && self.decision_lit(level).spec_is_pos()
    }

    /// The number of levels up to and including the first one at or above
    /// `start` whose decision is true; the number of all levels where none
    /// is.
    pub open spec fn next_true_end(self, start: int) -> int {
        if exists|level: int| self.is_true_from(start, level) {
            let first = choose|level: int|
                self.is_true_from(start, level) && forall|l: int|
                    self.is_true_from(start, l) ==> level <= l;
            first + 1
        } else {
            self.marks.len() as int
        }
    }

    /// The first level from `start` on that is on its first branch ends the
    /// run.
    pub proof fn lemma_next_true_end(self, start: int, level: int)
        requires
            self.is_true_from(start, level),
            forall|l: int| start <= l < level && 0 <= l ==> !(#[trigger] self.decision_lit(l)).spec_is_pos(),
        ensures
            self.next_true_end(start) == level + 1,
    {
        assert(forall|l: int| self.is_true_from(start, l) ==> level <= l);
        let first = choose|f: int|
            self.is_true_from(start, f) && forall|l: int| self.is_true_from(start, l) ==> f <= l;
        assert(first <= level);
        assert(level <= first);
    }

    /// Where no level from `start` on is on its first branch, the run goes
    /// to the last level.
    pub proof fn lemma_next_true_end_none(self, start: int)
        requires
            forall|l: int|
                start <= l < self.marks.len() && 0 <= l ==> !(#[trigger] self.decision_lit(
                    l,
                )).spec_is_pos(),
        ensures
            self.next_true_end(start) == self.marks.len(),
    {
    }
}

} // verus!
