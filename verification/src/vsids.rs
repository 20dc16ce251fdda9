//! The branching heuristic: an activity score for each variable, raised
//! whenever the variable takes part in a conflict, and a heap that hands out
//! the most active variable.
//!
//! Scores are fixed-point numbers with 20 binary places. The amount by
//! which a score is raised grows by the factor 20/19 with each conflict, so
//! that recent conflicts weigh more than old ones. When a number passes
//! `ACTIVITY_LIMIT`, all of them are divided by `RESCALE_DIVISOR`.

use crate::clause::{clause_in_range, Clause};
use crate::indexed_heap::{outranks, IndexedHeap, MAX_HEAP_CAPACITY};
use crate::lit::VariableId;
use crate::partial_assignment::PartialAssignment;
use vstd::prelude::*;

verus! {

/// The score 1 in fixed point.
pub const ACTIVITY_ONE: u64 = 0x10_0000;

/// The bound that scores and the increment keep: beyond it they are scaled
/// down.
pub const ACTIVITY_LIMIT: u64 = 0x1000_0000_0000_0000;

/// What scores and the increment are divided by when they are scaled down.
pub const RESCALE_DIVISOR: u64 = 0x100_0000_0000;

/// The increment grows by one part in this many with each conflict.
pub const GROWTH_PARTS: u64 = 19;

/// The scores after scaling down.
pub open spec fn rescaled(scores: Seq<u64>) -> Seq<u64> {
    Seq::new(scores.len(), |v: int| scores[v] / RESCALE_DIVISOR)
}

/// The increment after scaling down. It never drops to zero.
pub open spec fn rescaled_increment(increment: u64) -> u64 {
    if increment / RESCALE_DIVISOR == 0 {
        1
    } else {
        increment / RESCALE_DIVISOR
    }
}

/// The increment after a conflict.
pub open spec fn grown(increment: u64) -> u64 {
    if increment / GROWTH_PARTS == 0 {
        (increment + 1) as u64
    } else {
        (increment + increment / GROWTH_PARTS) as u64
    }
}

/// Scores and increment, as bumping changes them.
pub struct Activity {
    pub scores: Seq<u64>,
    pub increment: u64,
}

impl Activity {
    /// The activity after the score of `var` was raised by the increment,
    /// and everything scaled down if that took the score past the limit.
    pub open spec fn bumped(self, var: usize) -> Activity {
        let raised = (self.scores[var as int] + self.increment) as u64;
        if raised > ACTIVITY_LIMIT {
            Activity {
                scores: rescaled(self.scores.update(var as int, raised)),
                increment: rescaled_increment(self.increment),
            }
        } else {
            Activity { scores: self.scores.update(var as int, raised), increment: self.increment }
        }
    }

    /// The activity after each of `vars` was bumped in turn.
    pub open spec fn bumped_all(self, vars: Seq<usize>) -> Activity
        decreases vars.len(),
    {
        if vars.len() == 0 {
            self
        } else {
            self.bumped_all(vars.drop_last()).bumped(vars.last())
        }
    }

    /// The activity after a conflict was counted: the increment has grown,
    /// and everything is scaled down if that took it past the limit.
    pub open spec fn decayed(self) -> Activity {
        if grown(self.increment) > ACTIVITY_LIMIT {
            Activity {
                scores: rescaled(self.scores),
                increment: rescaled_increment(grown(self.increment)),
            }
        } else {
            Activity { scores: self.scores, increment: grown(self.increment) }
        }
    }
}

/// Variable State Independent Decaying Sum.
pub struct VSIDS {
    /// The activity score of each variable.
    activity_scores: Vec<u64>,
    /// Variables by activity, the most active first.
    heap: IndexedHeap,
    /// The amount by which a bump raises a score. It grows over time.
    increment: u64,
}

impl VSIDS {
    /// The scores and the increment.
    pub closed spec fn activity(&self) -> Activity {
        Activity { scores: self.activity_scores@, increment: self.increment }
    }

    /// The number of variables.
    pub closed spec fn num_vars(&self) -> nat {
        self.activity_scores@.len()
    }

    /// Whether `var` is in the heap, to be handed out by a later pop.
    pub closed spec fn has(&self, var: usize) -> bool {
        self.heap.has(var)
    }

    /// The heap is in order under the scores and covers all variables.
    pub closed spec fn structure(&self) -> bool {
        &&& self.heap.wf()
        &&& self.heap.capacity() == self.activity_scores@.len()
        &&& self.heap.is_heap(self.activity_scores@)
        &&& self.activity_scores@.len() <= MAX_HEAP_CAPACITY
    }

    /// No score and no increment lies above `bound`, and the increment is not
    /// zero.
    pub closed spec fn bounded_by(&self, bound: u64) -> bool {
        &&& 1 <= self.increment <= bound
        &&& forall|v: int|
            0 <= v < self.activity_scores@.len() ==> #[trigger] self.activity_scores@[v] <= bound
    }

    /// The heap fits the scores, and no score is beyond the limit.
    pub open spec fn wf(&self) -> bool {
        self.structure() && self.bounded_by(ACTIVITY_LIMIT)
    }

    /// Only variables are in the heap.
    pub proof fn lemma_has_in_range(&self, var: usize)
        requires
            self.wf(),
            self.has(var),
        ensures
            var < self.num_vars(),
    {
        self.heap.lemma_has_in_range(var);
    }

    /// The heuristic that starts from the given scores, with every variable
    /// in the heap and the increment at one.
    pub fn with_scores(initial_var_scores: &[u64]) -> (vsids: VSIDS)
        requires
            initial_var_scores@.len() <= MAX_HEAP_CAPACITY,
            forall|v: int|
                0 <= v < initial_var_scores@.len() ==> #[trigger] initial_var_scores@[v]
                    <= ACTIVITY_LIMIT,
        ensures
            vsids.wf(),
            vsids.num_vars() == initial_var_scores@.len(),
            vsids.activity() == (Activity {
                scores: initial_var_scores@,
                increment: ACTIVITY_ONE,
            }),
            forall|var: usize| #[trigger] vsids.has(var) <==> var < initial_var_scores@.len(),
    {
        let num_vars = initial_var_scores.len();
        let mut activity_scores: Vec<u64> = Vec::new();
        let mut v: usize = 0;
        while v < num_vars
            invariant
                num_vars == initial_var_scores@.len(),
                v <= num_vars,
                activity_scores@ == initial_var_scores@.take(v as int),
            decreases num_vars - v,
        {
            activity_scores.push(initial_var_scores[v]);
            assert(initial_var_scores@.take(v + 1) =~= initial_var_scores@.take(v as int).push(
                initial_var_scores@[v as int],
            ));
            v = v + 1;
        }
        assert(initial_var_scores@.take(num_vars as int) =~= initial_var_scores@);
        let mut heap = IndexedHeap::with_capacity(num_vars);
        let mut var: usize = 0;
        while var < num_vars
            invariant
                num_vars == activity_scores@.len(),
                var <= num_vars,
                heap.wf(),
                heap.capacity() == num_vars,
                heap.is_heap(activity_scores@),
                forall|u: usize| #[trigger] heap.has(u) <==> u < var,
            decreases num_vars - var,
        {
            heap.insert(var, activity_scores.as_slice());
            var = var + 1;
        }
        VSIDS { activity_scores, heap, increment: ACTIVITY_ONE }
    }

    /// Takes variables out of the heap, most active first, until one comes
    /// that has no value in `assignment`, and returns it. Among the
    /// unassigned variables of the heap none outranks it. Returns nothing,
    /// and leaves the heap empty, if every variable in it has a value.
    pub fn pop_most_active_unassigned_var(&mut self, assignment: &PartialAssignment) -> (picked:
        Option<VariableId>)
        requires
            old(self).wf(),
            assignment@.num_vars() == old(self).num_vars(),
        ensures
            final(self).wf(),
            final(self).num_vars() == old(self).num_vars(),
            final(self).activity() == old(self).activity(),
            forall|u: usize| #[trigger] final(self).has(u) ==> old(self).has(u),
            picked matches Some(var) ==> {
                &&& var < old(self).num_vars()
                &&& old(self).has(var)
                &&& !final(self).has(var)
                &&& !assignment@.assigned(var as int)
                &&& forall|u: usize|
                    old(self).has(u) && !assignment@.assigned(u as int) ==> !outranks(
                        old(self).activity().scores,
                        u,
                        var,
                    )
                &&& forall|u: usize|
                    old(self).has(u) && !assignment@.assigned(u as int) && u != var
                        ==> #[trigger] final(self).has(u)
            },
            picked is None ==> forall|u: usize|
                #[trigger] old(self).has(u) ==> assignment@.assigned(u as int) && !final(self).has(u),
    {
        loop
            invariant
                self.wf(),
                self.activity() == old(self).activity(),
                assignment@.num_vars() == self.num_vars(),
                forall|u: usize| #[trigger] self.has(u) ==> old(self).has(u),
                forall|u: usize|
                    old(self).has(u) && !assignment@.assigned(u as int) ==> #[trigger] self.has(u),
            decreases self.heap.items().len(),
        {
            let ghost before = *self;
            proof {
                self.heap.lemma_items();
            }
            match self.heap.pop(self.activity_scores.as_slice()) {
                Some(var) => {
                    proof {
                        before.heap.lemma_has_in_range(var);
                    }
                    if !assignment.is_assigned(var) {
                        proof {
                            assert(before.has(var));
                            assert forall|u: usize|
                                old(self).has(u) && !assignment@.assigned(
                                    u as int,
                                ) implies !outranks(old(self).activity().scores, u, var) by {
                                assert(before.has(u));
                            }
                            assert forall|u: usize|
                                old(self).has(u) && !assignment@.assigned(u as int) && u
                                    != var implies #[trigger] self.has(u) by {
                                assert(before.has(u));
                            }
                            assert forall|u: usize| #[trigger] self.has(u) implies old(self).has(
                                u,
                            ) by {
                                assert(before.has(u));
                            }
                        }
                        return Some(var);
                    }
                    proof {
                        assert forall|u: usize|
                            old(self).has(u) && !assignment@.assigned(
                                u as int,
                            ) implies #[trigger] self.has(u) by {
                            assert(before.has(u));
                        }
                        assert forall|u: usize| #[trigger] self.has(u) implies old(self).has(u) by {
                            assert(before.has(u));
                        }
                    }
                },
                None => {
                    proof {
                        assert forall|u: usize| #[trigger] old(self).has(u) implies assignment@.assigned(
                            u as int,
                        ) && !self.has(u) by {
                            assert(!before.has(u));
                        }
                    }
                    return None;
                },
            }
        }
    }

    /// Counts a conflict: the increment grows, so that later bumps weigh
    /// more than earlier ones.
    pub fn decay(&mut self)
        requires
            old(self).wf(),
        ensures
            final(self).wf(),
            final(self).num_vars() == old(self).num_vars(),
            final(self).activity() == old(self).activity().decayed(),
            forall|u: usize| #[trigger] final(self).has(u) <==> old(self).has(u),
    {
        let step = self.increment / GROWTH_PARTS;
        if step == 0 {
            self.increment = self.increment + 1;
        } else {
            self.increment = self.increment + step;
        }
        if self.increment > ACTIVITY_LIMIT {
            self.rescale_increment();
            self.rescale_scores();
        }
    }

    /// Puts `var`, which has lost its value, back into the heap if it is not
    /// there.
    pub fn on_unassign_var(&mut self, var: VariableId)
        requires
            old(self).wf(),
            var < old(self).num_vars(),
        ensures
            final(self).wf(),
            final(self).num_vars() == old(self).num_vars(),
            final(self).activity() == old(self).activity(),
            forall|u: usize| #[trigger] final(self).has(u) <==> old(self).has(u) || u == var,
    {
        if !self.heap.contains(var) {
            self.heap.insert(var, self.activity_scores.as_slice());
        }
    }

    /// Bumps the variable of each literal of the clause, first literal first.
    pub fn bump_lit_activities(&mut self, literals: &Clause)
        requires
            old(self).wf(),
            clause_in_range(literals@, old(self).num_vars()),
        ensures
            final(self).wf(),
            final(self).num_vars() == old(self).num_vars(),
            final(self).activity() == old(self).activity().bumped_all(
                Seq::new(literals@.len(), |i: int| literals@[i].spec_var()),
            ),
            forall|u: usize| #[trigger] final(self).has(u) <==> old(self).has(u),
    {
        let ghost vars = Seq::new(literals@.len(), |i: int| literals@[i].spec_var());
        let n = literals.len();
        let mut i: usize = 0;
        assert(vars.take(0) =~= Seq::<usize>::empty());
        while i < n
            invariant
                n == literals@.len(),
                i <= n,
                self.wf(),
                self.num_vars() == old(self).num_vars(),
                clause_in_range(literals@, old(self).num_vars()),
                vars == Seq::new(literals@.len(), |i: int| literals@[i].spec_var()),
                self.activity() == old(self).activity().bumped_all(vars.take(i as int)),
                forall|u: usize| #[trigger] self.has(u) <==> old(self).has(u),
            decreases n - i,
        {
            let var = literals.get(i).var();
            proof {
                assert(vars.take(i + 1).drop_last() =~= vars.take(i as int));
                assert(vars.take(i + 1).last() == var);
            }
            self.bump_var_activity(var);
            i = i + 1;
        }
        assert(vars.take(n as int) =~= vars);
    }

    /// Bumps each of the variables in turn.
    pub fn bump_var_activities(&mut self, vars: &[VariableId])
        requires
            old(self).wf(),
            forall|i: int| 0 <= i < vars@.len() ==> #[trigger] vars@[i] < old(self).num_vars(),
        ensures
            final(self).wf(),
            final(self).num_vars() == old(self).num_vars(),
            final(self).activity() == old(self).activity().bumped_all(vars@),
            forall|u: usize| #[trigger] final(self).has(u) <==> old(self).has(u),
    {
        let n = vars.len();
        let mut i: usize = 0;
        assert(vars@.take(0) =~= Seq::<usize>::empty());
        while i < n
            invariant
                n == vars@.len(),
                i <= n,
                self.wf(),
                self.num_vars() == old(self).num_vars(),
                forall|i: int| 0 <= i < vars@.len() ==> #[trigger] vars@[i] < old(self).num_vars(),
                self.activity() == old(self).activity().bumped_all(vars@.take(i as int)),
                forall|u: usize| #[trigger] self.has(u) <==> old(self).has(u),
            decreases n - i,
        {
            proof {
                assert(vars@.take(i + 1).drop_last() =~= vars@.take(i as int));
                assert(vars@.take(i + 1).last() == vars@[i as int]);
            }
            self.bump_var_activity(vars[i]);
            i = i + 1;
        }
        assert(vars@.take(n as int) =~= vars@);
    }

    /// Raises the score of `var` by the increment and moves the variable to
    /// its new place in the heap. Scales everything down if the score has
    /// passed the limit.
    pub fn bump_var_activity(&mut self, var: VariableId)
        requires
            old(self).wf(),
            var < old(self).num_vars(),
        ensures
            final(self).wf(),
            final(self).num_vars() == old(self).num_vars(),
            final(self).activity() == old(self).activity().bumped(var),
            forall|u: usize| #[trigger] final(self).has(u) <==> old(self).has(u),
    {
        let ghost before = self.activity_scores@;
        let raised = self.activity_scores[var] + self.increment;
        self.activity_scores.set(var, raised);
        proof {
            old(self).heap.lemma_scores_changed(before, self.activity_scores@, var);
        }
        if self.heap.contains(var) {
            self.heap.update(var, self.activity_scores.as_slice());
        }
        if raised > ACTIVITY_LIMIT {
            self.rescale_increment();
            self.rescale_scores();
        }
    }

    /// Scales all scores and the increment down, which keeps them from
    /// running over, and puts the heap in order under the new scores.
    pub fn rescale(&mut self)
        requires
            old(self).structure(),
            old(self).bounded_by((2 * ACTIVITY_LIMIT) as u64),
        ensures
            final(self).wf(),
            final(self).num_vars() == old(self).num_vars(),
            final(self).activity() == (Activity {
                scores: rescaled(old(self).activity().scores),
                increment: rescaled_increment(old(self).activity().increment),
            }),
            forall|u: usize| #[trigger] final(self).has(u) <==> old(self).has(u),
    {
        self.rescale_increment();
        self.rescale_scores();
    }

    /// Scales the increment down.
    fn rescale_increment(&mut self)
        requires
            old(self).structure(),
            old(self).bounded_by((2 * ACTIVITY_LIMIT) as u64),
        ensures
            final(self).structure(),
            final(self).activity_scores == old(self).activity_scores,
            final(self).heap == old(self).heap,
            final(self).increment == rescaled_increment(old(self).increment),
            1 <= final(self).increment <= ACTIVITY_LIMIT,
            forall|v: int|
                0 <= v < final(self).activity_scores@.len() ==> #[trigger] final(self).activity_scores@[v] <= 2 * ACTIVITY_LIMIT,
    {
        let scaled = self.increment / RESCALE_DIVISOR;
        self.increment = if scaled == 0 {
            1
        } else {
            scaled
        };
    }

    /// Divides every score and builds the heap anew from the variables that
    /// were in it.
    fn rescale_scores(&mut self)
        requires
            old(self).structure(),
            1 <= old(self).increment <= ACTIVITY_LIMIT,
            forall|v: int|
                0 <= v < old(self).activity_scores@.len() ==> #[trigger] old(self).activity_scores@[v] <= 2 * ACTIVITY_LIMIT,
        ensures
            final(self).wf(),
            final(self).activity_scores@ == rescaled(old(self).activity_scores@),
            final(self).increment == old(self).increment,
            forall|u: usize| #[trigger] final(self).has(u) <==> old(self).has(u),
    {
        let num_vars = self.activity_scores.len();
        let mut v: usize = 0;
        while v < num_vars
            invariant
                num_vars == old(self).activity_scores@.len(),
                self.activity_scores@.len() == num_vars,
                v <= num_vars,
                self.heap == old(self).heap,
                self.increment == old(self).increment,
                forall|u: int|
                    0 <= u < v ==> #[trigger] self.activity_scores@[u] == old(self).activity_scores@[u] / RESCALE_DIVISOR,
                forall|u: int|
                    v <= u < num_vars ==> #[trigger] self.activity_scores@[u] == old(self).activity_scores@[u],
            decreases num_vars - v,
        {
            let scaled = self.activity_scores[v] / RESCALE_DIVISOR;
            self.activity_scores.set(v, scaled);
            v = v + 1;
        }
        assert(self.activity_scores@ =~= rescaled(old(self).activity_scores@));
        let mut rebuilt = IndexedHeap::with_capacity(num_vars);
        let mut var: usize = 0;
        while var < num_vars
            invariant
                num_vars == self.activity_scores@.len(),
                var <= num_vars,
                self.heap == old(self).heap,
                self.heap.capacity() == num_vars,
                self.increment == old(self).increment,
                self.activity_scores@ == rescaled(old(self).activity_scores@),
                rebuilt.wf(),
                rebuilt.capacity() == num_vars,
                rebuilt.is_heap(self.activity_scores@),
                forall|u: usize| #[trigger] rebuilt.has(u) <==> u < var && old(self).heap.has(u),
            decreases num_vars - var,
        {
            if self.heap.contains(var) {
                rebuilt.insert(var, self.activity_scores.as_slice());
            }
            var = var + 1;
        }
        proof {
            assert forall|u: usize| #[trigger] rebuilt.has(u) <==> old(self).has(u) by {
                if old(self).heap.has(u) {
                    old(self).heap.lemma_has_in_range(u);
                }
            }
        }
        self.heap = rebuilt;
    }
}

} // verus!
