//! Decision paths: the chain of decisions that leads from the root of the
//! search tree to one of its nodes.

use crate::lit::Lit;
use crate::opt_bool::OptBool;
use vstd::prelude::*;
use vstd::std_specs::convert::FromSpecImpl;

verus! {

/// A sequence of decisions, first decision first. A worker that is handed a
/// path can rebuild the search state that the path leads to.
#[derive(Debug)]
pub struct DecisionPath(pub Vec<Lit>);

impl View for DecisionPath {
    type V = Seq<Lit>;

    open spec fn view(&self) -> Seq<Lit> {
        self.0@
    }
}

/// Every literal of the path names a variable below `num_vars`.
pub open spec fn path_in_range(path: Seq<Lit>, num_vars: nat) -> bool {
    forall|i: int| 0 <= i < path.len() ==> (#[trigger] path[i]).spec_var() < num_vars
}

/// No variable is decided twice on the path.
pub open spec fn path_distinct(path: Seq<Lit>) -> bool {
    forall|i: int, j: int|
        0 <= i < j < path.len() ==> (#[trigger] path[i]).spec_var() != (
        #[trigger] path[j]).spec_var()
}

/// The partial assignment that makes each literal of the path true, later
/// literals overruling earlier ones on the same variable.
pub open spec fn path_assignment(path: Seq<Lit>, num_vars: nat) -> Seq<OptBool>
    decreases path.len(),
{
    if path.len() == 0 {
        Seq::new(num_vars, |v: int| OptBool::Unassigned)
    } else {
        path_assignment(path.drop_last(), num_vars).update(
            path.last().spec_var() as int,
            OptBool::of(path.last().spec_is_pos()),
        )
    }
}

/// What `path_assignment` holds for each variable of a path that decides no
/// variable twice: the polarity of its literal where the path has one, and
/// nothing elsewhere.
pub proof fn lemma_path_assignment(path: Seq<Lit>, num_vars: nat)
    requires
        path_in_range(path, num_vars),
        path_distinct(path),
    ensures
        path_assignment(path, num_vars).len() == num_vars,
        forall|i: int|
            0 <= i < path.len() ==> path_assignment(path, num_vars)[(
            #[trigger] path[i]).spec_var() as int] == OptBool::of(path[i].spec_is_pos()),
        forall|v: int|
            0 <= v < num_vars && (forall|i: int|
                0 <= i < path.len() ==> (#[trigger] path[i]).spec_var() != v)
                ==> #[trigger] path_assignment(path, num_vars)[v] == OptBool::Unassigned,
    decreases path.len(),
{
    if path.len() > 0 {
        let front = path.drop_last();
        assert forall|i: int| 0 <= i < front.len() implies (#[trigger] front[i]).spec_var()
            < num_vars by {
            assert(front[i] == path[i]);
        }
        assert forall|i: int, j: int| 0 <= i < j < front.len() implies (
        #[trigger] front[i]).spec_var() != (#[trigger] front[j]).spec_var() by {
            assert(front[i] == path[i] && front[j] == path[j]);
        }
        lemma_path_assignment(front, num_vars);
        let last = path.len() - 1;
        assert forall|i: int| 0 <= i < path.len() implies path_assignment(path, num_vars)[(
        #[trigger] path[i]).spec_var() as int] == OptBool::of(path[i].spec_is_pos()) by {
            if i < last {
                assert(front[i] == path[i]);
                assert(path[i].spec_var() != path[last].spec_var());
            }
        }
        assert forall|v: int|
            0 <= v < num_vars && (forall|i: int|
                0 <= i < path.len() ==> (#[trigger] path[i]).spec_var() != v) implies (
        #[trigger] path_assignment(path, num_vars)[v]) == OptBool::Unassigned by {
            assert(path[last].spec_var() != v);
            assert forall|i: int| 0 <= i < front.len() implies (#[trigger] front[i]).spec_var()
                != v by {
                assert(front[i] == path[i]);
            }
        }
    }
}

impl DecisionPath {
    /// The partial assignment over `num_vars` variables in which exactly the
    /// decisions of the path are made.
    pub fn to_assignment(&self, num_vars: usize) -> (assignment: Vec<OptBool>)
        requires
            path_in_range(self@, num_vars as nat),
        ensures
            assignment@ == path_assignment(self@, num_vars as nat),
            assignment@.len() == num_vars,
    {
        let mut assignment: Vec<OptBool> = Vec::new();
        let mut v: usize = 0;
        while v < num_vars
            invariant
                v <= num_vars,
                assignment@.len() == v,
                forall|u: int| 0 <= u < v ==> assignment@[u] == OptBool::Unassigned,
            decreases num_vars - v,
        {
            assignment.push(OptBool::Unassigned);
            v = v + 1;
        }
        assert(assignment@ =~= path_assignment(self@.take(0), num_vars as nat));
        let mut i: usize = 0;
        while i < self.0.len()
            invariant
                i <= self.0@.len(),
                path_in_range(self@, num_vars as nat),
                assignment@.len() == num_vars,
                assignment@ == path_assignment(self@.take(i as int), num_vars as nat),
            decreases self.0@.len() - i,
        {
            let lit = self.0[i];
            let state = if lit.is_pos() {
                OptBool::True
            } else {
                OptBool::False
            };
            assert(self@.take(i + 1).drop_last() =~= self@.take(i as int));
            assert(self@.take(i + 1).last() == self@[i as int]);
            assignment.set(lit.var(), state);
            i = i + 1;
        }
        assert(self@.take(i as int) =~= self@);
        assignment
    }

    /// Whether the path can start a search over `num_vars` variables: every
    /// literal names one of them, and none of them twice.
    pub fn is_valid_for(&self, num_vars: usize) -> (valid: bool)
        ensures
            valid == (path_in_range(self@, num_vars as nat) && path_distinct(self@)),
    {
        let mut seen: Vec<bool> = Vec::new();
        let mut v: usize = 0;
        while v < num_vars
            invariant
                v <= num_vars,
                seen@.len() == v,
                forall|u: int| 0 <= u < v ==> !seen@[u],
            decreases num_vars - v,
        {
            seen.push(false);
            v = v + 1;
        }
        let mut i: usize = 0;
        while i < self.0.len()
            invariant
                i <= self@.len(),
                seen@.len() == num_vars,
                forall|j: int| 0 <= j < i ==> (#[trigger] self@[j]).spec_var() < num_vars,
                forall|j: int, k: int|
                    0 <= j < k < i ==> (#[trigger] self@[j]).spec_var() != (
                    #[trigger] self@[k]).spec_var(),
                forall|u: int|
                    0 <= u < num_vars ==> (#[trigger] seen@[u] <==> exists|j: int|
                        0 <= j < i && (#[trigger] self@[j]).spec_var() == u),
            decreases self@.len() - i,
        {
            let var = self.0[i].var();
            if var >= num_vars {
                return false;
            }
            if seen[var] {
                proof {
                    let j = choose|j: int| 0 <= j < i && (#[trigger] self@[j]).spec_var() == var;
                    assert(self@[j].spec_var() == self@[i as int].spec_var());
                }
                return false;
            }
            let ghost before = seen@;
            seen.set(var, true);
            proof {
                assert forall|u: int| 0 <= u < num_vars implies (#[trigger] seen@[u] <==> exists|
                    j: int,
                |
                    0 <= j < i + 1 && (#[trigger] self@[j]).spec_var() == u) by {
                    if u == var {
                        assert(self@[i as int].spec_var() == u);
                    } else {
                        if before[u] {
                            let j = choose|j: int|
                                0 <= j < i && (#[trigger] self@[j]).spec_var() == u;
                            assert(0 <= j < i + 1 && self@[j].spec_var() == u);
                        }
                        if exists|j: int| 0 <= j < i + 1 && (#[trigger] self@[j]).spec_var() == u {
                            let j = choose|j: int|
                                0 <= j < i + 1 && (#[trigger] self@[j]).spec_var() == u;
                            assert(j != i);
                            assert(0 <= j < i && self@[j].spec_var() == u);
                        }
                    }
                }
                assert forall|j: int, k: int| 0 <= j < k < i + 1 implies (
                #[trigger] self@[j]).spec_var() != (#[trigger] self@[k]).spec_var() by {
                    if k == i {
                        if self@[j].spec_var() == var {
                            assert(0 <= j < i && self@[j].spec_var() == var);
                            assert(before[var as int]);
                        }
                    }
                }
            }
            i = i + 1;
        }
        true
    }

    /// The path of the literals that the signed numbers stand for, in the
    /// same order: `k` decides variable `k - 1` true, `-k` decides it false.
    pub fn from_signed(values: &Vec<i32>) -> (path: DecisionPath)
        ensures
            path@.len() == values@.len(),
            forall|i: int|
                0 <= i < values@.len() ==> #[trigger] path@[i] == Lit::spec_from_signed(
                    values@[i],
                ),
    {
        let mut lits: Vec<Lit> = Vec::new();
        let mut i: usize = 0;
        while i < values.len()
            invariant
                i <= values@.len(),
                lits@.len() == i,
                forall|j: int|
                    0 <= j < i ==> #[trigger] lits@[j] == Lit::spec_from_signed(values@[j]),
            decreases values@.len() - i,
        {
            lits.push(Lit::from(values[i]));
            i = i + 1;
        }
        DecisionPath(lits)
    }
}

impl From<Vec<Lit>> for DecisionPath {
    /// The path of the given decisions.
    fn from(decisions: Vec<Lit>) -> (path: DecisionPath) {
        DecisionPath(decisions)
    }
}

impl FromSpecImpl<Vec<Lit>> for DecisionPath {
    open spec fn obeys_from_spec() -> bool {
        true
    }

    open spec fn from_spec(decisions: Vec<Lit>) -> DecisionPath {
        DecisionPath(decisions)
    }
}

} // verus!
