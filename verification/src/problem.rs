//! The formula: clauses, the indices from variables and literals to the
//! clauses that hold them, and the initial activity of each variable.

use crate::clause::{
    clause_in_range, clause_normal, clause_satisfied_by, has_complement,
    lemma_adjacent_complement, strictly_ascending, Clause,
};
use crate::lit::{Lit, MAX_VARS};
use crate::store::{ids, ids_get, ids_len, ids_new, ids_push, MAX_CLAUSES_PER_LIT, MAX_CLAUSES_PER_VAR};
use crate::utils::{append_decimal, decimal};
use crate::vsids::ACTIVITY_ONE;
use stackvector::StackVec;
use vstd::prelude::*;
use vstd::string::StringExecFns;

verus! {

/// Identifier of a clause: its place in the formula.
pub type ClauseID = usize;

/// Some literal of the clause has the variable `var`.
pub open spec fn mentions(clause: Seq<Lit>, var: usize) -> bool {
    exists|i: int| 0 <= i < clause.len() && (#[trigger] clause[i]).spec_var() == var
}

/// The ids of the clauses that hold `lit`, in ascending order.
pub open spec fn lit_occurrences(clauses: Seq<Seq<Lit>>, lit: Lit) -> Seq<usize>
    decreases clauses.len(),
{
    if clauses.len() == 0 {
        Seq::empty()
    } else if clauses.last().contains(lit) {
        lit_occurrences(clauses.drop_last(), lit).push((clauses.len() - 1) as usize)
    } else {
        lit_occurrences(clauses.drop_last(), lit)
    }
}

/// The ids of the clauses that mention `var`, in ascending order.
pub open spec fn var_occurrences(clauses: Seq<Seq<Lit>>, var: usize) -> Seq<usize>
    decreases clauses.len(),
{
    if clauses.len() == 0 {
        Seq::empty()
    } else if mentions(clauses.last(), var) {
        var_occurrences(clauses.drop_last(), var).push((clauses.len() - 1) as usize)
    } else {
        var_occurrences(clauses.drop_last(), var)
    }
}

/// The weight of a clause of `len` literals: one halved `len` times, that
/// is 2 to the power of `-len` in fixed point.
pub open spec fn clause_weight(len: nat) -> nat
    decreases len,
{
    if len == 0 {
        ACTIVITY_ONE as nat
    } else {
        clause_weight((len - 1) as nat) / 2
    }
}

/// The sum of the weights of the clauses with the given ids.
pub open spec fn weight_sum(clauses: Seq<Seq<Lit>>, of: Seq<usize>) -> nat
    decreases of.len(),
{
    if of.len() == 0 {
        0
    } else {
        weight_sum(clauses, of.drop_last()) + clause_weight(clauses[of.last() as int].len())
    }
}

/// The Jeroslow-Wang score of a variable: the sum of the weights of the
/// clauses that mention it.
pub open spec fn jeroslow_wang(clauses: Seq<Seq<Lit>>, var: usize) -> nat {
    weight_sum(clauses, var_occurrences(clauses, var))
}

/// What a formula must meet to be stored: the variables fit the literal
/// code and the clauses the index type, every clause is in normal form over
/// the variables, and no variable and no literal occurs in more clauses
/// than an index entry holds.
pub open spec fn storable(num_vars: nat, clauses: Seq<Seq<Lit>>) -> bool {
    &&& num_vars <= MAX_VARS
    &&& clauses.len() <= usize::MAX
    &&& forall|c: int|
        0 <= c < clauses.len() ==> clause_in_range(#[trigger] clauses[c], num_vars)
            && clause_normal(clauses[c])
    &&& forall|var: usize|
        var < num_vars ==> (#[trigger] var_occurrences(clauses, var)).len() <= MAX_CLAUSES_PER_VAR
    &&& forall|code: u32|
        code < 2 * num_vars ==> (#[trigger] lit_occurrences(clauses, Lit(code))).len()
            <= MAX_CLAUSES_PER_LIT
}

/// No clause of the formula is empty.
pub open spec fn no_empty_clause(formula: Seq<Seq<Lit>>) -> bool {
    forall|c: int| 0 <= c < formula.len() ==> (#[trigger] formula[c]).len() > 0
}

/// Every clause holds a literal that the total assignment makes true.
pub open spec fn formula_satisfied_by(clauses: Seq<Seq<Lit>>, assignment: Seq<bool>) -> bool {
    forall|c: int| 0 <= c < clauses.len() ==> clause_satisfied_by(#[trigger] clauses[c], assignment)
}

/// The occurrences of a literal are exactly the clauses that hold it, each
/// once and in ascending order; those found in the first clauses of a
/// formula are no more than those found in all of it.
pub proof fn lemma_lit_occurrences(clauses: Seq<Seq<Lit>>, lit: Lit, upto: int)
    requires
        0 <= upto <= clauses.len() <= usize::MAX,
    ensures
        forall|c: usize|
            lit_occurrences(clauses, lit).contains(c) <==> c < clauses.len() && clauses[c as int].contains(lit),
        forall|i: int, j: int|
            0 <= i < j < lit_occurrences(clauses, lit).len() ==> lit_occurrences(clauses, lit)[i]
                < lit_occurrences(clauses, lit)[j],
        forall|i: int|
            0 <= i < lit_occurrences(clauses, lit).len() ==> lit_occurrences(clauses, lit)[i]
                < clauses.len(),
        lit_occurrences(clauses.take(upto), lit).len() <= lit_occurrences(clauses, lit).len(),
    decreases clauses.len(),
{
    let all = lit_occurrences(clauses, lit);
    if clauses.len() > 0 {
        let front = clauses.drop_last();
        let last = (clauses.len() - 1) as usize;
        let rest = lit_occurrences(front, lit);
        if upto < clauses.len() {
            lemma_lit_occurrences(front, lit, upto);
            assert(front.take(upto) =~= clauses.take(upto));
        } else {
            lemma_lit_occurrences(front, lit, 0);
            assert(clauses.take(upto) =~= clauses);
        }
        assert forall|i: int, j: int| 0 <= i < j < all.len() implies all[i] < all[j] by {
            if j == rest.len() {
                assert(rest[i] < front.len());
            }
        }
        assert forall|c: usize| all.contains(c) <==> c < clauses.len() && clauses[c as int].contains(
            lit,
        ) by {
            if all.contains(c) {
                let k = choose|k: int| 0 <= k < all.len() && all[k] == c;
                if k < rest.len() {
                    assert(rest[k] == c);
                    assert(rest.contains(c));
                    assert(front[c as int] == clauses[c as int]);
                }
            }
            if c < clauses.len() && clauses[c as int].contains(lit) {
                if c == last {
                    assert(all[all.len() - 1] == c);
                } else {
                    assert(front[c as int] == clauses[c as int]);
                    assert(rest.contains(c));
                    let k = choose|k: int| 0 <= k < rest.len() && rest[k] == c;
                    assert(all[k] == c);
                }
            }
        }
    } else {
        assert(clauses.take(upto) =~= clauses);
    }
}

/// The same for the occurrences of a variable.
pub proof fn lemma_var_occurrences(clauses: Seq<Seq<Lit>>, var: usize, upto: int)
    requires
        0 <= upto <= clauses.len() <= usize::MAX,
    ensures
        forall|c: usize|
            var_occurrences(clauses, var).contains(c) <==> c < clauses.len() && mentions(
                clauses[c as int],
                var,
            ),
        forall|i: int, j: int|
            0 <= i < j < var_occurrences(clauses, var).len() ==> var_occurrences(clauses, var)[i]
                < var_occurrences(clauses, var)[j],
        forall|i: int|
            0 <= i < var_occurrences(clauses, var).len() ==> var_occurrences(clauses, var)[i]
                < clauses.len(),
        var_occurrences(clauses.take(upto), var).len() <= var_occurrences(clauses, var).len(),
    decreases clauses.len(),
{
    let all = var_occurrences(clauses, var);
    if clauses.len() > 0 {
        let front = clauses.drop_last();
        let last = (clauses.len() - 1) as usize;
        let rest = var_occurrences(front, var);
        if upto < clauses.len() {
            lemma_var_occurrences(front, var, upto);
            assert(front.take(upto) =~= clauses.take(upto));
        } else {
            lemma_var_occurrences(front, var, 0);
            assert(clauses.take(upto) =~= clauses);
        }
        assert forall|i: int, j: int| 0 <= i < j < all.len() implies all[i] < all[j] by {
            if j == rest.len() {
                assert(rest[i] < front.len());
            }
        }
        assert forall|c: usize| all.contains(c) <==> c < clauses.len() && mentions(
            clauses[c as int],
            var,
        ) by {
            if all.contains(c) {
                let k = choose|k: int| 0 <= k < all.len() && all[k] == c;
                if k < rest.len() {
                    assert(rest[k] == c);
                    assert(rest.contains(c));
                    assert(front[c as int] == clauses[c as int]);
                }
            }
            if c < clauses.len() && mentions(clauses[c as int], var) {
                if c == last {
                    assert(all[all.len() - 1] == c);
                } else {
                    assert(front[c as int] == clauses[c as int]);
                    assert(rest.contains(c));
                    let k = choose|k: int| 0 <= k < rest.len() && rest[k] == c;
                    assert(all[k] == c);
                }
            }
        }
    } else {
        assert(clauses.take(upto) =~= clauses);
    }
}

/// No clause weighs more than one, so a sum of weights is at most the
/// number of its terms.
pub proof fn lemma_weight_sum_bound(clauses: Seq<Seq<Lit>>, of: Seq<usize>)
    ensures
        weight_sum(clauses, of) <= of.len() * ACTIVITY_ONE,
    decreases of.len(),
{
    if of.len() > 0 {
        lemma_weight_sum_bound(clauses, of.drop_last());
        lemma_clause_weight_bound(clauses[of.last() as int].len());
        assert(of.len() * ACTIVITY_ONE == (of.len() - 1) * ACTIVITY_ONE + ACTIVITY_ONE)
            by (nonlinear_arith);
    }
}

/// No clause weighs more than the empty one.
pub proof fn lemma_clause_weight_bound(len: nat)
    ensures
        clause_weight(len) <= ACTIVITY_ONE,
    decreases len,
{
    if len > 0 {
        lemma_clause_weight_bound((len - 1) as nat);
    }
}

/// A formula in conjunctive normal form, with its indices.
pub struct Problem {
    num_vars: usize,
    clauses: Vec<Clause>,
    /// For each variable the ids of the clauses that mention it.
    var2clauses: Vec<StackVec<ClauseID, MAX_CLAUSES_PER_VAR>>,
    /// For each literal code the ids of the clauses that hold the literal.
    lit2clauses: Vec<StackVec<ClauseID, MAX_CLAUSES_PER_VAR>>,
    /// The Jeroslow-Wang score of each variable.
    var_scores: Vec<u64>,
}

/// The clauses of a vector, each as the sequence of its literals.
pub open spec fn clauses_view(clauses: Seq<Clause>) -> Seq<Seq<Lit>> {
    Seq::new(clauses.len(), |c: int| clauses[c]@)
}

impl Problem {
    /// The number of variables.
    pub closed spec fn spec_num_vars(&self) -> nat {
        self.num_vars as nat
    }

    /// The clauses, each as the sequence of its literals.
    pub closed spec fn spec_clauses(&self) -> Seq<Seq<Lit>> {
        clauses_view(self.clauses@)
    }

    /// The index entry of a literal: ids of clauses, in the order in which
    /// the search visits them.
    pub closed spec fn lit_index(&self, lit: Lit) -> Seq<usize> {
        ids(self.lit2clauses@[lit.0 as int])
    }

    /// The index entry of a variable.
    pub closed spec fn var_index(&self, var: usize) -> Seq<usize> {
        ids(self.var2clauses@[var as int])
    }

    /// The initial activity of each variable.
    pub closed spec fn spec_var_scores(&self) -> Seq<u64> {
        self.var_scores@
    }

    /// The formula is storable, each index entry lists the occurrences of
    /// its literal or variable, and the scores are the Jeroslow-Wang scores.
    pub closed spec fn wf(&self) -> bool {
        &&& storable(self.num_vars as nat, self.spec_clauses())
        &&& self.lit2clauses@.len() == 2 * self.num_vars
        &&& self.var2clauses@.len() == self.num_vars
        &&& self.var_scores@.len() == self.num_vars
        &&& forall|code: u32|
            code < 2 * self.num_vars ==> #[trigger] ids(self.lit2clauses@[code as int])
                == lit_occurrences(self.spec_clauses(), Lit(code))
        &&& forall|var: usize|
            var < self.num_vars ==> #[trigger] ids(self.var2clauses@[var as int])
                == var_occurrences(self.spec_clauses(), var)
        &&& forall|var: usize|
            var < self.num_vars ==> #[trigger] self.var_scores@[var as int] == jeroslow_wang(
                self.spec_clauses(),
                var,
            )
    }

    /// What well-formedness means to the outside: the stored formula is
    /// storable, the indices list occurrences, the scores are as defined.
    pub proof fn lemma_wf(&self)
        requires
            self.wf(),
        ensures
            storable(self.spec_num_vars(), self.spec_clauses()),
            self.spec_var_scores().len() == self.spec_num_vars(),
            forall|lit: Lit|
                lit.0 < 2 * self.spec_num_vars() ==> #[trigger] self.lit_index(lit)
                    == lit_occurrences(self.spec_clauses(), lit),
            forall|var: usize|
                var < self.spec_num_vars() ==> #[trigger] self.var_index(var) == var_occurrences(
                    self.spec_clauses(),
                    var,
                ),
            forall|var: usize|
                var < self.spec_num_vars() ==> #[trigger] self.spec_var_scores()[var as int]
                    == jeroslow_wang(self.spec_clauses(), var),
            forall|var: usize|
                var < self.spec_num_vars() ==> #[trigger] self.spec_var_scores()[var as int]
                    <= MAX_CLAUSES_PER_VAR * ACTIVITY_ONE,
    {
        assert forall|lit: Lit| lit.0 < 2 * self.spec_num_vars() implies #[trigger] self.lit_index(
            lit,
        ) == lit_occurrences(self.spec_clauses(), lit) by {
            assert(ids(self.lit2clauses@[lit.0 as int]) == lit_occurrences(
                self.spec_clauses(),
                Lit(lit.0),
            ));
        }
        assert forall|var: usize| var < self.spec_num_vars() implies #[trigger] self.spec_var_scores()[var as int]
            <= MAX_CLAUSES_PER_VAR * ACTIVITY_ONE by {
            lemma_weight_sum_bound(self.spec_clauses(), var_occurrences(self.spec_clauses(), var));
            assert(var_occurrences(self.spec_clauses(), var).len() <= MAX_CLAUSES_PER_VAR);
            assert(var_occurrences(self.spec_clauses(), var).len() * ACTIVITY_ONE
                <= MAX_CLAUSES_PER_VAR * ACTIVITY_ONE) by (nonlinear_arith)
                requires
                    var_occurrences(self.spec_clauses(), var).len() <= MAX_CLAUSES_PER_VAR,
            ;
        }
    }

    /// Every stored clause is in normal form: its literals ascend strictly,
    /// so that it is sorted and holds no literal twice, and it holds no
    /// variable both plain and negated.
    pub proof fn lemma_clauses_normal(&self, clause: int)
        requires
            self.wf(),
            0 <= clause < self.spec_clauses().len(),
        ensures
            strictly_ascending(self.spec_clauses()[clause]),
            !has_complement(self.spec_clauses()[clause]),
            clause_in_range(self.spec_clauses()[clause], self.spec_num_vars()),
    {
        self.lemma_wf();
    }

    /// The index of a literal names a clause exactly if the clause holds the
    /// literal, and the index of a variable exactly if the clause mentions
    /// the variable.
    pub proof fn lemma_index_consistent(&self, lit: Lit, clause: usize)
        requires
            self.wf(),
            lit.spec_var() < self.spec_num_vars(),
        ensures
            self.lit_index(lit).contains(clause) <==> clause < self.spec_clauses().len()
                && self.spec_clauses()[clause as int].contains(lit),
            self.var_index(lit.spec_var()).contains(clause) <==> clause
                < self.spec_clauses().len() && mentions(
                self.spec_clauses()[clause as int],
                lit.spec_var(),
            ),
    {
        self.lemma_wf();
        lemma_lit_occurrences(self.spec_clauses(), lit, 0);
        lemma_var_occurrences(self.spec_clauses(), lit.spec_var(), 0);
    }

    /// Stores the formula and builds its indices and scores. The formula
    /// must be storable.
    pub fn new(num_vars: usize, clauses: Vec<Clause>) -> (problem: Problem)
        requires
            storable(num_vars as nat, clauses_view(clauses@)),
        ensures
            problem.wf(),
            problem.spec_num_vars() == num_vars,
            problem.spec_clauses() == clauses_view(clauses@),
    {
        Problem::try_new(num_vars, clauses).unwrap()
    }

    /// Stores the formula and builds its indices and scores, or returns
    /// nothing if the formula is not storable.
    pub fn try_new(num_vars: usize, clauses: Vec<Clause>) -> (built: Option<Problem>)
        ensures
            built is Some <==> storable(num_vars as nat, clauses_view(clauses@)),
            built matches Some(problem) ==> {
                &&& problem.wf()
                &&& problem.spec_num_vars() == num_vars
                &&& problem.spec_clauses() == clauses_view(clauses@)
            },
    {
        let ghost formula = clauses_view(clauses@);
        if num_vars > MAX_VARS {
            return None;
        }
        let mut lit2clauses: Vec<StackVec<ClauseID, MAX_CLAUSES_PER_VAR>> = Vec::new();
        let mut var2clauses: Vec<StackVec<ClauseID, MAX_CLAUSES_PER_VAR>> = Vec::new();
        let mut v: usize = 0;
        while v < num_vars
            invariant
                v <= num_vars <= MAX_VARS,
                lit2clauses@.len() == 2 * v,
                var2clauses@.len() == v,
                forall|code: int| 0 <= code < 2 * v ==> ids(#[trigger] lit2clauses@[code]) == Seq::<
                    usize,
                >::empty(),
                forall|var: int| 0 <= var < v ==> ids(#[trigger] var2clauses@[var]) == Seq::<
                    usize,
                >::empty(),
            decreases num_vars - v,
        {
            lit2clauses.push(ids_new());
            lit2clauses.push(ids_new());
            var2clauses.push(ids_new());
            v = v + 1;
        }
        assert(formula.take(0) =~= Seq::<Seq<Lit>>::empty());
        let total = clauses.len();
        let mut c: usize = 0;
        while c < total
            invariant
                num_vars <= MAX_VARS,
                total == clauses@.len(),
                formula.len() <= usize::MAX,
                formula == clauses_view(clauses@),
                c <= clauses@.len(),
                lit2clauses@.len() == 2 * num_vars,
                var2clauses@.len() == num_vars,
                forall|code: int|
                    0 <= code < 2 * num_vars ==> ids(#[trigger] lit2clauses@[code]).len()
                        <= MAX_CLAUSES_PER_LIT,
                forall|var: int|
                    0 <= var < num_vars ==> ids(#[trigger] var2clauses@[var]).len()
                        <= MAX_CLAUSES_PER_VAR,
                forall|k: int|
                    0 <= k < c ==> clause_in_range(#[trigger] formula[k], num_vars as nat)
                        && clause_normal(formula[k]),
                forall|code: u32|
                    code < 2 * num_vars ==> #[trigger] ids(lit2clauses@[code as int])
                        == lit_occurrences(formula.take(c as int), Lit(code)),
                forall|var: usize|
                    var < num_vars ==> #[trigger] ids(var2clauses@[var as int])
                        == var_occurrences(formula.take(c as int), var),
            decreases clauses@.len() - c,
        {
            let clause = &clauses[c];
            assert(clause@ == formula[c as int]);
            let n = clause.len();
            // The clause must be in normal form over the variables.
            let mut l: usize = 0;
            while l < n
                invariant
                    formula == clauses_view(clauses@),
                    c < clauses@.len(),
                    clause@ == formula[c as int],
                    n == clause@.len(),
                    l <= n,
                    forall|i: int| 0 <= i < l ==> (#[trigger] clause@[i]).spec_var() < num_vars,
                    forall|i: int| 0 <= i < l - 1 ==> (#[trigger] clause@[i]).0 < clause@[i + 1].0,
                    forall|i: int|
                        0 <= i < l - 1 ==> (#[trigger] clause@[i]).spec_var() != clause@[i
                            + 1].spec_var(),
                decreases n - l,
            {
                let lit = clause.get(l);
                let mut fits = lit.var() < num_vars;
                if fits && l > 0 {
                    let before = clause.get(l - 1);
                    fits = before.0 < lit.0 && before.var() != lit.var();
                }
                if !fits {
                    proof {
                        lemma_not_storable(num_vars as nat, formula, c as int, l as int);
                    }
                    return None;
                }
                l = l + 1;
            }
            proof {
                lemma_neighbours_normal(clause@);
                lemma_distinct_vars(clause@);
            }
            let mut l: usize = 0;
            assert(clause@.take(0) =~= Seq::<Lit>::empty());
            while l < n
                invariant
                    num_vars <= MAX_VARS,
                    formula.len() <= usize::MAX,
                    formula == clauses_view(clauses@),
                    c < clauses@.len(),
                    clause@ == formula[c as int],
                    n == clause@.len(),
                    l <= n,
                    clause_in_range(clause@, num_vars as nat),
                    clause_normal(clause@),
                    forall|i: int, j: int|
                        0 <= i < j < clause@.len() ==> (#[trigger] clause@[i]).spec_var() != (
                        #[trigger] clause@[j]).spec_var(),
                    lit2clauses@.len() == 2 * num_vars,
                    var2clauses@.len() == num_vars,
                    forall|code: int|
                        0 <= code < 2 * num_vars ==> ids(#[trigger] lit2clauses@[code]).len()
                            <= MAX_CLAUSES_PER_LIT,
                    forall|var: int|
                        0 <= var < num_vars ==> ids(#[trigger] var2clauses@[var]).len()
                            <= MAX_CLAUSES_PER_VAR,
                    forall|code: u32|
                        code < 2 * num_vars ==> #[trigger] ids(lit2clauses@[code as int]) == if clause@.take(
                            l as int,
                        ).contains(Lit(code)) {
                            lit_occurrences(formula.take(c as int), Lit(code)).push(c)
                        } else {
                            lit_occurrences(formula.take(c as int), Lit(code))
                        },
                    forall|var: usize|
                        var < num_vars ==> #[trigger] ids(var2clauses@[var as int]) == if mentions(
                            clause@.take(l as int),
                            var,
                        ) {
                            var_occurrences(formula.take(c as int), var).push(c)
                        } else {
                            var_occurrences(formula.take(c as int), var)
                        },
                decreases n - l,
            {
                let lit = clause.get(l);
                let code = lit.0;
                let var = lit.var();
                let ghost seen = clause@.take(l as int);
                proof {
                    assert(code == 2 * var + if lit.spec_is_pos() { 0int } else { 1int });
                    assert(!seen.contains(lit)) by {
                        if seen.contains(lit) {
                            let i = choose|i: int| 0 <= i < seen.len() && seen[i] == lit;
                            assert(clause@[i].0 < clause@[l as int].0);
                        }
                    }
                    assert(!mentions(seen, var)) by {
                        if mentions(seen, var) {
                            let i = choose|i: int|
                                0 <= i < seen.len() && (#[trigger] seen[i]).spec_var() == var;
                            assert(clause@[i].spec_var() != clause@[l as int].spec_var());
                        }
                    }
                    assert(ids(lit2clauses@[code as int]) == lit_occurrences(
                        formula.take(c as int),
                        Lit(code),
                    ));
                    assert(ids(var2clauses@[var as int]) == var_occurrences(
                        formula.take(c as int),
                        var,
                    ));
                }
                if ids_len(&lit2clauses[code as usize]) >= MAX_CLAUSES_PER_LIT || ids_len(
                    &var2clauses[var],
                ) >= MAX_CLAUSES_PER_VAR {
                    proof {
                        lemma_overfull(num_vars as nat, formula, c as int, lit);
                    }
                    return None;
                }
                let ghost lit_before = lit2clauses@;
                let ghost var_before = var2clauses@;
                ids_push(&mut lit2clauses[code as usize], c);
                ids_push(&mut var2clauses[var], c);
                proof {
                    let now = clause@.take(l + 1);
                    assert(now =~= seen.push(lit));
                    assert forall|other: u32| other < 2 * num_vars implies #[trigger] ids(
                        lit2clauses@[other as int],
                    ) == if now.contains(Lit(other)) {
                        lit_occurrences(formula.take(c as int), Lit(other)).push(c)
                    } else {
                        lit_occurrences(formula.take(c as int), Lit(other))
                    } by {
                        if other == code {
                            assert(now[l as int] == Lit(other));
                        } else {
                            assert(lit2clauses@[other as int] == lit_before[other as int]);
                            assert(ids(lit_before[other as int]) == if seen.contains(Lit(other)) {
                                lit_occurrences(formula.take(c as int), Lit(other)).push(c)
                            } else {
                                lit_occurrences(formula.take(c as int), Lit(other))
                            });
                            if seen.contains(Lit(other)) {
                                let i = choose|i: int| 0 <= i < seen.len() && seen[i] == Lit(other);
                                assert(now[i] == Lit(other));
                            }
                            if now.contains(Lit(other)) {
                                let i = choose|i: int| 0 <= i < now.len() && now[i] == Lit(other);
                                assert(i != l);
                                assert(seen[i] == Lit(other));
                            }
                        }
                    }
                    assert forall|other: usize| other < num_vars implies #[trigger] ids(
                        var2clauses@[other as int],
                    ) == if mentions(now, other) {
                        var_occurrences(formula.take(c as int), other).push(c)
                    } else {
                        var_occurrences(formula.take(c as int), other)
                    } by {
                        if other == var {
                            assert(now[l as int].spec_var() == other);
                        } else {
                            assert(var2clauses@[other as int] == var_before[other as int]);
                            assert(ids(var_before[other as int]) == if mentions(seen, other) {
                                var_occurrences(formula.take(c as int), other).push(c)
                            } else {
                                var_occurrences(formula.take(c as int), other)
                            });
                            if mentions(seen, other) {
                                let i = choose|i: int|
                                    0 <= i < seen.len() && (#[trigger] seen[i]).spec_var() == other;
                                assert(now[i].spec_var() == other);
                            }
                            if mentions(now, other) {
                                let i = choose|i: int|
                                    0 <= i < now.len() && (#[trigger] now[i]).spec_var() == other;
                                assert(i != l);
                                assert(seen[i].spec_var() == other);
                            }
                        }
                    }
                }
                l = l + 1;
            }
            proof {
                assert(clause@.take(n as int) =~= clause@);
                assert(formula.take(c + 1).drop_last() =~= formula.take(c as int));
                assert(formula.take(c + 1).last() == clause@);
            }
            c = c + 1;
        }
        assert(formula.take(c as int) =~= formula);
        proof {
            assert forall|var: int, k: int|
                0 <= var < var2clauses@.len() && 0 <= k < ids(
                    var2clauses@[var],
                ).len() implies (#[trigger] ids(var2clauses@[var])[k]) < clauses@.len() by {
                lemma_var_occurrences(formula, var as usize, 0);
                assert(ids(var2clauses@[(var as usize) as int]) == var_occurrences(
                    formula,
                    var as usize,
                ));
            }
        }
        proof {
            assert forall|var: usize| var < num_vars implies (#[trigger] var_occurrences(
                formula,
                var,
            )).len() <= MAX_CLAUSES_PER_VAR by {
                assert(ids(var2clauses@[var as int]) == var_occurrences(formula, var));
            }
            assert forall|k: int| 0 <= k < clauses@.len() implies clause_in_range(
                (#[trigger] clauses@[k])@,
                num_vars as nat,
            ) && clause_normal(clauses@[k]@) by {
                assert(clause_in_range(formula[k], num_vars as nat));
            }
        }
        let var_scores = Problem::calculate_jeroslow_wang_scores(clauses.as_slice(), num_vars);
        let problem = Problem { num_vars, clauses, var2clauses, lit2clauses, var_scores };
        proof {
            assert(problem.spec_clauses() == formula);
            assert forall|var: usize| var < num_vars implies (#[trigger] var_occurrences(
                formula,
                var,
            )).len() <= MAX_CLAUSES_PER_VAR by {
                assert(ids(problem.var2clauses@[var as int]) == var_occurrences(formula, var));
            }
            assert forall|code: u32| code < 2 * num_vars implies (#[trigger] lit_occurrences(
                formula,
                Lit(code),
            )).len() <= MAX_CLAUSES_PER_LIT by {
                assert(ids(problem.lit2clauses@[code as int]) == lit_occurrences(
                    formula,
                    Lit(code),
                ));
            }
        }
        Some(problem)
    }

    /// The Jeroslow-Wang score of each variable: every clause adds its
    /// weight to the score of each variable that it mentions. The clauses
    /// must be in normal form over the variables, and no variable may occur
    /// in more clauses than an index entry holds.
    pub fn calculate_jeroslow_wang_scores(clauses: &[Clause], num_vars: usize) -> (scores: Vec<u64>)
        requires
            forall|c: int|
                0 <= c < clauses@.len() ==> clause_in_range(
                    (#[trigger] clauses@[c])@,
                    num_vars as nat,
                ) && clause_normal(clauses@[c]@),
            forall|var: usize|
                var < num_vars ==> (#[trigger] var_occurrences(clauses_view(clauses@), var)).len()
                    <= MAX_CLAUSES_PER_VAR,
        ensures
            scores@.len() == num_vars,
            forall|var: usize|
                var < num_vars ==> #[trigger] scores@[var as int] == jeroslow_wang(
                    clauses_view(clauses@),
                    var,
                ),
    {
        let ghost formula = clauses_view(clauses@);
        let mut scores: Vec<u64> = Vec::new();
        let mut v: usize = 0;
        while v < num_vars
            invariant
                v <= num_vars,
                scores@.len() == v,
                forall|u: int| 0 <= u < v ==> scores@[u] == 0,
            decreases num_vars - v,
        {
            scores.push(0);
            v = v + 1;
        }
        assert(formula.take(0) =~= Seq::<Seq<Lit>>::empty());
        let total = clauses.len();
        let mut c: usize = 0;
        while c < total
            invariant
                formula == clauses_view(clauses@),
                total == clauses@.len(),
                c <= clauses@.len(),
                scores@.len() == num_vars,
                forall|k: int|
                    0 <= k < clauses@.len() ==> clause_in_range(
                        (#[trigger] clauses@[k])@,
                        num_vars as nat,
                    ) && clause_normal(clauses@[k]@),
                forall|var: usize|
                    var < num_vars ==> (#[trigger] var_occurrences(formula, var)).len()
                        <= MAX_CLAUSES_PER_VAR,
                forall|var: usize|
                    var < num_vars ==> #[trigger] scores@[var as int] == weight_sum(
                        formula,
                        var_occurrences(formula.take(c as int), var),
                    ),
            decreases clauses@.len() - c,
        {
            let clause = &clauses[c];
            let n = clause.len();
            let weight = Problem::weight_of(n);
            let ghost base = scores@;
            let ghost front = formula.take(c as int);
            proof {
                assert(formula[c as int] == clause@);
                assert(clause_in_range(clauses@[c as int]@, num_vars as nat));
                assert(clause_normal(clauses@[c as int]@));
                lemma_distinct_vars(clause@);
                assert(formula.take(c + 1).drop_last() =~= front);
                assert(formula.take(c + 1).last() == clause@);
            }
            let mut l: usize = 0;
            while l < n
                invariant
                    formula == clauses_view(clauses@),
                    c < clauses@.len() <= usize::MAX,
                    clause@ == formula[c as int],
                    front == formula.take(c as int),
                    formula.take(c + 1).drop_last() == front,
                    formula.take(c + 1).last() == clause@,
                    n == clause@.len(),
                    l <= n,
                    weight == clause_weight(n as nat),
                    weight <= ACTIVITY_ONE,
                    scores@.len() == num_vars,
                    base.len() == num_vars,
                    clause_in_range(clause@, num_vars as nat),
                    forall|i: int, j: int|
                        0 <= i < j < clause@.len() ==> (#[trigger] clause@[i]).spec_var() != (
                        #[trigger] clause@[j]).spec_var(),
                    forall|var: usize|
                        var < num_vars ==> (#[trigger] var_occurrences(formula, var)).len()
                            <= MAX_CLAUSES_PER_VAR,
                    forall|var: usize|
                        var < num_vars ==> #[trigger] base[var as int] == weight_sum(
                            formula,
                            var_occurrences(front, var),
                        ),
                    forall|var: usize|
                        var < num_vars ==> #[trigger] scores@[var as int] == base[var as int]
                            + if mentions(clause@.take(l as int), var) {
                            weight as int
                        } else {
                            0
                        },
                decreases n - l,
            {
                let var = clause.get(l).var();
                let ghost seen = clause@.take(l as int);
                proof {
                    assert(clause@[l as int].spec_var() == var);
                    if mentions(seen, var) {
                        let i = choose|i: int|
                            0 <= i < seen.len() && (#[trigger] seen[i]).spec_var() == var;
                        assert(seen[i] == clause@[i]);
                    }
                    assert(scores@[var as int] == base[var as int]);
                    assert(mentions(clause@, var));
                    lemma_var_occurrences(formula, var, c + 1);
                    lemma_weight_sum_bound(formula, var_occurrences(front, var));
                    assert(var_occurrences(front, var).len() * ACTIVITY_ONE <= 63 * ACTIVITY_ONE)
                        by (nonlinear_arith)
                        requires
                            var_occurrences(front, var).len() <= 63,
                    ;
                }
                let raised = scores[var] + weight;
                scores.set(var, raised);
                proof {
                    let now = clause@.take(l + 1);
                    assert(now[l as int] == clause@[l as int]);
                    assert(mentions(now, var));
                    assert forall|other: usize| other < num_vars implies #[trigger] scores@[other as int]
                        == base[other as int] + if mentions(now, other) {
                        weight as int
                    } else {
                        0
                    } by {
                        if other != var {
                            if mentions(seen, other) {
                                let i = choose|i: int|
                                    0 <= i < seen.len() && (#[trigger] seen[i]).spec_var()
                                        == other;
                                assert(now[i] == seen[i]);
                            }
                            if mentions(now, other) {
                                let i = choose|i: int|
                                    0 <= i < now.len() && (#[trigger] now[i]).spec_var() == other;
                                assert(i != l);
                                assert(seen[i] == now[i]);
                            }
                        }
                    }
                }
                l = l + 1;
            }
            proof {
                assert(clause@.take(n as int) =~= clause@);
                assert forall|var: usize| var < num_vars implies #[trigger] scores@[var as int]
                    == weight_sum(formula, var_occurrences(formula.take(c + 1), var)) by {
                    let before = var_occurrences(front, var);
                    if mentions(clause@, var) {
                        assert(var_occurrences(formula.take(c + 1), var) == before.push(c));
                        assert(before.push(c).drop_last() =~= before);
                    }
                }
            }
            c = c + 1;
        }
        assert(formula.take(c as int) =~= formula);
        scores
    }

    /// The weight of a clause of `len` literals.
    fn weight_of(len: usize) -> (weight: u64)
        ensures
            weight == clause_weight(len as nat),
            weight <= ACTIVITY_ONE,
    {
        let mut weight: u64 = ACTIVITY_ONE;
        let mut i: usize = 0;
        while i < len
            invariant
                i <= len,
                weight == clause_weight(i as nat),
                weight <= ACTIVITY_ONE,
            decreases len - i,
        {
            weight = weight / 2;
            i = i + 1;
        }
        weight
    }

    /// The number of variables.
    pub fn num_vars(&self) -> (n: usize)
        ensures
            n == self.spec_num_vars(),
    {
        self.num_vars
    }

    /// The number of clauses.
    pub fn num_clauses(&self) -> (n: usize)
        ensures
            n == self.spec_clauses().len(),
    {
        self.clauses.len()
    }

    /// The clause with the given id.
    pub fn clause(&self, id: ClauseID) -> (clause: &Clause)
        requires
            id < self.spec_clauses().len(),
        ensures
            clause@ == self.spec_clauses()[id as int],
    {
        &self.clauses[id]
    }

    /// The initial activity of each variable.
    pub fn var_scores(&self) -> (scores: &[u64])
        ensures
            scores@ == self.spec_var_scores(),
    {
        self.var_scores.as_slice()
    }

    /// The number of clauses that hold `lit`.
    pub fn num_clauses_containing_lit(&self, lit: Lit) -> (n: usize)
        requires
            self.wf(),
            lit.spec_var() < self.spec_num_vars(),
        ensures
            n == self.lit_index(lit).len(),
    {
        ids_len(&self.lit2clauses[lit.0 as usize])
    }

    /// The id of the `k`-th clause that holds `lit`.
    pub fn clause_containing_lit(&self, lit: Lit, k: usize) -> (id: ClauseID)
        requires
            self.wf(),
            lit.spec_var() < self.spec_num_vars(),
            k < self.lit_index(lit).len(),
        ensures
            id == self.lit_index(lit)[k as int],
            id < self.spec_clauses().len(),
            self.spec_clauses()[id as int].contains(lit),
    {
        proof {
            self.lemma_wf();
            lemma_lit_occurrences(self.spec_clauses(), lit, 0);
            assert(self.lit_index(lit).contains(self.lit_index(lit)[k as int]));
        }
        ids_get(&self.lit2clauses[lit.0 as usize], k)
    }

    /// The clauses that hold `lit`, in the order of their ids.
    pub fn clauses_containing_lit(&self, lit: Lit) -> (found: Vec<&Clause>)
        requires
            self.wf(),
            lit.spec_var() < self.spec_num_vars(),
        ensures
            found@.len() == self.lit_index(lit).len(),
            forall|k: int|
                0 <= k < found@.len() ==> (#[trigger] found@[k])@
                    == self.spec_clauses()[self.lit_index(lit)[k] as int],
    {
        let mut found: Vec<&Clause> = Vec::new();
        let count = self.num_clauses_containing_lit(lit);
        let mut k: usize = 0;
        while k < count
            invariant
                self.wf(),
                lit.spec_var() < self.spec_num_vars(),
                count == self.lit_index(lit).len(),
                k <= count,
                found@.len() == k,
                forall|i: int|
                    0 <= i < k ==> (#[trigger] found@[i])@
                        == self.spec_clauses()[self.lit_index(lit)[i] as int],
            decreases count - k,
        {
            let id = self.clause_containing_lit(lit, k);
            found.push(&self.clauses[id]);
            k = k + 1;
        }
        found
    }

    /// The clauses that mention the variable, in the order of their ids.
    pub fn clauses_containing_var(&self, var_id: usize) -> (found: Vec<&Clause>)
        requires
            self.wf(),
            var_id < self.spec_num_vars(),
        ensures
            found@.len() == self.var_index(var_id).len(),
            forall|k: int|
                0 <= k < found@.len() ==> (#[trigger] found@[k])@
                    == self.spec_clauses()[self.var_index(var_id)[k] as int],
    {
        proof {
            self.lemma_wf();
            lemma_var_occurrences(self.spec_clauses(), var_id, 0);
        }
        let entry = &self.var2clauses[var_id];
        let mut found: Vec<&Clause> = Vec::new();
        let count = ids_len(entry);
        let mut k: usize = 0;
        while k < count
            invariant
                self.wf(),
                var_id < self.spec_num_vars(),
                ids(*entry) == self.var_index(var_id),
                count == self.var_index(var_id).len(),
                k <= count,
                found@.len() == k,
                forall|i: int|
                    0 <= i < self.var_index(var_id).len() ==> self.var_index(var_id)[i]
                        < self.spec_clauses().len(),
                forall|i: int|
                    0 <= i < k ==> (#[trigger] found@[i])@
                        == self.spec_clauses()[self.var_index(var_id)[i] as int],
            decreases count - k,
        {
            let id = ids_get(entry, k);
            found.push(&self.clauses[id]);
            k = k + 1;
        }
        found
    }

    /// The id of the first clause that the total assignment leaves without a
    /// true literal, or nothing if it satisfies every clause.
    pub fn first_unsatisfied(&self, solution: &[bool]) -> (first: Option<ClauseID>)
        requires
            self.wf(),
            solution@.len() == self.spec_num_vars(),
        ensures
            first is None <==> formula_satisfied_by(self.spec_clauses(), solution@),
            first matches Some(id) ==> {
                &&& id < self.spec_clauses().len()
                &&& !clause_satisfied_by(self.spec_clauses()[id as int], solution@)
                &&& forall|c: int|
                    0 <= c < id ==> clause_satisfied_by(
                        #[trigger] self.spec_clauses()[c],
                        solution@,
                    )
            },
    {
        proof {
            self.lemma_wf();
        }
        let mut i: usize = 0;
        while i < self.clauses.len()
            invariant
                self.wf(),
                solution@.len() == self.spec_num_vars(),
                storable(self.spec_num_vars(), self.spec_clauses()),
                i <= self.spec_clauses().len(),
                forall|c: int|
                    0 <= c < i ==> clause_satisfied_by(
                        #[trigger] self.spec_clauses()[c],
                        solution@,
                    ),
            decreases self.spec_clauses().len() - i,
        {
            assert(clause_in_range(self.spec_clauses()[i as int], self.spec_num_vars()));
            if !self.clauses[i].is_satisfied_by(solution) {
                return Some(i);
            }
            i = i + 1;
        }
        None
    }

    /// Checks that the total assignment satisfies every clause. The error
    /// names the first clause that it does not satisfy: the one of the
    /// smallest id.
    pub fn verify_solution(&self, solution: &[bool]) -> (verdict: Result<(), String>)
        requires
            self.wf(),
            solution@.len() == self.spec_num_vars(),
        ensures
            verdict is Ok <==> formula_satisfied_by(self.spec_clauses(), solution@),
            verdict matches Err(message) ==> exists|id: usize|
                #![trigger unsatisfied_message(id)]
                {
                    &&& id < self.spec_clauses().len()
                    &&& !clause_satisfied_by(self.spec_clauses()[id as int], solution@)
                    &&& forall|c: int|
                        0 <= c < id ==> clause_satisfied_by(
                            #[trigger] self.spec_clauses()[c],
                            solution@,
                        )
                    &&& message@ == unsatisfied_message(id)
                },
    {
        match self.first_unsatisfied(solution) {
            Some(id) => Err(describe_unsatisfied(id)),
            None => Ok(()),
        }
    }
}

impl Default for Problem {
    /// The formula without variables and clauses.
    fn default() -> (problem: Problem)
        ensures
            problem.wf(),
            problem.spec_num_vars() == 0,
            problem.spec_clauses() == Seq::<Seq<Lit>>::empty(),
    {
        let problem = Problem {
            num_vars: 0,
            clauses: Vec::new(),
            var2clauses: Vec::new(),
            lit2clauses: Vec::new(),
            var_scores: Vec::new(),
        };
        assert(problem.spec_clauses() =~= Seq::<Seq<Lit>>::empty());
        problem
    }
}

/// The text that reports clause `id` as unsatisfied.
pub open spec fn unsatisfied_message(id: usize) -> Seq<char> {
    "Clause "@ + decimal(id as nat) + " is unsatisfied."@
}

/// The report that clause `id` is unsatisfied.
fn describe_unsatisfied(id: usize) -> (message: String)
    ensures
        message@ == unsatisfied_message(id),
{
    let mut message = String::from_str("Clause ");
    append_decimal(&mut message, id);
    message.append(" is unsatisfied.");
    message
}

/// A clause whose neighbours ascend strictly and differ in their variable
/// is in normal form.
proof fn lemma_neighbours_normal(clause: Seq<Lit>)
    requires
        forall|i: int| 0 <= i < clause.len() - 1 ==> (#[trigger] clause[i]).0 < clause[i + 1].0,
        forall|i: int|
            0 <= i < clause.len() - 1 ==> (#[trigger] clause[i]).spec_var() != clause[i
                + 1].spec_var(),
    ensures
        clause_normal(clause),
{
    assert forall|i: int, j: int| 0 <= i < j < clause.len() implies clause[i].0
        < clause[j].0 by {
        lemma_ascending_chain(clause, i, j);
    }
    lemma_adjacent_complement(clause);
}

/// Where each literal is below the next, each is below all later ones.
proof fn lemma_ascending_chain(clause: Seq<Lit>, i: int, j: int)
    requires
        forall|k: int| 0 <= k < clause.len() - 1 ==> (#[trigger] clause[k]).0 < clause[k + 1].0,
        0 <= i < j < clause.len(),
    ensures
        clause[i].0 < clause[j].0,
    decreases j - i,
{
    if j > i + 1 {
        lemma_ascending_chain(clause, i, j - 1);
    }
    assert(clause[j - 1].0 < clause[j - 1 + 1].0);
}

/// In a clause in normal form no two literals share their variable.
proof fn lemma_distinct_vars(clause: Seq<Lit>)
    requires
        clause_normal(clause),
    ensures
        forall|i: int, j: int|
            0 <= i < j < clause.len() ==> (#[trigger] clause[i]).spec_var() != (
            #[trigger] clause[j]).spec_var(),
{
    assert forall|i: int, j: int| 0 <= i < j < clause.len() implies (
    #[trigger] clause[i]).spec_var() != (#[trigger] clause[j]).spec_var() by {
        assert(clause[i].0 < clause[j].0);
        if clause[i].spec_var() == clause[j].spec_var() {
            assert(clause[i].spec_is_pos() != clause[j].spec_is_pos());
        }
    }
}

/// A formula with a clause that is out of range or out of order at place
/// `at` is not storable.
proof fn lemma_not_storable(num_vars: nat, formula: Seq<Seq<Lit>>, c: int, at: int)
    requires
        0 <= c < formula.len(),
        0 <= at < formula[c].len(),
        formula[c][at].spec_var() >= num_vars || (at > 0 && (formula[c][at - 1].0
            >= formula[c][at].0 || formula[c][at - 1].spec_var() == formula[c][at].spec_var())),
    ensures
        !storable(num_vars, formula),
{
    let clause = formula[c];
    if storable(num_vars, formula) {
        assert(clause_in_range(clause, num_vars) && clause_normal(clause));
        assert(clause[at].spec_var() < num_vars);
        lemma_distinct_vars(clause);
    }
}

/// A formula in which clause `c` holds a literal whose index entry, or
/// that of its variable, is full before clause `c` is entered, is not
/// storable.
proof fn lemma_overfull(num_vars: nat, formula: Seq<Seq<Lit>>, c: int, lit: Lit)
    requires
        0 <= c < formula.len() <= usize::MAX,
        formula[c].contains(lit),
        lit.spec_var() < num_vars,
        num_vars <= MAX_VARS,
        lit_occurrences(formula.take(c), lit).len() >= MAX_CLAUSES_PER_LIT || var_occurrences(
            formula.take(c),
            lit.spec_var(),
        ).len() >= MAX_CLAUSES_PER_VAR,
    ensures
        !storable(num_vars, formula),
{
    let upto = formula.take(c + 1);
    assert(upto.drop_last() =~= formula.take(c));
    assert(upto.last() == formula[c]);
    let i = choose|i: int| 0 <= i < formula[c].len() && formula[c][i] == lit;
    assert(mentions(formula[c], lit.spec_var()));
    lemma_lit_occurrences(formula, lit, c + 1);
    lemma_var_occurrences(formula, lit.spec_var(), c + 1);
    if storable(num_vars, formula) {
        assert(var_occurrences(formula, lit.spec_var()).len() <= MAX_CLAUSES_PER_VAR);
        assert(lit.0 < 2 * num_vars);
        assert(lit_occurrences(formula, Lit(lit.0)).len() <= MAX_CLAUSES_PER_LIT);
    }
}

/// Collects clauses for a formula and brings each into normal form.
pub struct ProblemBuilder {
    num_vars: usize,
    clauses: Vec<Clause>,
}

impl ProblemBuilder {
    /// The number of variables of the formula to be.
    pub closed spec fn spec_num_vars(&self) -> nat {
        self.num_vars as nat
    }

    /// The clauses collected so far.
    pub closed spec fn spec_clauses(&self) -> Seq<Seq<Lit>> {
        clauses_view(self.clauses@)
    }

    /// A builder for a formula over `num_vars` variables that expects
    /// `num_clauses` clauses.
    pub fn new(num_vars: usize, num_clauses: usize) -> (builder: ProblemBuilder)
        ensures
            builder.spec_num_vars() == num_vars,
            builder.spec_clauses() == Seq::<Seq<Lit>>::empty(),
    {
        let builder = ProblemBuilder { num_vars, clauses: Vec::with_capacity(num_clauses) };
        assert(builder.spec_clauses() =~= Seq::<Seq<Lit>>::empty());
        builder
    }

    /// Sorts the literals of `clause` and removes repeated ones, then adds
    /// the clause to the formula unless it is a tautology.
    pub fn add_clause(&mut self, clause: &mut Clause)
        ensures
            final(self).spec_num_vars() == old(self).spec_num_vars(),
            strictly_ascending(final(clause)@),
            forall|lit: Lit| final(clause)@.contains(lit) <==> old(clause)@.contains(lit),
            final(self).spec_clauses() == if has_complement(final(clause)@) {
                old(self).spec_clauses()
            } else {
                old(self).spec_clauses().push(final(clause)@)
            },
    {
        clause.sort_unstable();
        clause.dedup();
        if clause.is_tautology() {
            return ;
        }
        self.clauses.push(clause.clone());
        assert(self.spec_clauses() =~= old(self).spec_clauses().push(clause@));
    }

    /// The formula of the clauses collected, which must be storable.
    pub fn build(self) -> (problem: Problem)
        requires
            storable(self.spec_num_vars(), self.spec_clauses()),
        ensures
            problem.wf(),
            problem.spec_num_vars() == self.spec_num_vars(),
            problem.spec_clauses() == self.spec_clauses(),
    {
        Problem::new(self.num_vars, self.clauses)
    }

    /// The formula of the clauses collected, or nothing if they are not
    /// storable: a literal names no variable of the formula, or one occurs
    /// in more clauses than an index entry holds.
    pub fn try_build(self) -> (built: Option<Problem>)
        ensures
            built is Some <==> storable(self.spec_num_vars(), self.spec_clauses()),
            built matches Some(problem) ==> {
                &&& problem.wf()
                &&& problem.spec_num_vars() == self.spec_num_vars()
                &&& problem.spec_clauses() == self.spec_clauses()
            },
    {
        Problem::try_new(self.num_vars, self.clauses)
    }
}

} // verus!
