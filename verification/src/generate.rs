//! The pigeonhole formulas: one pigeon more than there are holes, every
//! pigeon in a hole, no two pigeons in one hole. They have no model, and
//! finding that out by search takes long: a formula to try a solver on.

use vstd::prelude::*;

verus! {

/// The largest number of holes for which the variables can be written as
/// signed numbers of 32 bits.
pub const MAX_HOLES: usize = 46_340;

/// The signed number of the variable that says that `pigeon` sits in
/// `hole`. Pigeons and holes are counted from one.
pub open spec fn pigeon_var(pigeon: int, hole: int, num_holes: int) -> int {
    (pigeon - 1) * num_holes + hole
}

/// The clause that puts `pigeon` into some hole.
pub open spec fn pigeon_clause(pigeon: int, num_holes: int) -> Seq<i32> {
    Seq::new(num_holes as nat, |i: int| pigeon_var(pigeon, i + 1, num_holes) as i32)
}

/// The clause that keeps `first` and `second` from sharing `hole`.
pub open spec fn hole_clause(first: int, second: int, hole: int, num_holes: int) -> Seq<i32> {
    seq![
        (-pigeon_var(first, hole, num_holes)) as i32,
        (-pigeon_var(second, hole, num_holes)) as i32,
    ]
}

/// The clauses that keep `first`, in `hole`, apart from each pigeon after
/// it.
pub open spec fn apart_from(first: int, hole: int, num_holes: int) -> Seq<Seq<i32>> {
    Seq::new(
        (num_holes + 1 - first) as nat,
        |k: int| hole_clause(first, first + 1 + k, hole, num_holes),
    )
}

/// The clauses that keep each of the first `pigeons` pigeons, in `hole`,
/// apart from each pigeon after it.
pub open spec fn hole_clauses(pigeons: int, hole: int, num_holes: int) -> Seq<Seq<i32>>
    decreases pigeons,
{
    if pigeons <= 0 {
        Seq::empty()
    } else {
        hole_clauses(pigeons - 1, hole, num_holes) + apart_from(pigeons, hole, num_holes)
    }
}

/// The clauses that keep every two pigeons apart in each of the first
/// `holes` holes.
pub open spec fn holes_clauses(holes: int, num_holes: int) -> Seq<Seq<i32>>
    decreases holes,
{
    if holes <= 0 {
        Seq::empty()
    } else {
        holes_clauses(holes - 1, num_holes) + hole_clauses(num_holes + 1, holes, num_holes)
    }
}

/// The clauses that put each of the first `pigeons` pigeons into some hole.
pub open spec fn pigeons_clauses(pigeons: int, num_holes: int) -> Seq<Seq<i32>> {
    Seq::new(pigeons as nat, |p: int| pigeon_clause(p + 1, num_holes))
}

/// The pigeonhole formula for `num_holes` holes: first a clause for each
/// pigeon, then hole by hole a clause for every two pigeons.
pub open spec fn pigeonhole(num_holes: int) -> Seq<Seq<i32>> {
    pigeons_clauses(num_holes + 1, num_holes) + holes_clauses(num_holes, num_holes)
}

/// The clauses of a vector, each as the sequence of its numbers.
pub open spec fn rows(clauses: Seq<Vec<i32>>) -> Seq<Seq<i32>> {
    Seq::new(clauses.len(), |i: int| clauses[i]@)
}

/// The variables are numbered from one without a gap, and the last number
/// still fits 32 bits.
pub proof fn lemma_pigeon_var(pigeon: int, hole: int, num_holes: int)
    requires
        1 <= pigeon <= num_holes + 1,
        1 <= hole <= num_holes,
        num_holes <= MAX_HOLES,
    ensures
        1 <= pigeon_var(pigeon, hole, num_holes) <= (num_holes + 1) * num_holes,
        (num_holes + 1) * num_holes <= 2_147_441_940,
        pigeon < num_holes + 1 ==> pigeon_var(pigeon, hole, num_holes) < pigeon_var(
            pigeon + 1,
            1,
            num_holes,
        ),
{
    assert(0 <= (pigeon - 1) * num_holes <= num_holes * num_holes) by (nonlinear_arith)
        requires
            0 <= pigeon - 1 <= num_holes,
    ;
    assert(num_holes * num_holes <= 46_340 * 46_340) by (nonlinear_arith)
        requires
            0 <= num_holes <= 46_340,
    ;
    assert((num_holes + 1) * num_holes == num_holes * num_holes + num_holes)
        by (nonlinear_arith);
    assert(pigeon * num_holes == (pigeon - 1) * num_holes + num_holes) by (nonlinear_arith);
}

/// In one hole, each of the first `pigeons` pigeons is kept apart from all
/// that come after it: twice the number of these clauses.
pub proof fn lemma_hole_clauses_len(pigeons: int, hole: int, num_holes: int)
    requires
        0 <= pigeons <= num_holes + 1,
    ensures
        2 * hole_clauses(pigeons, hole, num_holes).len() == pigeons * (2 * num_holes + 1
            - pigeons),
    decreases pigeons,
{
    if pigeons > 0 {
        lemma_hole_clauses_len(pigeons - 1, hole, num_holes);
        let before = hole_clauses(pigeons - 1, hole, num_holes);
        assert(hole_clauses(pigeons, hole, num_holes).len() == before.len() + (num_holes + 1
            - pigeons));
        assert(2 * num_holes + 1 - (pigeons - 1) == 2 * num_holes + 2 - pigeons);
        assert(2 * before.len() == (pigeons - 1) * (2 * num_holes + 2 - pigeons));
        assert((pigeons - 1) * (2 * num_holes + 2 - pigeons) + 2 * (num_holes + 1 - pigeons)
            == pigeons * (2 * num_holes + 1 - pigeons)) by (nonlinear_arith);
    } else {
        assert(pigeons * (2 * num_holes + 1 - pigeons) == 0) by (nonlinear_arith)
            requires
                pigeons == 0,
        ;
    }
}

/// Each hole has a clause for every two pigeons.
pub proof fn lemma_holes_clauses_len(holes: int, num_holes: int)
    requires
        0 <= holes,
        0 <= num_holes,
    ensures
        2 * holes_clauses(holes, num_holes).len() == holes * ((num_holes + 1) * num_holes),
    decreases holes,
{
    if holes > 0 {
        lemma_holes_clauses_len(holes - 1, num_holes);
        lemma_hole_clauses_len(num_holes + 1, holes, num_holes);
        assert(holes_clauses(holes, num_holes).len() == holes_clauses(
            holes - 1,
            num_holes,
        ).len() + hole_clauses(num_holes + 1, holes, num_holes).len());
        assert(2 * num_holes + 1 - (num_holes + 1) == num_holes);
        assert(holes * ((num_holes + 1) * num_holes) == (holes - 1) * ((num_holes + 1)
            * num_holes) + (num_holes + 1) * num_holes) by (nonlinear_arith);
    } else {
        assert(holes * ((num_holes + 1) * num_holes) == 0) by (nonlinear_arith)
            requires
                holes == 0,
        ;
    }
}

/// The size of the pigeonhole formula: a clause for each pigeon, and in
/// each hole a clause for every two pigeons.
pub proof fn lemma_pigeonhole_len(num_holes: int)
    requires
        0 <= num_holes,
    ensures
        pigeonhole(num_holes).len() == num_holes + 1 + num_holes * ((num_holes + 1) * num_holes
            / 2),
{
    lemma_holes_clauses_len(num_holes, num_holes);
    let pairs = (num_holes + 1) * num_holes;
    if num_holes % 2 == 0 {
        let half = num_holes / 2;
        assert(pairs == 2 * ((num_holes + 1) * half)) by (nonlinear_arith)
            requires
                pairs == (num_holes + 1) * num_holes,
                num_holes == 2 * half,
        ;
    } else {
        let half = (num_holes + 1) / 2;
        assert(pairs == 2 * (half * num_holes)) by (nonlinear_arith)
            requires
                pairs == (num_holes + 1) * num_holes,
                num_holes + 1 == 2 * half,
        ;
    }
    assert(pairs % 2 == 0);
    assert(num_holes * pairs == 2 * (num_holes * (pairs / 2))) by (nonlinear_arith)
        requires
            pairs % 2 == 0,
    ;
}

/// The number of clauses of the pigeonhole formula for `num_holes` holes.
pub fn num_pigeon_clauses(num_holes: usize) -> (num_clauses: u64)
    requires
        num_holes <= MAX_HOLES,
    ensures
        num_clauses == pigeonhole(num_holes as int).len(),
        num_clauses == num_holes + 1 + num_holes * ((num_holes + 1) * num_holes / 2),
{
    proof {
        lemma_pigeonhole_len(num_holes as int);
        assert(0 <= (num_holes + 1) * num_holes <= 2_147_441_940) by (nonlinear_arith)
            requires
                0 <= num_holes <= 46_340,
        ;
        assert(num_holes * ((num_holes + 1) * num_holes / 2) <= 46_340 * 1_073_720_970)
            by (nonlinear_arith)
            requires
                0 <= num_holes <= 46_340,
                0 <= (num_holes + 1) * num_holes / 2 <= 1_073_720_970,
        ;
    }
    let holes = num_holes as u64;
    let pairs: u64 = (holes + 1) * holes / 2;
    holes + 1 + holes * pairs
}

/// The number of variables of the pigeonhole formula for `num_holes`
/// holes.
pub fn num_pigeon_vars(num_holes: usize) -> (num_vars: usize)
    requires
        num_holes <= MAX_HOLES,
    ensures
        num_vars == (num_holes + 1) * num_holes,
{
    proof {
        if num_holes >= 1 {
            lemma_pigeon_var(1, 1, num_holes as int);
        }
    }
    (num_holes + 1) * num_holes
}

/// The number of the variable that says that `pigeon` sits in `hole`.
fn var_of(pigeon: usize, hole: usize, num_holes: usize) -> (var: i32)
    requires
        1 <= pigeon <= num_holes + 1,
        1 <= hole <= num_holes,
        num_holes <= MAX_HOLES,
    ensures
        var == pigeon_var(pigeon as int, hole as int, num_holes as int),
        1 <= var <= 2_147_441_940,
{
    proof {
        lemma_pigeon_var(pigeon as int, hole as int, num_holes as int);
    }
    ((pigeon - 1) * num_holes + hole) as i32
}

/// The clause that puts `pigeon` into some hole.
fn pigeon_row(pigeon: usize, num_holes: usize) -> (clause: Vec<i32>)
    requires
        1 <= pigeon <= num_holes + 1,
        num_holes <= MAX_HOLES,
    ensures
        clause@ == pigeon_clause(pigeon as int, num_holes as int),
{
    let mut clause: Vec<i32> = Vec::new();
    let mut hole: usize = 1;
    while hole <= num_holes
        invariant
            1 <= pigeon <= num_holes + 1,
            num_holes <= MAX_HOLES,
            1 <= hole <= num_holes + 1,
            clause@.len() == hole - 1,
            forall|i: int|
                0 <= i < hole - 1 ==> clause@[i] == pigeon_var(
                    pigeon as int,
                    i + 1,
                    num_holes as int,
                ) as i32,
        decreases num_holes + 1 - hole,
    {
        clause.push(var_of(pigeon, hole, num_holes));
        hole = hole + 1;
    }
    proof {
        assert(clause@ =~= pigeon_clause(pigeon as int, num_holes as int));
    }
    clause
}

/// Appends the clauses that keep `first`, in `hole`, apart from each
/// pigeon after it.
fn push_apart(clauses: &mut Vec<Vec<i32>>, first: usize, hole: usize, num_holes: usize)
    requires
        1 <= first <= num_holes + 1,
        1 <= hole <= num_holes,
        num_holes <= MAX_HOLES,
    ensures
        rows(final(clauses)@) == rows(old(clauses)@) + apart_from(
            first as int,
            hole as int,
            num_holes as int,
        ),
{
    let ghost before = rows(clauses@);
    let num_pigeons: usize = num_holes + 1;
    let var1 = var_of(first, hole, num_holes);
    let mut second: usize = first + 1;
    proof {
        assert(rows(clauses@) =~= before + Seq::<Seq<i32>>::empty());
    }
    while second <= num_pigeons
        invariant
            1 <= first <= num_holes + 1,
            1 <= hole <= num_holes,
            num_holes <= MAX_HOLES,
            num_pigeons == num_holes + 1,
            first + 1 <= second <= num_pigeons + 1,
            var1 == pigeon_var(first as int, hole as int, num_holes as int),
            1 <= var1 <= 2_147_441_940,
            rows(clauses@) == before + Seq::new(
                (second - first - 1) as nat,
                |k: int| hole_clause(first as int, first + 1 + k, hole as int, num_holes as int),
            ),
        decreases num_pigeons + 1 - second,
    {
        let var2 = var_of(second, hole, num_holes);
        let mut clause: Vec<i32> = Vec::new();
        clause.push(-var1);
        clause.push(-var2);
        let ghost earlier = clauses@;
        clauses.push(clause);
        proof {
            assert(clause@ =~= hole_clause(
                first as int,
                second as int,
                hole as int,
                num_holes as int,
            ));
            assert(rows(clauses@) =~= rows(earlier).push(clause@));
            assert(rows(earlier).push(clause@) =~= before + Seq::new(
                (second + 1 - first - 1) as nat,
                |k: int| hole_clause(first as int, first + 1 + k, hole as int, num_holes as int),
            ));
        }
        second = second + 1;
    }
    proof {
        assert(Seq::new(
            (second - first - 1) as nat,
            |k: int| hole_clause(first as int, first + 1 + k, hole as int, num_holes as int),
        ) =~= apart_from(first as int, hole as int, num_holes as int));
    }
}

/// Appends the clauses that keep every two pigeons apart in `hole`.
fn push_hole(clauses: &mut Vec<Vec<i32>>, hole: usize, num_holes: usize)
    requires
        1 <= hole <= num_holes,
        num_holes <= MAX_HOLES,
    ensures
        rows(final(clauses)@) == rows(old(clauses)@) + hole_clauses(
            num_holes + 1,
            hole as int,
            num_holes as int,
        ),
{
    let ghost before = rows(clauses@);
    let num_pigeons: usize = num_holes + 1;
    let mut first: usize = 1;
    proof {
        assert(rows(clauses@) =~= before + hole_clauses(0, hole as int, num_holes as int));
    }
    while first <= num_pigeons
        invariant
            1 <= hole <= num_holes,
            num_holes <= MAX_HOLES,
            num_pigeons == num_holes + 1,
            1 <= first <= num_pigeons + 1,
            rows(clauses@) == before + hole_clauses(first - 1, hole as int, num_holes as int),
        decreases num_pigeons + 1 - first,
    {
        push_apart(clauses, first, hole, num_holes);
        proof {
            let done = hole_clauses(first - 1, hole as int, num_holes as int);
            let more = apart_from(first as int, hole as int, num_holes as int);
            assert((before + done) + more =~= before + (done + more));
        }
        first = first + 1;
    }
}

/// The pigeonhole formula for `num_holes` holes, each clause as the signed
/// numbers of its literals: first a clause for each of the `num_holes + 1`
/// pigeons, then hole by hole a clause for every two pigeons.
pub fn generate(num_holes: usize) -> (clauses: Vec<Vec<i32>>)
    requires
        num_holes <= MAX_HOLES,
    ensures
        rows(clauses@) == pigeonhole(num_holes as int),
{
    let num_pigeons: usize = num_holes + 1;
    let mut clauses: Vec<Vec<i32>> = Vec::new();
    let mut pigeon: usize = 1;
    proof {
        assert(rows(clauses@) =~= pigeons_clauses(0, num_holes as int));
    }
    while pigeon <= num_pigeons
        invariant
            num_holes <= MAX_HOLES,
            num_pigeons == num_holes + 1,
            1 <= pigeon <= num_pigeons + 1,
            rows(clauses@) == pigeons_clauses(pigeon - 1, num_holes as int),
        decreases num_pigeons + 1 - pigeon,
    {
        let clause = pigeon_row(pigeon, num_holes);
        let ghost earlier = clauses@;
        clauses.push(clause);
        proof {
            assert(rows(clauses@) =~= rows(earlier).push(clause@));
            assert(rows(earlier).push(clause@) =~= pigeons_clauses(
                pigeon as int,
                num_holes as int,
            ));
        }
        pigeon = pigeon + 1;
    }
    let ghost sitting = rows(clauses@);
    let mut hole: usize = 1;
    proof {
        assert(rows(clauses@) =~= sitting + holes_clauses(0, num_holes as int));
    }
    while hole <= num_holes
        invariant
            num_holes <= MAX_HOLES,
            1 <= hole <= num_holes + 1,
            sitting == pigeons_clauses(num_holes + 1, num_holes as int),
            rows(clauses@) == sitting + holes_clauses(hole - 1, num_holes as int),
        decreases num_holes + 1 - hole,
    {
        push_hole(&mut clauses, hole, num_holes);
        proof {
            let done = holes_clauses(hole - 1, num_holes as int);
            let more = hole_clauses(num_holes + 1, hole as int, num_holes as int);
            assert((sitting + done) + more =~= sitting + (done + more));
        }
        hole = hole + 1;
    }
    clauses
}

} // verus!
