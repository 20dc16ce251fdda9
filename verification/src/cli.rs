//! What the command line shows and asks: the answer for a formula, a
//! solution as a row of signs, whether a run is worth a progress bar, and
//! the statistics of a run.

use crate::utils::{append_decimal, decimal};
use vstd::prelude::*;
use vstd::string::StringExecFns;

verus! {

/// The runtime in nanoseconds from which on a progress bar is shown.
pub const PROGRESS_BAR_THRESHOLD: u128 = 500_000_000;

/// A solution as a row of signs: `+` for a true variable, `-` for a false
/// one.
pub open spec fn solution_signs(solution: Seq<bool>) -> Seq<char> {
    Seq::new(
        solution.len(),
        |v: int|
            if solution[v] {
                '+'
            } else {
                '-'
            },
    )
}

/// The values of the first `upto` variables as signed numbers, each behind
/// a blank: ` +1` for a true first variable, ` -1` for a false one.
pub open spec fn value_words(solution: Seq<bool>, upto: int) -> Seq<char>
    decreases upto,
{
    if upto <= 0 {
        Seq::empty()
    } else {
        value_words(solution, upto - 1) + (if solution[upto - 1] {
            seq![' ', '+']
        } else {
            seq![' ', '-']
        }) + decimal(upto as nat)
    }
}

/// The answer for a formula: the line `s UNSATISFIABLE`, or the line
/// `s SATISFIABLE` and a line `v` with the value of each variable in the
/// order of the variables, `+i` for a true variable `i` and `-i` for a
/// false one, counted from one.
pub open spec fn answer_text(solution: Option<Seq<bool>>) -> Seq<char> {
    match solution {
        None => "s UNSATISFIABLE\n"@,
        Some(values) => "s SATISFIABLE\nv"@ + value_words(values, values.len() as int) + "\n"@,
    }
}

/// A solution as a row of signs: `+` for a true variable, `-` for a false
/// one.
pub fn format_solution_string(solution: &[bool]) -> (text: String)
    ensures
        text@ == solution_signs(solution@),
{
    let mut text = String::new();
    let mut v: usize = 0;
    proof {
        reveal_strlit("+");
        reveal_strlit("-");
    }
    while v < solution.len()
        invariant
            v <= solution@.len(),
            text@ == solution_signs(solution@.take(v as int)),
        decreases solution@.len() - v,
    {
        let ghost before = text@;
        if solution[v] {
            text.append("+");
        } else {
            text.append("-");
        }
        proof {
            reveal_strlit("+");
            reveal_strlit("-");
            assert(text@ =~= solution_signs(solution@.take(v + 1)));
        }
        v = v + 1;
    }
    assert(solution@.take(v as int) =~= solution@);
    text
}

/// The answer for a formula: its verdict, and for a satisfiable formula
/// the value of each variable. The solution must be shorter than the
/// largest number that counts variables.
pub fn format_answer(solution: &Option<Vec<bool>>) -> (text: String)
    requires
        solution matches Some(values) ==> values@.len() < usize::MAX,
    ensures
        text@ == answer_text(
            match solution {
                Some(values) => Some(values@),
                None => None,
            },
        ),
{
    match solution {
        None => String::from_str("s UNSATISFIABLE\n"),
        Some(values) => {
            let mut text = String::from_str("s SATISFIABLE\nv");
            let mut v: usize = 0;
            while v < values.len()
                invariant
                    v <= values@.len() < usize::MAX,
                    text@ == "s SATISFIABLE\nv"@ + value_words(values@, v as int),
                decreases values@.len() - v,
            {
                let ghost before = text@;
                proof {
                    reveal_strlit(" +");
                    reveal_strlit(" -");
                }
                if values[v] {
                    text.append(" +");
                } else {
                    text.append(" -");
                }
                append_decimal(&mut text, v + 1);
                proof {
                    assert(text@ =~= "s SATISFIABLE\nv"@ + value_words(values@, v + 1));
                }
                v = v + 1;
            }
            text.append("\n");
            text
        },
    }
}

/// What a run has done so far: how many files it has seen and what came of
/// them, and the times that it took, in nanoseconds.
#[derive(Debug)]
pub struct Stats {
    /// The files taken up.
    pub processed: usize,
    /// The files that could not be read or parsed.
    pub errors: usize,
    /// The formulas found satisfiable.
    pub sat_count: usize,
    /// The formulas found unsatisfiable.
    pub unsat_count: usize,
    /// The time that each file took in all.
    pub durations: Vec<u64>,
    /// The time that parsing each file took.
    pub parse_durations: Vec<u64>,
    /// The time that solving each formula took.
    pub solve_durations: Vec<u64>,
    /// The solutions that passed the check.
    pub verified_count: usize,
    /// The solutions that failed the check.
    pub failed_verifications: usize,
}

impl Stats {
    /// The statistics of a run that has done nothing yet.
    pub fn new() -> (stats: Stats)
        ensures
            stats.processed == 0,
            stats.errors == 0,
            stats.sat_count == 0,
            stats.unsat_count == 0,
            stats.durations@ == Seq::<u64>::empty(),
            stats.parse_durations@ == Seq::<u64>::empty(),
            stats.solve_durations@ == Seq::<u64>::empty(),
            stats.verified_count == 0,
            stats.failed_verifications == 0,
    {
        Stats {
            processed: 0,
            errors: 0,
            sat_count: 0,
            unsat_count: 0,
            durations: Vec::new(),
            parse_durations: Vec::new(),
            solve_durations: Vec::new(),
            verified_count: 0,
            failed_verifications: 0,
        }
    }
}

/// The sum of the numbers.
pub open spec fn sum_of(values: Seq<u64>) -> nat
    decreases values.len(),
{
    if values.len() == 0 {
        0
    } else {
        sum_of(values.drop_last()) + values.last() as nat
    }
}

/// Ascending order, equal neighbours allowed.
pub open spec fn ascending(values: Seq<u64>) -> bool {
    forall|i: int, j: int| 0 <= i <= j < values.len() ==> values[i] <= values[j]
}

/// The number in the middle of an ascending sequence that is not empty;
/// for an even length, the mean of the two in the middle, rounded down.
pub open spec fn median_of(sorted: Seq<u64>) -> int {
    let middle = sorted.len() as int / 2;
    if sorted.len() % 2 == 1 {
        sorted[middle] as int
    } else {
        (sorted[middle - 1] + sorted[middle]) / 2
    }
}

/// What a list of durations comes to.
#[derive(Debug, Clone, Copy, PartialEq, Eq, Structural)]
pub struct DurationStats {
    /// The sum of the durations.
    pub total: u128,
    /// The shortest.
    pub min: u64,
    /// The one in the middle.
    pub median: u64,
    /// The mean, rounded down.
    pub avg: u64,
    /// The longest.
    pub max: u64,
}

/// A sum is at most as many times the largest number as it has terms.
pub proof fn lemma_sum_bound(values: Seq<u64>)
    ensures
        sum_of(values) <= values.len() * 0xFFFF_FFFF_FFFF_FFFF,
    decreases values.len(),
{
    if values.len() > 0 {
        lemma_sum_bound(values.drop_last());
        assert(values.len() * 0xFFFF_FFFF_FFFF_FFFF == (values.len() - 1) * 0xFFFF_FFFF_FFFF_FFFF
            + 0xFFFF_FFFF_FFFF_FFFF) by (nonlinear_arith);
    }
}

/// `sort` of a vector of numbers, from the standard library: the same
/// numbers, each as often as before, in ascending order.
#[verifier::external_body]
fn sort_durations(values: &mut Vec<u64>)
    ensures
        ascending(final(values)@),
        final(values)@.to_multiset() == old(values)@.to_multiset(),
        final(values)@.len() == old(values)@.len(),
{
    values.sort()
}

/// Sum, least, median, mean and largest of the durations, or nothing for
/// an empty list. Least, median and largest are read off the durations in
/// ascending order.
pub fn duration_stats(durations: &[u64]) -> (stats: Option<DurationStats>)
    ensures
        stats is Some <==> durations@.len() > 0,
        stats matches Some(found) ==> {
            &&& found.total == sum_of(durations@)
            &&& found.avg == sum_of(durations@) / durations@.len()
            &&& exists|sorted: Seq<u64>|
                #![trigger ascending(sorted)]
                {
                    &&& ascending(sorted)
                    &&& sorted.to_multiset() == durations@.to_multiset()
                    &&& sorted.len() == durations@.len()
                    &&& found.min == sorted[0]
                    &&& found.median == median_of(sorted)
                    &&& found.max == sorted.last()
                }
        },
{
    let count = durations.len();
    if count == 0 {
        return None;
    }
    let mut sorted: Vec<u64> = Vec::new();
    let mut total: u128 = 0;
    let mut i: usize = 0;
    assert(durations@.take(0) =~= Seq::<u64>::empty());
    while i < count
        invariant
            count == durations@.len(),
            i <= count,
            sorted@ == durations@.take(i as int),
            total == sum_of(durations@.take(i as int)),
        decreases count - i,
    {
        proof {
            lemma_sum_bound(durations@.take(i as int));
            assert(i * 0xFFFF_FFFF_FFFF_FFFF <= 0xFFFF_FFFF_FFFF_FFFF * 0xFFFF_FFFF_FFFF_FFFF)
                by (nonlinear_arith)
                requires
                    i <= 0xFFFF_FFFF_FFFF_FFFF,
            ;
            assert(durations@.take(i + 1).drop_last() =~= durations@.take(i as int));
            assert(durations@.take(i + 1) =~= durations@.take(i as int).push(durations@[i as int]));
        }
        total = total + durations[i] as u128;
        sorted.push(durations[i]);
        i = i + 1;
    }
    assert(durations@.take(count as int) =~= durations@);
    sort_durations(&mut sorted);
    let min = sorted[0];
    let max = sorted[count - 1];
    let middle = count / 2;
    let median = if count % 2 == 1 {
        sorted[middle]
    } else {
        ((sorted[middle - 1] as u128 + sorted[middle] as u128) / 2) as u64
    };
    proof {
        lemma_sum_bound(durations@);
        assert(sum_of(durations@) / (count as nat) <= 0xFFFF_FFFF_FFFF_FFFF) by (nonlinear_arith)
            requires
                sum_of(durations@) <= count * 0xFFFF_FFFF_FFFF_FFFF,
                count > 0,
        ;
    }
    let avg = (total / count as u128) as u64;
    let found = DurationStats { total, min, median, avg, max };
    proof {
        assert(ascending(sorted@));
        assert(found.median == median_of(sorted@));
    }
    Some(found)
}

/// Whether the files that remain are worth a progress bar: whether they
/// take half a second or more if each takes as long as the sample.
pub fn should_use_progress_bar(num_remaining: usize, sample_nanos: u64) -> (show: bool)
    ensures
        show == (sample_nanos * num_remaining >= PROGRESS_BAR_THRESHOLD),
{
    let files = num_remaining as u128;
    let sample = sample_nanos as u128;
    assert(sample * files <= 0xFFFF_FFFF_FFFF_FFFF * 0xFFFF_FFFF_FFFF_FFFF) by (nonlinear_arith)
        requires
            sample <= 0xFFFF_FFFF_FFFF_FFFF,
            files <= 0xFFFF_FFFF_FFFF_FFFF,
    ;
    sample * files >= PROGRESS_BAR_THRESHOLD
}

} // verus!
