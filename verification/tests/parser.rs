use dpll::cli::{format_answer, format_solution_string, should_use_progress_bar};
use dpll::lit::Lit;
use dpll::parser::{parse_dimacs, parse_dimacs_cnf, ByteArrayIterator, ParseError};
use dpll::pool::solve_single_threaded;
use dpll::problem::Problem;

fn lits_of(problem: &Problem, id: usize) -> Vec<Lit> {
    let clause = problem.clause(id);
    (0..clause.len()).map(|i| clause.get(i)).collect()
}

fn answer(text: &str) -> String {
    let problem = parse_dimacs_cnf(text.as_bytes()).unwrap();
    format_answer(&solve_single_threaded(&problem))
}

#[test]
fn scenario_tiny_unsat() {
    assert_eq!(answer("p cnf 1 2\n1 0\n-1 0\n"), "s UNSATISFIABLE\n");
}

#[test]
fn scenario_tiny_sat() {
    let text = "c three clauses\np cnf 3 3\n1 2 0\n-1 2 0\n-2 3 0\n";
    let problem = parse_dimacs_cnf(text.as_bytes()).unwrap();
    let solution = solve_single_threaded(&problem).unwrap();
    assert_eq!(problem.verify_solution(&solution), Ok(()));
    let shown = format_answer(&Some(solution));
    assert!(shown.starts_with("s SATISFIABLE\nv "));
    assert!(shown.ends_with("\n"));
}

#[test]
fn scenario_pigeonhole() {
    let holes = 3;
    let pigeons = holes + 1;
    let mut text = format!("c pigeonhole\np cnf {} {}\n", pigeons * holes, 22);
    for p in 1..=pigeons {
        for h in 1..=holes {
            text.push_str(&format!("{} ", (p - 1) * holes + h));
        }
        text.push_str("0\n");
    }
    for h in 1..=holes {
        for first in 1..=pigeons {
            for second in (first + 1)..=pigeons {
                text.push_str(&format!(
                    "-{} -{} 0\n",
                    (first - 1) * holes + h,
                    (second - 1) * holes + h
                ));
            }
        }
    }
    text.push_str("%\n0\n");
    let problem = parse_dimacs_cnf(text.as_bytes()).unwrap();
    assert_eq!(problem.num_vars(), 12);
    assert_eq!(problem.num_clauses(), 22);
    assert_eq!(format_answer(&solve_single_threaded(&problem)), "s UNSATISFIABLE\n");
}

#[test]
fn scenario_unit_cascade() {
    assert_eq!(
        answer("p cnf 4 4\n1 0\n-1 2 0\n-2 3 0\n-3 4 0\n"),
        "s SATISFIABLE\nv +1 +2 +3 +4\n"
    );
}

#[test]
fn scenario_tautology_drop() {
    let problem = parse_dimacs_cnf(b"p cnf 2 3\n1 -1 2 0\n-2 0\n1 2 0\n").unwrap();
    assert_eq!(problem.num_clauses(), 2);
    assert_eq!(
        format_answer(&solve_single_threaded(&problem)),
        "s SATISFIABLE\nv +1 -2\n"
    );
}

#[test]
fn answers_are_written_with_signed_numbers() {
    assert_eq!(format_answer(&None), "s UNSATISFIABLE\n");
    assert_eq!(format_answer(&Some(vec![])), "s SATISFIABLE\nv\n");
    assert_eq!(
        format_answer(&Some(vec![true, false, false, true])),
        "s SATISFIABLE\nv +1 -2 -3 +4\n"
    );
    let long: Vec<bool> = (0..120).map(|v| v % 2 == 0).collect();
    let shown = format_answer(&Some(long));
    assert!(shown.contains(" +9 -10 +11 "));
    assert!(shown.contains(" +99 -100 +101 "));
    assert!(shown.ends_with(" +119 -120\n"));
    assert_eq!(format_solution_string(&[true, false, true, true]), "+-++");
    assert_eq!(format_solution_string(&[]), "");
}

#[test]
fn progress_bar_from_half_a_second_on() {
    assert!(!should_use_progress_bar(0, u64::MAX));
    assert!(!should_use_progress_bar(4, 100_000_000));
    assert!(should_use_progress_bar(5, 100_000_000));
    assert!(should_use_progress_bar(1, 500_000_000));
    assert!(!should_use_progress_bar(1, 499_999_999));
    assert!(should_use_progress_bar(usize::MAX, u64::MAX));
}

#[test]
fn clauses_are_read_in_normal_form() {
    let text = "c a comment with a p in it\n  c another\n\np  cnf   3\t2\n 3 -1\n 3 0   2\n-3 2 0 trailing";
    let problem = parse_dimacs_cnf(text.as_bytes()).unwrap();
    assert_eq!(problem.num_vars(), 3);
    assert_eq!(problem.num_clauses(), 2);
    assert_eq!(lits_of(&problem, 0), vec![Lit::from(-1), Lit::from(3)]);
    assert_eq!(lits_of(&problem, 1), vec![Lit::from(2), Lit::from(-3)]);
}

#[test]
fn what_follows_the_last_clause_is_not_read() {
    let problem = parse_dimacs_cnf(b"p cnf 2 1\n1 2 0\n%\n0\nnonsense").unwrap();
    assert_eq!(problem.num_clauses(), 1);
    let empty = parse_dimacs_cnf(b"p cnf 5 0").unwrap();
    assert_eq!(empty.num_vars(), 5);
    assert_eq!(empty.num_clauses(), 0);
}

#[test]
fn each_error_has_its_text() {
    let message = |text: &str| parse_dimacs_cnf(text.as_bytes()).err().unwrap();
    assert_eq!(message(""), "Unexpected EOF while searching for problem line");
    assert_eq!(
        message("c only a comment"),
        "Unexpected EOF while searching for problem line"
    );
    assert_eq!(
        message("x cnf 1 1"),
        "Unexpected EOF while searching for problem line"
    );
    assert_eq!(message("p dnf 1 1"), "Expected problem format 'cnf'");
    assert_eq!(message("p cn"), "Expected problem format 'cnf'");
    assert_eq!(message("p cnf x 1"), "Expected number of variables");
    assert_eq!(message("p cnf 3"), "Expected number of clauses");
    assert_eq!(message("p cnf 3 1\n1 x 0"), "Expected literal in clause");
    assert_eq!(message("p cnf 3 1\n1 2"), "Expected literal in clause");
    assert_eq!(message("p cnf 3 2\n1 2 0\n"), "Expected literal in clause");
    assert_eq!(message("p cnf 3 1\n1 - 2 0"), "Expected literal in clause");
    assert_eq!(
        message("p cnf 3 1\n1 -4 0"),
        "Unexpected variable 4. The problem only declares 3 variables."
    );
    assert_eq!(
        message("p cnf 99999999999999999999999999 1\n1 0"),
        "Expected number of variables"
    );
    assert_eq!(message("p cnf 3 2\n1 0\n0\n"), "Clause holds no literal");
    assert_eq!(message("p cnf 3 1\n -0"), "Clause holds no literal");
    assert_eq!(
        message("p cnf 20 1\n1 2 3 4 5 6 7 8 9 10 11 12 13 14 15 16 17 0"),
        "Clause holds more literals than a clause can hold"
    );
    let mut crowded = String::from("p cnf 70 65\n");
    for k in 2..=66 {
        crowded.push_str(&format!("1 {} 0\n", k));
    }
    assert_eq!(message(&crowded), "Formula is too large");
}

#[test]
fn errors_by_kind() {
    let kind = |text: &str| parse_dimacs(text.as_bytes()).err().unwrap();
    assert_eq!(kind("c\n"), ParseError::MissingProblemLine);
    assert_eq!(kind("pcnf"), ParseError::ExpectedNumVars);
    assert_eq!(kind("p cnf 2 1 3 0"), ParseError::UnknownVariable(3, 2));
    assert_eq!(kind("p cnf 2 1 1 -"), ParseError::ExpectedLiteral);
    assert_eq!(kind("p cnf 2 1 0"), ParseError::EmptyClause);
    // A zero ends the clause, with or without a sign.
    assert!(parse_dimacs(b"p cnf 2 1 1 -0").is_ok());
}

#[test]
fn the_cursor_reads_words_and_numbers() {
    let mut cursor = ByteArrayIterator::new(b"  cnf 42x-7");
    cursor.skip_ascii_whitespace();
    assert!(!cursor.skip_expected(b"cnx"));
    assert!(cursor.skip_expected(b"cnf"));
    assert_eq!(cursor.parse_usize(), None);
    cursor.skip_ascii_whitespace();
    assert_eq!(cursor.parse_usize(), Some(42));
    assert!(!cursor.advance_if(b'-'));
    assert!(cursor.advance_if(b'x'));
    assert!(cursor.advance_if(b'-'));
    assert_eq!(cursor.parse_usize(), Some(7));
    assert_eq!(cursor.parse_usize(), None);
    assert!(!cursor.advance_if(b'7'));
    assert!(!cursor.skip_expected(b"7"));
    assert!(cursor.skip_expected(b""));

    let mut lines = ByteArrayIterator::new(b"c one\n c two\n\n p cnf");
    assert!(lines.skip_until_problem_line());
    lines.skip_ascii_whitespace();
    assert!(lines.skip_expected(b"cnf"));
    let mut none = ByteArrayIterator::new(b"c one\nq");
    assert!(!none.skip_until_problem_line());
}
