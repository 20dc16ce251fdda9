use dpll::clause::Clause;
use dpll::generate::{generate, num_pigeon_clauses, num_pigeon_vars, MAX_HOLES};
use dpll::lit::Lit;
use dpll::pool::solve_single_threaded;
use dpll::problem::ProblemBuilder;

#[test]
fn three_holes_give_twelve_variables_and_twenty_two_clauses() {
    let clauses = generate(3);
    assert_eq!(num_pigeon_vars(3), 12);
    assert_eq!(num_pigeon_clauses(3), 22);
    assert_eq!(clauses.len(), 22);
    assert_eq!(clauses[0], vec![1, 2, 3]);
    assert_eq!(clauses[1], vec![4, 5, 6]);
    assert_eq!(clauses[3], vec![10, 11, 12]);
    assert_eq!(clauses[4], vec![-1, -4]);
    assert_eq!(clauses[5], vec![-1, -7]);
    assert_eq!(clauses[6], vec![-1, -10]);
    assert_eq!(clauses[7], vec![-4, -7]);
    assert_eq!(clauses[9], vec![-7, -10]);
    assert_eq!(clauses[10], vec![-2, -5]);
    assert_eq!(clauses[21], vec![-9, -12]);
}

#[test]
fn the_smallest_pigeonhole_formulas() {
    assert_eq!(generate(0), vec![Vec::<i32>::new()]);
    assert_eq!(num_pigeon_vars(0), 0);
    assert_eq!(num_pigeon_clauses(0), 1);
    assert_eq!(generate(1), vec![vec![1], vec![2], vec![-1, -2]]);
    assert_eq!(num_pigeon_vars(1), 2);
    assert_eq!(num_pigeon_clauses(1), 3);
    assert_eq!(generate(2).len() as u64, num_pigeon_clauses(2));
    assert_eq!(num_pigeon_clauses(2), 9);
}

#[test]
fn the_counts_of_the_largest_formula_fit() {
    assert_eq!(num_pigeon_vars(MAX_HOLES), 2_147_441_940);
    assert_eq!(
        num_pigeon_clauses(MAX_HOLES),
        46_341 + 46_340 * 1_073_720_970
    );
}

#[test]
fn pigeonhole_formulas_have_no_model() {
    for num_holes in 1..=4 {
        let clauses = generate(num_holes);
        let mut builder = ProblemBuilder::new(num_pigeon_vars(num_holes), clauses.len());
        for numbers in &clauses {
            let lits: Vec<Lit> = numbers.iter().map(|&x| Lit::from(x)).collect();
            let mut clause = Clause::from_lits(&lits);
            builder.add_clause(&mut clause);
        }
        let problem = builder.try_build().unwrap();
        assert_eq!(problem.num_clauses(), clauses.len());
        assert_eq!(solve_single_threaded(&problem), None);
    }
}
