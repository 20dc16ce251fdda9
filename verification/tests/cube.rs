use dpll::clause::Clause;
use dpll::cube_and_conquer::{CubeGenerationResult, CubeGenerator};
use dpll::decision_path::DecisionPath;
use dpll::dpll::DPLLSolver;
use dpll::lit::Lit;
use dpll::problem::{Problem, ProblemBuilder};
use fastrand::Rng;
use std::collections::HashSet;

fn build(num_vars: usize, clauses: &[Vec<i32>]) -> Problem {
    let mut builder = ProblemBuilder::new(num_vars, clauses.len());
    for ints in clauses {
        let lits: Vec<Lit> = ints.iter().map(|&x| Lit::from(x)).collect();
        let mut clause = Clause::from_lits(&lits);
        builder.add_clause(&mut clause);
    }
    builder.try_build().unwrap()
}

fn exhaust_generator(
    generator: impl Iterator<Item = CubeGenerationResult>,
) -> (Option<Vec<bool>>, bool, Vec<DecisionPath>) {
    let mut cubes = Vec::new();
    let mut sat = None;
    let mut unsat = false;

    for r in generator {
        match r {
            CubeGenerationResult::SAT(sol) => {
                sat = Some(sol);
                break;
            }
            CubeGenerationResult::UNSAT => {
                unsat = true;
                break;
            }
            CubeGenerationResult::Cube(c) => cubes.push(c),
        }
    }

    (sat, unsat, cubes)
}

fn generate_random_3sat(num_vars: usize, num_clauses: usize, rng: &mut Rng) -> Problem {
    let mut builder = ProblemBuilder::new(num_vars, num_clauses);

    for _ in 0..num_clauses {
        let mut lits = Vec::with_capacity(3);
        let mut used_vars = HashSet::new();

        // Generate 3 distinct variables for the clause
        while lits.len() < 3 {
            let var = rng.usize(0..num_vars);
            if used_vars.contains(&var) {
                continue;
            }
            used_vars.insert(var);
            let is_pos = rng.bool();
            lits.push(Lit::new(var, is_pos));
        }

        let mut clause = Clause::from_lits(&lits);
        builder.add_clause(&mut clause);
    }

    builder.try_build().unwrap()
}

#[test]
fn test_equivalence_on_random_3sat() {
    let mut rng = Rng::new();
    println!("Seed: {}", rng.get_seed());

    let num_vars = 60;
    let num_clauses = (num_vars as f64 * 4.26) as usize;
    let cutoff_depth = 10;
    println!(
        "#Vars: {}, #Clauses: {}, Cutoff depth: {}",
        num_vars, num_clauses, cutoff_depth
    );

    let mut num_sat = 0;
    let mut num_unsat = 0;
    while num_sat < 10 || num_unsat < 10 {
        println!(
            "--- Iteration {} (Vars: {}, Clauses: {}) ---",
            num_sat + num_unsat + 1,
            num_vars,
            num_clauses
        );

        let problem = generate_random_3sat(num_vars, num_clauses, &mut rng);

        // Create ground truth solution
        let expected_solution =
            DPLLSolver::with_decisions(&problem, &DecisionPath(vec![])).solve();

        let is_sat = expected_solution.is_some();
        if is_sat {
            assert!(
                problem
                    .verify_solution(expected_solution.as_ref().unwrap())
                    .is_ok(),
                "Reference solver returned invalid SAT solution"
            );
            num_sat += 1;
        } else {
            num_unsat += 1;
        }

        println!("Ground truth: {}", if is_sat { "SAT" } else { "UNSAT" });

        // Generate cubes
        let generator = CubeGenerator::new(&problem, cutoff_depth);
        let (sat_solution, unsat, cubes) = exhaust_generator(generator.generate().into_iter());

        // Verify cubes against ground truth
        if let Some(sol) = sat_solution {
            assert!(is_sat, "Expected UNSAT, but generator returned SAT");
            assert_eq!(
                expected_solution.as_ref().unwrap().len(),
                sol.len(),
                "SAT solution lengths do not match"
            );
            assert!(
                problem.verify_solution(&sol).is_ok(),
                "Generator returned invalid SAT solution"
            );
        } else if unsat {
            assert!(!is_sat, "Expected SAT, but generator returned UNSAT");
        } else {
            println!("Generator produced {} cubes.", cubes.len());
            assert!(
                !cubes.is_empty(),
                "Should have generated cubes or returned SAT/UNSAT directly"
            );

            let mut found_sat_via_cubes = false;
            for cube in cubes.iter() {
                let mut sub_solver = DPLLSolver::with_decisions(&problem, cube);
                if let Some(_) = sub_solver.solve() {
                    found_sat_via_cubes = true;
                    break;
                }
            }

            assert_eq!(
                found_sat_via_cubes, is_sat,
                "Reference SAT: {}, Cubes found SAT: {}",
                is_sat, found_sat_via_cubes
            );
        }
    }
}

#[test]
fn a_free_formula_is_tiled_by_all_cubes_of_the_depth() {
    // Five variables under no constraint but one wide clause: the cubes of
    // depth two are the four sign patterns of the two variables decided.
    let problem = build(5, &[vec![1, 2, 3, 4, 5]]);
    let results = CubeGenerator::new(&problem, 2).generate();
    let mut cubes: Vec<Vec<Lit>> = Vec::new();
    for result in results {
        match result {
            CubeGenerationResult::Cube(path) => cubes.push(path.0),
            other => panic!("expected only cubes, got {:?}", other),
        }
    }
    assert_eq!(cubes.len(), 4);
    for cube in &cubes {
        assert_eq!(cube.len(), 2);
        assert_eq!(cube[0].var(), cubes[0][0].var());
    }
    assert!(cubes[0][0].is_pos() && cubes[0][1].is_pos());
    assert!(cubes[1][0].is_pos() && cubes[1][1].is_neg());
    assert!(cubes[2][0].is_neg() && cubes[2][1].is_pos());
    assert!(cubes[3][0].is_neg() && cubes[3][1].is_neg());
    // Any two cubes differ in the sign of a shared variable.
    for i in 0..cubes.len() {
        for j in (i + 1)..cubes.len() {
            assert!(cubes[i]
                .iter()
                .any(|a| cubes[j].iter().any(|b| *a == b.inverted())));
        }
    }
}

#[test]
fn every_model_extends_exactly_one_cube() {
    let problem = build(
        6,
        &[
            vec![1, 2, 3],
            vec![-1, 4],
            vec![-2, 5],
            vec![3, 6, -4],
            vec![-3, -6, 2],
            vec![1, -5, 6],
        ],
    );
    let results = CubeGenerator::new(&problem, 2).generate();
    let mut cubes: Vec<Vec<Lit>> = Vec::new();
    let mut settled = false;
    for result in results {
        match result {
            CubeGenerationResult::Cube(path) => cubes.push(path.0),
            _ => settled = true,
        }
    }
    if !settled {
        for bits in 0..(1u32 << 6) {
            let model: Vec<bool> = (0..6).map(|v| bits & (1 << v) != 0).collect();
            if problem.verify_solution(&model).is_ok() {
                let holders = cubes
                    .iter()
                    .filter(|cube| cube.iter().all(|lit| lit.eval_with(model[lit.var()])))
                    .count();
                assert_eq!(holders, 1, "model {:?}", model);
            }
        }
    }
}

#[test]
fn generation_settles_at_the_root_where_units_decide() {
    let forced = build(3, &[vec![1], vec![-1, 2], vec![-2, -3]]);
    let results = CubeGenerator::new(&forced, 2).generate();
    assert_eq!(results.len(), 1);
    match &results[0] {
        CubeGenerationResult::SAT(values) => assert_eq!(values, &vec![true, true, false]),
        other => panic!("expected SAT, got {:?}", other),
    }

    let refuted = build(2, &[vec![1], vec![-1, 2], vec![-2]]);
    let results = CubeGenerator::new(&refuted, 1).generate();
    assert_eq!(results.len(), 1);
    assert!(matches!(results[0], CubeGenerationResult::UNSAT));
}

#[test]
fn a_refuted_formula_yields_unsat_after_the_last_branch() {
    // Unsatisfiable, but only after two decisions.
    let problem = build(
        2,
        &[vec![1, 2], vec![1, -2], vec![-1, 2], vec![-1, -2]],
    );
    let mut generator = CubeGenerator::new(&problem, 2);
    match generator.next() {
        Some(CubeGenerationResult::UNSAT) => {}
        other => panic!("expected UNSAT, got {:?}", other),
    }
    assert!(generator.next().is_none());
    assert!(generator.next().is_none());
}

#[test]
fn next_hands_out_cubes_one_by_one() {
    let problem = build(4, &[vec![1, 2, 3, 4]]);
    let mut generator = CubeGenerator::new(&problem, 1);
    let first = match generator.next() {
        Some(CubeGenerationResult::Cube(path)) => path.0,
        other => panic!("expected a cube, got {:?}", other),
    };
    let second = match generator.next() {
        Some(CubeGenerationResult::Cube(path)) => path.0,
        other => panic!("expected a cube, got {:?}", other),
    };
    assert_eq!(first.len(), 1);
    assert_eq!(second, vec![first[0].inverted()]);
    assert!(first[0].is_pos());
    assert!(generator.next().is_none());
    assert!(generator.next().is_none());
}

#[test]
fn a_fixed_instance_is_solved_alike_for_any_number_of_workers() {
    // A hundred variables and 430 clauses of three literals, drawn with a
    // fixed seed around a hidden solution, so that the formula has a model.
    let mut rng = Rng::with_seed(0x5EED);
    let num_vars = 100;
    let num_clauses = 430;
    let hidden: Vec<bool> = (0..num_vars).map(|_| rng.bool()).collect();
    let mut builder = ProblemBuilder::new(num_vars, num_clauses);
    let mut added = 0;
    while added < num_clauses {
        let mut lits: Vec<Lit> = Vec::with_capacity(3);
        while lits.len() < 3 {
            let var = rng.usize(0..num_vars);
            if lits.iter().any(|lit| lit.var() == var) {
                continue;
            }
            lits.push(Lit::new(var, rng.bool()));
        }
        if !lits.iter().any(|lit| lit.eval_with(hidden[lit.var()])) {
            continue;
        }
        let mut clause = Clause::from_lits(&lits);
        builder.add_clause(&mut clause);
        added += 1;
    }
    let problem = builder.try_build().unwrap();
    assert_eq!(problem.num_clauses(), num_clauses);
    assert_eq!(problem.verify_solution(&hidden), Ok(()));

    for num_workers in [1usize, 2, 4, 8] {
        let depth = dpll::pool::calculate_optimal_splits(&problem, num_workers).unwrap();
        let solution = if depth == 0 {
            dpll::pool::solve_single_threaded(&problem)
        } else {
            let mut found = None;
            let mut generator = CubeGenerator::new(&problem, depth);
            let mut num_cubes = 0;
            while let Some(result) = generator.next() {
                match result {
                    CubeGenerationResult::SAT(values) => {
                        found = Some(values);
                        break;
                    }
                    CubeGenerationResult::UNSAT => break,
                    CubeGenerationResult::Cube(cube) => {
                        num_cubes += 1;
                        assert_eq!(cube.0.len(), depth);
                        if found.is_none() {
                            found = DPLLSolver::with_decisions(&problem, &cube).solve();
                        }
                    }
                }
            }
            assert!(num_cubes <= 1 << depth);
            found
        };
        let values = solution.expect("the formula has a model");
        assert_eq!(values.len(), num_vars);
        assert_eq!(problem.verify_solution(&values), Ok(()));
    }
}

#[test]
fn the_most_active_variable_is_split_first_branch_first() {
    // (x0 or x1), (not x0 or x2): the first variable has the highest score.
    let problem = build(3, &[vec![1, 2], vec![-1, 3]]);
    let results = CubeGenerator::new(&problem, 1).generate();
    assert_eq!(results.len(), 2);
    match (&results[0], &results[1]) {
        (CubeGenerationResult::Cube(first), CubeGenerationResult::Cube(second)) => {
            assert_eq!(first.0, vec![Lit::new(0, true)]);
            assert_eq!(second.0, vec![Lit::new(0, false)]);
        }
        other => panic!("expected two cubes, got {:?}", other),
    }
    // Run again, the generator hands out the same.
    let mut again = CubeGenerator::new(&problem, 1);
    match again.next() {
        Some(CubeGenerationResult::Cube(first)) => assert_eq!(first.0, vec![Lit::new(0, true)]),
        other => panic!("expected a cube, got {:?}", other),
    }
    match again.next() {
        Some(CubeGenerationResult::Cube(second)) => {
            assert_eq!(second.0, vec![Lit::new(0, false)])
        }
        other => panic!("expected a cube, got {:?}", other),
    }
    assert!(again.next().is_none());
    assert!(again.next().is_none());
}
