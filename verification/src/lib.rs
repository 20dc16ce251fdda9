//! A DPLL satisfiability solver for formulas in conjunctive normal form,
//! with the building blocks of a cube-and-conquer search: literals and
//! clauses, an indexed formula, a trail of assignments that can be undone
//! level by level, an activity heap for branching, the search itself, a
//! generator that splits a formula into disjoint cubes, and the workers
//! that search the cubes and share their work.
//!
//! The search is proved sound, complete and terminating against a model of
//! the formula: see `models` for the notions and `dpll`, `cube_and_conquer`
//! and `worker` for what each step guarantees. What the search returns is
//! a function of where it starts: `run` defines it.

pub mod clause;
pub mod cli;
pub mod cube_and_conquer;
pub mod decision_path;
pub mod deque;
pub mod dpll;
pub mod generate;
pub mod indexed_heap;
pub mod lit;
pub mod models;
pub mod opt_bool;
pub mod parser;
pub mod partial_assignment;
pub mod pool;
pub mod problem;
pub mod run;
pub mod signals;
pub mod stealing;
pub mod store;
pub mod utils;
pub mod vsids;
pub mod worker;
