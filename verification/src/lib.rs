//! A solver for Boolean satisfiability by conflict-driven clause learning,
//! with every function proved against its contract.
//!
//! Formulas are in conjunctive normal form ([`formula`]). A search keeps a
//! [`solver_state::SolverState`]: the formula with the clauses learned so
//! far, a partial [`assignment::Assignment`], and the trail of assignments
//! made ([`trail`]). Clauses are read under the assignment as satisfied,
//! falsified, unit or unresolved ([`inspection`]).
//!
//! The solvers are [`solve_cdcl`], [`solve_cdcl_first_uip`], [`solve_cnc`]
//! and the three plain ones of [`solve_simple`]. Each returns a model of the
//! formula if there is one, and else a refutation; the clause-learning
//! solvers return a refutation by reverse unit propagation
//! ([`refutation`]), and they are proved to end ([`progress`]).
//!
//! [`parser`] reads and writes the DIMACS and DRAT formats, [`random`]
//! makes random formulas, [`watch_list`] is the two-watched-literal index,
//! and [`text`] gives the types their text forms.

pub mod assignment;
pub mod formula;
pub mod inspection;
pub mod parser;
pub mod progress;
pub mod random;
pub mod refutation;
pub mod solve_cdcl;
pub mod solve_cdcl_first_uip;
pub mod solve_cnc;
pub mod solve_simple;
pub mod solver_state;
pub mod text;
pub mod trail;
pub mod watch_list;
