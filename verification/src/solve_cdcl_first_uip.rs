//! Conflict-driven clause learning that cuts each conflict at the first
//! unique implication point.

use crate::assignment::{is_total, Assignment};
use crate::formula::{satisfiable, CnfFormula};
use crate::inspection::all_satisfied;
use crate::solve_cdcl::{solve_cdcl_with_policy, UipPolicy};
use crate::solver_state::{lemma_decides_sound, SolverState};
use vstd::prelude::*;

verus! {

/// Decides the formula of a state. Returns a total assignment that
/// satisfies every clause, or `None` if there is none.
pub fn solve_cdcl_first_uip_from_state(state: SolverState) -> (r: Option<Assignment>)
    requires
        state.wf(),
        state.justified(),
    ensures
        match r {
            Some(a) => {
                &&& a@.len() == state@.num_vars
                &&& is_total(a@)
                &&& all_satisfied(a@, state@.clauses)
            },
            None => !satisfiable(state@.num_vars, state@.clauses),
        },
        r is Some <==> satisfiable(state@.num_vars, state@.clauses),
{
    let ghost s = state@;
    let result = solve_cdcl_with_policy(state, UipPolicy::First);
    proof {
        lemma_decides_sound(s.num_vars, s.clauses, result);
    }
    result.into_assignment()
}

/// Decides a formula. Returns a total assignment that satisfies every
/// clause, or `None` if there is none.
pub fn solve_cdcl_first_uip(cnf: &CnfFormula) -> (r: Option<Assignment>)
    requires
        cnf.wf(),
        cnf.num_vars <= u32::MAX,
    ensures
        match r {
            Some(a) => {
                &&& a@.len() == cnf.num_vars
                &&& is_total(a@)
                &&& all_satisfied(a@, cnf@)
            },
            None => !satisfiable(cnf.num_vars as nat, cnf@),
        },
        r is Some <==> satisfiable(cnf.num_vars as nat, cnf@),
{
    let state = SolverState::from_cnf(cnf);
    solve_cdcl_first_uip_from_state(state)
}

} // verus!
