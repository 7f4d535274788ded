use satsolver::assignment::{Assignment, Record};
use satsolver::formula::{Clause, CnfFormula, Lit, Val, Var};
use satsolver::parser::parse_dimacs;
use satsolver::inspection::ClauseStatus;
use satsolver::solver_state::{
    branch_on_variable, check_assignment, SolverState, Status, TrailElement, TrailReason,
};

fn lit(number: i64) -> Lit {
    Lit {
        var: Var {
            index: number.unsigned_abs() as usize,
        },
        value: if number > 0 { Val::True } else { Val::False },
    }
}

fn clause(numbers: &[i64]) -> Clause {
    Clause {
        literals: numbers.iter().map(|&n| lit(n)).collect(),
    }
}

fn formula(num_vars: usize, clauses: &[&[i64]]) -> CnfFormula {
    CnfFormula {
        num_vars,
        clauses: clauses.iter().map(|c| clause(c)).collect(),
    }
}

#[test]
fn solver_state_test_ucp() {
    let mut ucp = SolverState::from_cnf(
        &parse_dimacs(b"\np cnf 5 4\n1 2 0\n-1 -2 0\n1 0\n3 4 0").unwrap(),
    );
    let expected = parse_dimacs(b"\np cnf 5 1\n3 4 0").unwrap();

    while let Status::UnassignedUnit(lit, clause) = ucp.get_status() {
        ucp.assign_unitprop(lit.var, lit.value, clause);
    }

    assert_eq!(
        ucp.trail,
        [
            TrailElement {
                lit: Lit {
                    var: Var { index: 1 },
                    value: Val::True
                },
                reason: TrailReason::UnitProp(Clause {
                    literals: vec![Lit {
                        var: Var { index: 1 },
                        value: Val::True
                    }]
                })
            },
            TrailElement {
                lit: Lit {
                    var: Var { index: 2 },
                    value: Val::False
                },
                reason: TrailReason::UnitProp(Clause {
                    literals: vec![
                        Lit {
                            var: Var { index: 1 },
                            value: Val::False
                        },
                        Lit {
                            var: Var { index: 2 },
                            value: Val::False
                        }
                    ]
                })
            }
        ]
    );

    assert_eq!(ucp.get_equivalent_clauses(), expected.clauses);
}

#[test]
fn solver_state_test_ple() {
    let mut ple = SolverState::from_cnf(
        &parse_dimacs(b"\np cnf 5 5\n1 2 0\n1 -2 0\n3 4 0\n3 -4 0\n-3 0").unwrap(),
    );
    let expected = parse_dimacs(b"\np cnf 5 3\n3 4 0\n3 -4 0\n-3 0").unwrap();
    ple.pure_literal_eliminate();
    assert_eq!(ple.get_equivalent_clauses(), expected.clauses);
}

#[test]
fn solverstate_test_ucp() {
    let pre_ucp = parse_dimacs(b"\np cnf 5 4\n1 2 0\n-1 -2 0\n1 0\n3 4 0").unwrap();
    let post_ucp = parse_dimacs(b"\np cnf 5 2\n-2 0\n3 4 0").unwrap();

    let mut state = SolverState::from_cnf(&pre_ucp);
    match state.get_status() {
        Status::UnassignedUnit(lit, clause) => {
            assert_eq!(
                lit,
                Lit {
                    var: Var { index: 1 },
                    value: Val::True,
                }
            );
            state.assign_unitprop(lit.var, lit.value, clause);
            assert!(state.get_equivalent_clauses() == post_ucp.clauses);
        }
        _ => panic!("a clause is unit"),
    }
}

#[test]
fn solverstate_test_ple() {
    let pre_ple = parse_dimacs(b"\np cnf 5 5\n1 2 0\n1 -2 0\n3 4 0\n3 -4 0\n-3 0").unwrap();
    let post_ple = parse_dimacs(b"\np cnf 5 3\n3 4 0\n3 -4 0\n-3 0").unwrap();

    let mut state = SolverState::from_cnf(&pre_ple);
    state.pure_literal_eliminate();
    assert!(state.get_equivalent_clauses() == post_ple.clauses);
}

#[test]
fn pure_literals_are_decided_in_order_of_the_variables() {
    // 1 occurs positively only, 4 negatively only, 5 not at all.
    let cnf = formula(5, &[&[1, 2], &[-4, -2], &[3, 1], &[-3, -4]]);
    let mut state = SolverState::from_cnf(&cnf);
    state.pure_literal_eliminate();
    assert_eq!(state.decision_level, 2);
    assert_eq!(state.trail.len(), 2);
    assert_eq!(state.trail[0].lit, lit(1));
    assert_eq!(state.trail[1].lit, lit(-4));
    assert_eq!(state.trail[0].reason, TrailReason::Decision(Assignment::empty(5)));
    assert_eq!(state.assignment.get_decision_level(&lit(1)), Some(1));
    assert_eq!(state.assignment.get_decision_level(&lit(4)), Some(2));
    assert_eq!(state.assignment.get(&lit(5)), None);
    assert!(state.is_satisfied());
}

#[test]
fn pure_literal_elimination_passes_over_an_assigned_variable() {
    let cnf = formula(2, &[&[1, 2]]);
    let mut state = SolverState::from_cnf(&cnf);
    state.decide(Var { index: 1 }, Val::False);
    state.pure_literal_eliminate();
    assert_eq!(state.assignment.get(&lit(1)), Some(false));
    assert_eq!(state.assignment.get(&lit(2)), Some(true));
    assert_eq!(state.decision_level, 2);
}

#[test]
fn a_fresh_state() {
    let cnf = formula(3, &[&[1, -2]]);
    let state = SolverState::from_cnf(&cnf);
    assert_eq!(state.formula, cnf);
    assert_eq!(state.assignment, Assignment::empty(3));
    assert!(state.trail.is_empty());
    assert_eq!(state.decision_level, 0);
}

#[test]
fn status_prefers_falsified_then_unit_then_decision() {
    let cnf = formula(4, &[&[1, 2], &[3], &[-3, 4], &[-1]]);
    let mut state = SolverState::from_cnf(&cnf);
    // Two unit clauses: the last one is reported.
    assert_eq!(
        state.get_status(),
        Status::UnassignedUnit(lit(-1), clause(&[-1]))
    );
    state.assign_unitprop(Var { index: 1 }, Val::False, clause(&[-1]));
    // (1 2) is unit now, but (3) comes later.
    assert_eq!(state.get_status(), Status::UnassignedUnit(lit(3), clause(&[3])));
    state.decide(Var { index: 3 }, Val::False);
    // (3) is falsified: that wins over the unit clause (1 2) before it.
    assert_eq!(state.get_status(), Status::Falsified(clause(&[3])));
    assert!(state.is_falsified());
    assert!(!state.is_satisfied());
}

#[test]
fn status_reports_the_first_falsified_clause() {
    let cnf = formula(2, &[&[1, 2], &[-1], &[-2]]);
    let mut state = SolverState::from_cnf(&cnf);
    state.decide(Var { index: 1 }, Val::True);
    state.decide(Var { index: 2 }, Val::True);
    assert_eq!(state.get_status(), Status::Falsified(clause(&[-1])));
}

#[test]
fn status_decides_the_last_unassigned_literal_of_the_last_open_clause() {
    let cnf = formula(5, &[&[1, 2], &[3, -4, 5], &[5, -5]]);
    let mut state = SolverState::from_cnf(&cnf);
    assert_eq!(state.get_status(), Status::UnassignedDecision(lit(-5)));
    state.decide(Var { index: 5 }, Val::True);
    assert_eq!(state.get_status(), Status::UnassignedDecision(lit(2)));
    state.decide(Var { index: 2 }, Val::True);
    assert_eq!(state.get_status(), Status::Satisfied);
    assert!(state.is_satisfied());
    assert!(!state.is_falsified());
}

#[test]
fn a_clause_with_a_literal_twice_is_not_unit() {
    let cnf = formula(1, &[&[1, 1]]);
    let state = SolverState::from_cnf(&cnf);
    assert_eq!(state.get_status(), Status::UnassignedDecision(lit(1)));
}

#[test]
fn an_empty_formula_is_satisfied_and_an_empty_clause_falsified() {
    assert_eq!(
        SolverState::from_cnf(&formula(2, &[])).get_status(),
        Status::Satisfied
    );
    assert_eq!(
        SolverState::from_cnf(&formula(2, &[&[1], &[]])).get_status(),
        Status::Falsified(clause(&[]))
    );
}

#[test]
fn clause_inspection() {
    let mut a = Assignment::empty(4);
    a.set(Var { index: 1 }, Val::False, 0);
    a.set(Var { index: 2 }, Val::True, 1);
    assert_eq!(clause(&[1, 2, 3]).status_under(&a), ClauseStatus::Satisfied);
    assert_eq!(clause(&[3, 4, 2]).status_under(&a), ClauseStatus::Satisfied);
    assert_eq!(clause(&[1, -2]).status_under(&a), ClauseStatus::Falsified);
    assert_eq!(clause(&[]).status_under(&a), ClauseStatus::Falsified);
    assert_eq!(
        clause(&[1, -3, -2]).status_under(&a),
        ClauseStatus::Unit(lit(-3))
    );
    assert_eq!(
        clause(&[3, 1, -4]).status_under(&a),
        ClauseStatus::Unresolved(lit(-4))
    );
    assert_eq!(clause(&[1, 2, 3]).get_equivalent_clause(&a), None);
    assert_eq!(
        clause(&[3, 1, -4, -2]).get_equivalent_clause(&a),
        Some(vec![lit(3), lit(-4)])
    );
    assert_eq!(clause(&[1, -2]).get_equivalent_clause(&a), Some(vec![]));
}

#[test]
fn decide_keeps_a_snapshot_and_opens_a_level() {
    let cnf = formula(3, &[&[1, 2, 3]]);
    let mut state = SolverState::from_cnf(&cnf);
    state.assign_unitprop(Var { index: 3 }, Val::False, clause(&[-3]));
    let before = state.assignment.clone();
    state.decide(Var { index: 1 }, Val::False);
    assert_eq!(state.decision_level, 1);
    assert_eq!(
        state.trail[1],
        TrailElement {
            lit: lit(-1),
            reason: TrailReason::Decision(before)
        }
    );
    assert_eq!(state.assignment.get(&lit(1)), Some(false));
    assert_eq!(state.assignment.get_decision_level(&lit(1)), Some(1));
    assert_eq!(state.assignment.get_decision_level(&lit(3)), Some(0));
}

#[test]
fn every_trail_literal_is_satisfied_at_the_level_of_its_push() {
    let cnf = formula(6, &[&[-1, 2], &[-3, 4], &[-4, 5], &[6, 1]]);
    let mut state = SolverState::from_cnf(&cnf);
    state.decide(Var { index: 1 }, Val::True);
    state.unit_propagate();
    state.decide(Var { index: 3 }, Val::True);
    state.unit_propagate();
    let levels = [1, 1, 2, 2, 2];
    assert_eq!(state.trail.len(), 5);
    for (element, level) in state.trail.iter().zip(levels) {
        assert_eq!(state.assignment.get(&element.lit), Some(true));
        assert_eq!(state.assignment.get_decision_level(&element.lit), Some(level));
    }
    assert_eq!(state.decision_level, 2);
}

#[test]
fn a_backjump_after_a_decision_restores_the_state() {
    let cnf = formula(4, &[&[1, 2], &[-2, 3], &[4]]);
    let mut state = SolverState::from_cnf(&cnf);
    state.unit_propagate();
    state.decide(Var { index: 1 }, Val::False);
    state.unit_propagate();
    let before = state.clone();
    assert_eq!(before.trail.len(), 4);
    state.decide(Var { index: 3 }, Val::True);
    assert_ne!(state, before);
    state.backjump_to_decision_level(1);
    assert_eq!(state, before);
}

#[test]
fn a_backjump_cuts_the_trail_before_the_next_decision() {
    let cnf = formula(5, &[&[-1, 2], &[-3, 4], &[5]]);
    let mut state = SolverState::from_cnf(&cnf);
    state.unit_propagate();
    state.decide(Var { index: 1 }, Val::True);
    state.unit_propagate();
    state.decide(Var { index: 3 }, Val::True);
    state.unit_propagate();
    assert_eq!(state.trail.len(), 5);
    state.learn_clause(clause(&[-1, -3]));
    state.backjump_to_decision_level(1);
    assert_eq!(state.decision_level, 1);
    assert_eq!(state.trail.len(), 3);
    assert_eq!(state.assignment.get(&lit(2)), Some(true));
    assert_eq!(state.assignment.get(&lit(3)), None);
    assert_eq!(state.assignment.get(&lit(4)), None);
    assert_eq!(state.formula.clauses.len(), 4);
    state.backjump_to_decision_level(0);
    assert_eq!(state.trail.len(), 1);
    assert_eq!(state.assignment.get(&lit(5)), Some(true));
    assert_eq!(state.assignment.get(&lit(1)), None);
}

#[test]
fn a_backjump_without_any_decision_resets_the_state() {
    let cnf = formula(2, &[&[1], &[-1, 2]]);
    let mut state = SolverState::from_cnf(&cnf);
    state.unit_propagate();
    assert_eq!(state.trail.len(), 2);
    state.backjump_to_decision_level(0);
    assert_eq!(state, SolverState::from_cnf(&cnf));
}

#[test]
fn unit_propagation_twice_changes_nothing_more() {
    let cnf = formula(5, &[&[1], &[-1, 2], &[-2, 3], &[4, 5]]);
    let mut state = SolverState::from_cnf(&cnf);
    state.unit_propagate();
    assert_eq!(state.trail.len(), 3);
    let once = state.clone();
    state.unit_propagate();
    assert_eq!(state, once);
}

#[test]
fn unit_propagation_stops_at_a_falsified_clause() {
    let cnf = formula(3, &[&[1], &[-1], &[2], &[3]]);
    let mut state = SolverState::from_cnf(&cnf);
    state.unit_propagate();
    // 3, then 2, then -1 are inferred; then (1) is falsified.
    assert_eq!(state.trail.len(), 3);
    assert_eq!(state.get_status(), Status::Falsified(clause(&[1])));
}

#[test]
fn branching_decides_the_variable_both_ways() {
    let cnf = formula(2, &[&[1, 2]]);
    let state = SolverState::from_cnf(&cnf);
    let (tstate, fstate) = branch_on_variable(state, Var { index: 2 });
    assert_eq!(tstate.assignment.get(&lit(2)), Some(true));
    assert_eq!(fstate.assignment.get(&lit(2)), Some(false));
    assert_eq!(tstate.decision_level, 1);
    assert_eq!(fstate.decision_level, 1);
    assert_eq!(tstate.trail.len(), 1);
    assert_eq!(fstate.trail[0].lit, lit(-2));
}

#[test]
fn check_assignment_wants_every_clause_satisfied() {
    let cnf = formula(2, &[&[1, 2], &[-1]]);
    let mut a = Assignment::empty(2);
    assert!(!check_assignment(&cnf, &a));
    a.set(Var { index: 1 }, Val::False, 0);
    assert!(!check_assignment(&cnf, &a));
    a.set(Var { index: 2 }, Val::True, 0);
    assert!(check_assignment(&cnf, &a));
    assert!(check_assignment(&formula(2, &[]), &Assignment::empty(2)));
    assert!(!check_assignment(&formula(2, &[&[]]), &a));
}

#[test]
fn assignment_operations() {
    let mut a = Assignment::empty(3);
    assert_eq!(a.num_vars(), 3);
    assert_eq!(a.get(&lit(2)), None);
    assert_eq!(a.get_decision_level(&lit(2)), None);
    assert_eq!(a.get_unassigned_var(), Some(Var { index: 1 }));
    a.set(Var { index: 1 }, Val::True, 7);
    assert_eq!(a.get(&lit(1)), Some(true));
    assert_eq!(a.get(&lit(-1)), Some(false));
    assert_eq!(a.get_decision_level(&lit(-1)), Some(7));
    assert_eq!(a.get_unassigned_var(), Some(Var { index: 2 }));
    let filled = a.clone().fill_unassigned();
    assert_eq!(filled.get(&lit(1)), Some(true));
    assert_eq!(filled.get(&lit(2)), Some(false));
    assert_eq!(filled.get(&lit(3)), Some(false));
    assert_eq!(filled.get_decision_level(&lit(1)), Some(7));
    assert_eq!(filled.get_decision_level(&lit(3)), Some(u32::MAX));
    assert_eq!(filled.get_unassigned_var(), None);
    assert_eq!(Assignment::empty(0).get_unassigned_var(), None);
    assert_eq!(
        Record {
            value: Val::True,
            decision_level: 7
        }
        .value,
        Val::True
    );
}

#[test]
fn every_total_assignment_comes_once_in_order() {
    let mut all = Assignment::every_possible(2);
    let mut seen = Vec::new();
    while let Some(a) = all.next() {
        assert_eq!(a.num_vars(), 2);
        assert_eq!(a.get_decision_level(&lit(1)), Some(0));
        seen.push((a.get(&lit(1)).unwrap(), a.get(&lit(2)).unwrap()));
    }
    assert_eq!(
        seen,
        vec![(false, false), (false, true), (true, false), (true, true)]
    );
    assert!(all.next().is_none());
    let mut none = Assignment::every_possible(0);
    assert_eq!(none.next(), Some(Assignment::empty(0)));
    assert_eq!(none.next(), None);
}

#[test]
fn negation_flips_the_value() {
    assert_eq!(Val::True.not(), Val::False);
    assert_eq!(Val::False.not(), Val::True);
    assert_eq!(Val::True.not().not(), Val::True);
    assert_eq!(lit(3).not(), lit(-3));
    assert_eq!(lit(-3).not().not(), lit(-3));
    assert_eq!(Val::True.to_text(), "true");
    assert_eq!(Val::False.to_text(), "false");
}

#[test]
fn a_formula_is_well_formed_if_its_literals_are_in_range() {
    assert!(formula(0, &[]).is_well_formed());
    assert!(formula(0, &[&[]]).is_well_formed());
    assert!(formula(3, &[&[1, -3], &[2]]).is_well_formed());
    assert!(!formula(2, &[&[1, -3], &[2]]).is_well_formed());
    assert!(!formula(2, &[&[1], &[2, 0]]).is_well_formed());
    let cnf = formula(2, &[&[1, -2]]);
    assert_eq!(cnf.clone(), cnf);
    assert_eq!(satsolver::formula::clone_clauses(&cnf.clauses), cnf.clauses);
}

#[test]
fn assigning_gives_a_new_state_and_leaves_the_old_one() {
    let cnf = formula(2, &[&[1, 2]]);
    let state = SolverState::from_cnf(&cnf);
    let next = state.assign(&Var { index: 1 }, Val::False);
    assert_eq!(state, SolverState::from_cnf(&cnf));
    assert_eq!(next.assignment.get(&lit(1)), Some(false));
    assert_eq!(next.decision_level, 1);
    assert_eq!(next.trail.len(), 1);
    assert_eq!(
        next.get_status(),
        Status::UnassignedUnit(lit(2), clause(&[1, 2]))
    );
}
