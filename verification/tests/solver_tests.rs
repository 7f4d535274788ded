use satsolver::formula::{Clause, CnfFormula, Lit, Val, Var};
use satsolver::parser::parse_dimacs;
use satsolver::solve_cdcl::{
    analyze_conflict, solve_cdcl, solve_cdcl_from_state, solve_cdcl_with_policy, UipPolicy,
};
use satsolver::solve_cdcl_first_uip::{solve_cdcl_first_uip, solve_cdcl_first_uip_from_state};
use satsolver::solve_cnc::{combine_answers, conquer_cube, solve_cnc, split_cubes, Cube};
use satsolver::solve_simple::{solve_backtrack, solve_basic, solve_dpll};
use satsolver::solver_state::{check_assignment, SolverResult, SolverState, Status};

fn lit(number: i64) -> Lit {
    Lit {
        var: Var {
            index: number.unsigned_abs() as usize,
        },
        value: if number > 0 { Val::True } else { Val::False },
    }
}

fn clause(numbers: &[i64]) -> Clause {
    Clause {
        literals: numbers.iter().map(|&n| lit(n)).collect(),
    }
}

fn formula(num_vars: usize, clauses: &[&[i64]]) -> CnfFormula {
    CnfFormula {
        num_vars,
        clauses: clauses.iter().map(|c| clause(c)).collect(),
    }
}

#[test]
fn solve_cdcl_test_solve_cdcl_sat() {
    let cnf = parse_dimacs(b"\np cnf 5 4\n1 2 0\n1 -2 0\n3 4 0\n3 -4 0").unwrap();
    let result = solve_cdcl(&cnf);
    assert!(result.is_satisfiable());
    let assignment = result.into_assignment().unwrap();
    assert!(assignment.get_unassigned_var().is_none() && check_assignment(&cnf, &assignment));
}

#[test]
fn solve_cdcl_test_solve_cdcl_unsat() {
    let cnf = parse_dimacs(b"\np cnf 5 5\n1 2 0\n1 -2 0\n3 4 0\n3 -4 0\n-1 -3 0").unwrap();
    assert!(!solve_cdcl(&cnf).is_satisfiable());
}

#[test]
fn test_solve_cdcl_first_uip_sat() {
    let cnf = parse_dimacs(b"\np cnf 5 4\n1 2 0\n1 -2 0\n3 4 0\n3 -4 0").unwrap();
    assert!(solve_cdcl_first_uip(&cnf)
        .is_some_and(|a| a.get_unassigned_var().is_none() && check_assignment(&cnf, &a)));
}

#[test]
fn test_solve_cdcl_first_uip_unsat() {
    let cnf = parse_dimacs(b"\np cnf 5 5\n1 2 0\n1 -2 0\n3 4 0\n3 -4 0\n-1 -3 0").unwrap();
    assert!(solve_cdcl_first_uip(&cnf).is_none());
}

#[test]
fn test_solve_cnc_sat() {
    let cnf = parse_dimacs(b"\np cnf 5 4\n1 2 0\n1 -2 0\n3 4 0\n3 -4 0").unwrap();
    assert!(solve_cnc(&cnf, 3)
        .into_assignment()
        .is_some_and(|a| a.get_unassigned_var().is_none() && check_assignment(&cnf, &a)));
}

#[test]
fn test_solve_cnc_unsat() {
    let cnf = parse_dimacs(b"\np cnf 5 5\n1 2 0\n1 -2 0\n3 4 0\n3 -4 0\n-1 -3 0").unwrap();
    assert!(solve_cnc(&cnf, 3).into_assignment().is_none());
}

#[test]
fn solve_simple_test_solve_basic_sat() {
    let cnf = parse_dimacs(b"\np cnf 5 4\n1 2 0\n1 -2 0\n3 4 0\n3 -4 0").unwrap();
    let result = solve_basic(&cnf);
    assert!(result.is_satisfiable());
    let assignment = result.into_assignment().unwrap();
    assert!(assignment.get_unassigned_var().is_none() && check_assignment(&cnf, &assignment));
}

#[test]
fn solve_simple_test_solve_basic_unsat() {
    let cnf = parse_dimacs(b"\np cnf 5 5\n1 2 0\n1 -2 0\n3 4 0\n3 -4 0\n-1 -3 0").unwrap();
    assert!(solve_basic(&cnf).is_unsatisfiable());
}

#[test]
fn solve_simple_test_solve_backtrack_sat() {
    let cnf = parse_dimacs(b"\np cnf 5 4\n1 2 0\n1 -2 0\n3 4 0\n3 -4 0").unwrap();
    let result = solve_backtrack(&cnf);
    assert!(result.is_satisfiable());
    let assignment = result.into_assignment().unwrap();
    assert!(assignment.get_unassigned_var().is_none() && check_assignment(&cnf, &assignment));
}

#[test]
fn solve_simple_test_solve_backtrack_unsat() {
    let cnf = parse_dimacs(b"\np cnf 5 5\n1 2 0\n1 -2 0\n3 4 0\n3 -4 0\n-1 -3 0").unwrap();
    assert!(solve_backtrack(&cnf).is_unsatisfiable());
}

#[test]
fn solve_simple_test_solve_dpll_sat() {
    let cnf = parse_dimacs(b"\np cnf 5 4\n1 2 0\n1 -2 0\n3 4 0\n3 -4 0").unwrap();
    let result = solve_dpll(&cnf);
    assert!(result.is_satisfiable());
    let assignment = result.into_assignment().unwrap();
    assert!(assignment.get_unassigned_var().is_none() && check_assignment(&cnf, &assignment));
}

#[test]
fn solve_simple_test_solve_dpll_unsat() {
    let cnf = parse_dimacs(b"\np cnf 5 5\n1 2 0\n1 -2 0\n3 4 0\n3 -4 0\n-1 -3 0").unwrap();
    assert!(solve_dpll(&cnf).is_unsatisfiable());
}

#[test]
fn solver_test_solve_basic_sat() {
    let cnf = parse_dimacs(b"\np cnf 5 4\n1 2 0\n1 -2 0\n3 4 0\n3 -4 0").unwrap();
    assert!(solve_basic(&cnf)
        .into_assignment()
        .is_some_and(|a| a.get_unassigned_var().is_none() && check_assignment(&cnf, &a)));
}

#[test]
fn solver_test_solve_basic_unsat() {
    let cnf = parse_dimacs(b"\np cnf 5 5\n1 2 0\n1 -2 0\n3 4 0\n3 -4 0\n-1 -3 0").unwrap();
    assert!(solve_basic(&cnf).into_assignment().is_none());
}

#[test]
fn solver_test_solve_backtrack_sat() {
    let cnf = parse_dimacs(b"\np cnf 5 4\n1 2 0\n1 -2 0\n3 4 0\n3 -4 0").unwrap();
    assert!(solve_backtrack(&cnf)
        .into_assignment()
        .is_some_and(|a| a.get_unassigned_var().is_none() && check_assignment(&cnf, &a)));
}

#[test]
fn solver_test_solve_backtrack_unsat() {
    let cnf = parse_dimacs(b"\np cnf 5 5\n1 2 0\n1 -2 0\n3 4 0\n3 -4 0\n-1 -3 0").unwrap();
    assert!(solve_backtrack(&cnf).into_assignment().is_none());
}

#[test]
fn solver_test_solve_dpll_sat() {
    let cnf = parse_dimacs(b"\np cnf 5 4\n1 2 0\n1 -2 0\n3 4 0\n3 -4 0").unwrap();
    assert!(solve_dpll(&cnf)
        .into_assignment()
        .is_some_and(|a| a.get_unassigned_var().is_none() && check_assignment(&cnf, &a)));
}

#[test]
fn solver_test_solve_dpll_unsat() {
    let cnf = parse_dimacs(b"\np cnf 5 5\n1 2 0\n1 -2 0\n3 4 0\n3 -4 0\n-1 -3 0").unwrap();
    assert!(solve_dpll(&cnf).into_assignment().is_none());
}

#[test]
fn solver_test_solve_cdcl_sat() {
    let cnf = parse_dimacs(b"\np cnf 5 4\n1 2 0\n1 -2 0\n3 4 0\n3 -4 0").unwrap();
    assert!(solve_cdcl(&cnf)
        .into_assignment()
        .is_some_and(|a| a.get_unassigned_var().is_none() && check_assignment(&cnf, &a)));
}

#[test]
fn solver_test_solve_cdcl_unsat() {
    let cnf = parse_dimacs(b"\np cnf 5 5\n1 2 0\n1 -2 0\n3 4 0\n3 -4 0\n-1 -3 0").unwrap();
    assert!(solve_cdcl(&cnf).into_assignment().is_none());
}

#[test]
fn the_cascade_of_unit_clauses_ends_satisfiable() {
    let cnf = parse_dimacs(b"p cnf 5 4\n1 2 0\n-1 -2 0\n1 0\n3 4 0").unwrap();
    let assignment = solve_cdcl(&cnf).into_assignment().unwrap();
    assert_eq!(assignment.get(&lit(1)), Some(true));
    assert_eq!(assignment.get(&lit(2)), Some(false));
    assert!(check_assignment(&cnf, &assignment));
}

fn verdicts(cnf: &CnfFormula) -> Vec<bool> {
    vec![
        solve_cdcl(cnf).is_satisfiable(),
        solve_cdcl_first_uip(cnf).is_some(),
        solve_cnc(cnf, 0).is_satisfiable(),
        solve_cnc(cnf, 2).is_satisfiable(),
        solve_dpll(cnf).is_satisfiable(),
        solve_backtrack(cnf).is_satisfiable(),
        solve_basic(cnf).is_satisfiable(),
    ]
}

#[test]
fn every_solver_gives_the_same_verdict() {
    let satisfiable = [
        formula(0, &[]),
        formula(3, &[]),
        formula(3, &[&[1, -1]]),
        formula(2, &[&[1, 1], &[-1, 2]]),
        formula(4, &[&[1, 2, 3], &[-1, -2], &[-2, -3], &[-1, -3], &[4, 1]]),
        formula(
            6,
            &[
                &[1, 2],
                &[-1, 3],
                &[-3, 4],
                &[-2, 5],
                &[-5, -4, 6],
                &[-6, -1],
                &[2, 6],
            ],
        ),
    ];
    for cnf in &satisfiable {
        assert_eq!(verdicts(cnf), vec![true; 7]);
    }
    let unsatisfiable = [
        formula(0, &[&[]]),
        formula(2, &[&[1], &[], &[2]]),
        formula(1, &[&[1], &[-1]]),
        formula(2, &[&[1, 2], &[1, -2], &[-1, 2], &[-1, -2]]),
        formula(
            3,
            &[
                &[1, 2, 3],
                &[1, 2, -3],
                &[1, -2, 3],
                &[1, -2, -3],
                &[-1, 2, 3],
                &[-1, 2, -3],
                &[-1, -2, 3],
                &[-1, -2, -3],
            ],
        ),
        // Two pigeons do not fit one hole each of three.
        formula(
            6,
            &[
                &[1, 2],
                &[3, 4],
                &[5, 6],
                &[-1, -3],
                &[-1, -5],
                &[-3, -5],
                &[-2, -4],
                &[-2, -6],
                &[-4, -6],
            ],
        ),
    ];
    for cnf in &unsatisfiable {
        assert_eq!(verdicts(cnf), vec![false; 7]);
    }
}

#[test]
fn a_model_found_satisfies_the_formula() {
    let cnf = formula(
        6,
        &[
            &[1, 2],
            &[-1, 3],
            &[-3, 4],
            &[-2, 5],
            &[-5, -4, 6],
            &[-6, -1],
            &[2, 6],
        ],
    );
    let found = [
        solve_cdcl(&cnf).into_assignment().unwrap(),
        solve_cdcl_first_uip(&cnf).unwrap(),
        solve_cnc(&cnf, 2).into_assignment().unwrap(),
        solve_dpll(&cnf).into_assignment().unwrap(),
        solve_backtrack(&cnf).into_assignment().unwrap(),
        solve_basic(&cnf).into_assignment().unwrap(),
    ];
    for assignment in &found {
        assert_eq!(assignment.num_vars(), 6);
        assert!(assignment.get_unassigned_var().is_none());
        assert!(check_assignment(&cnf, assignment));
    }
}

#[test]
fn enumeration_returns_the_first_model_in_order() {
    // Models are 011 and 111; false comes before true, the first variable changes last.
    let cnf = formula(3, &[&[2], &[3]]);
    let assignment = solve_basic(&cnf).into_assignment().unwrap();
    assert_eq!(assignment.get(&lit(1)), Some(false));
    assert_eq!(assignment.get(&lit(2)), Some(true));
    assert_eq!(assignment.get(&lit(3)), Some(true));
    assert_eq!(assignment.get_decision_level(&lit(1)), Some(0));
}

#[test]
fn backtracking_tries_false_first() {
    let cnf = formula(2, &[&[1, 2]]);
    let assignment = solve_backtrack(&cnf).into_assignment().unwrap();
    // Variable 1 false leaves the clause open, then variable 2 false falsifies it.
    assert_eq!(assignment.get(&lit(1)), Some(false));
    assert_eq!(assignment.get(&lit(2)), Some(true));
}

#[test]
fn solvers_without_learning_refute_with_the_empty_clause_alone() {
    let cnf = formula(1, &[&[1], &[-1]]);
    for result in [solve_basic(&cnf), solve_backtrack(&cnf), solve_dpll(&cnf)] {
        assert_eq!(
            result,
            SolverResult::Unsatisfiable(vec![Clause { literals: vec![] }])
        );
        assert_eq!(result.unsat_proof().map(|p| p.len()), Some(1));
        assert!(result.assignment().is_none());
    }
}

#[test]
fn the_refutation_lists_the_learned_clauses_in_order() {
    let cnf = formula(2, &[&[1, 2], &[1, -2], &[-1, 2], &[-1, -2]]);
    // The last literal of the last open clause is decided: variable 2 false.
    // Clause (1 2) then gives 1, which falsifies (-1 2). Cutting at the
    // decision, 2 is learned. At level 0 it gives 2, then (1 -2) gives 1,
    // and (-1 -2) is falsified without any decision.
    assert_eq!(
        solve_cdcl(&cnf),
        SolverResult::Unsatisfiable(vec![clause(&[2]), Clause { literals: vec![] }])
    );
}

#[test]
fn analysis_without_a_decision_refutes() {
    let cnf = formula(1, &[&[1], &[-1]]);
    let mut state = SolverState::from_cnf(&cnf);
    state.unit_propagate();
    match state.get_status() {
        Status::Falsified(falsified) => {
            assert_eq!(analyze_conflict(&state, &falsified, UipPolicy::First), None);
            assert_eq!(analyze_conflict(&state, &falsified, UipPolicy::Last), None);
        }
        _ => panic!("a clause is falsified"),
    }
}

// Deciding 1 and then 2 infers 3 from (-2 3), then 5 and 4 from 3, and
// falsifies (-4 -5 -1). The first point where one literal of the second
// level remains is 3; the decision of that level is 2.
fn two_level_conflict() -> (SolverState, Clause) {
    let cnf = formula(
        5,
        &[&[-4, -5, -1], &[-2, 3], &[-3, 4], &[-3, 5]],
    );
    let mut state = SolverState::from_cnf(&cnf);
    state.decide(Var { index: 1 }, Val::True);
    state.decide(Var { index: 2 }, Val::True);
    state.unit_propagate();
    match state.get_status() {
        Status::Falsified(falsified) => (state, falsified),
        _ => panic!("a clause is falsified"),
    }
}

#[test]
fn the_first_cut_stops_at_the_first_implication_point() {
    let (state, falsified) = two_level_conflict();
    assert_eq!(falsified, clause(&[-4, -5, -1]));
    assert_eq!(
        analyze_conflict(&state, &falsified, UipPolicy::First),
        Some((clause(&[-1, -3]), 1))
    );
}

#[test]
fn the_last_cut_stops_at_the_decision() {
    let (state, falsified) = two_level_conflict();
    assert_eq!(
        analyze_conflict(&state, &falsified, UipPolicy::Last),
        Some((clause(&[-1, -2]), 1))
    );
}

// Here the last cut learns a clause over three levels where the first cut
// learns one over two. With 1, 2 and 3 decided in turn, 4 follows from 3
// and 1, then 6 from 4, then -5 from 6 and 4, and (-4 -2 5) is falsified.
fn three_level_instance() -> CnfFormula {
    formula(
        6,
        &[&[-3, -1, 4], &[-4, -2, 5], &[-4, 6], &[-5, -6, -4], &[1, 2, 3]],
    )
}

#[test]
fn both_cuts_decide_the_three_level_instance() {
    let cnf = three_level_instance();
    let mut state = SolverState::from_cnf(&cnf);
    state.decide(Var { index: 1 }, Val::True);
    state.decide(Var { index: 2 }, Val::True);
    state.decide(Var { index: 3 }, Val::True);
    state.unit_propagate();
    let falsified = match state.get_status() {
        Status::Falsified(falsified) => falsified,
        _ => panic!("a clause is falsified"),
    };
    assert_eq!(falsified, clause(&[-4, -2, 5]));
    // The first cut stops at 4, with 2 from the second level: two levels.
    assert_eq!(
        analyze_conflict(&state, &falsified, UipPolicy::First),
        Some((clause(&[-2, -4]), 2))
    );
    // The last cut goes on to the decision 3, and takes 1 in on the way.
    assert_eq!(
        analyze_conflict(&state, &falsified, UipPolicy::Last),
        Some((clause(&[-1, -2, -3]), 2))
    );
    let first = solve_cdcl_with_policy(SolverState::from_cnf(&cnf), UipPolicy::First);
    let last = solve_cdcl_with_policy(SolverState::from_cnf(&cnf), UipPolicy::Last);
    assert!(first.is_satisfiable() && last.is_satisfiable());
    assert!(check_assignment(&cnf, first.assignment().unwrap()));
    assert!(check_assignment(&cnf, last.assignment().unwrap()));
    let mut contradicted = three_level_instance();
    contradicted.clauses.push(clause(&[-1]));
    contradicted.clauses.push(clause(&[-2]));
    contradicted.clauses.push(clause(&[-3]));
    assert!(solve_cdcl(&contradicted).is_unsatisfiable());
    assert!(solve_cdcl_first_uip(&contradicted).is_none());
}

#[test]
fn a_search_from_a_state_with_decisions_decides_the_whole_formula() {
    let cnf = formula(2, &[&[-1], &[1, 2]]);
    let mut state = SolverState::from_cnf(&cnf);
    state.decide(Var { index: 1 }, Val::True);
    let assignment = solve_cdcl_from_state(state).into_assignment().unwrap();
    assert_eq!(assignment.get(&lit(1)), Some(false));
    assert!(check_assignment(&cnf, &assignment));
    let mut again = SolverState::from_cnf(&cnf);
    again.decide(Var { index: 1 }, Val::True);
    assert!(solve_cdcl_first_uip_from_state(again).is_some());
}

#[test]
fn depth_zero_gives_one_open_cube() {
    let cnf = formula(2, &[&[1, 2], &[-1, -2]]);
    let cubes = split_cubes(SolverState::from_cnf(&cnf), 0);
    assert_eq!(cubes.len(), 1);
    assert!(matches!(cubes[0], Cube::Open(_)));
}

#[test]
fn cubes_split_on_both_values_true_first() {
    let cnf = formula(3, &[&[1, 2], &[-1, -2], &[2, 3]]);
    let cubes = split_cubes(SolverState::from_cnf(&cnf), 2);
    // The split is on variable 3. True: nothing follows, and the split goes
    // on with variable 2. False: 2 follows, then -1, and the formula is
    // satisfied.
    assert_eq!(cubes.len(), 3);
    match &cubes[0] {
        Cube::Open(state) => {
            assert_eq!(state.assignment.get(&lit(3)), Some(true));
            assert_eq!(state.assignment.get(&lit(2)), Some(true));
            assert_eq!(state.decision_level, 2);
        }
        _ => panic!("the first cube is open"),
    }
    match &cubes[1] {
        Cube::Open(state) => {
            assert_eq!(state.assignment.get(&lit(3)), Some(true));
            assert_eq!(state.assignment.get(&lit(2)), Some(false));
        }
        _ => panic!("the second cube is open"),
    }
    match &cubes[2] {
        Cube::Solved(assignment) => {
            assert_eq!(assignment.get(&lit(3)), Some(false));
            assert_eq!(assignment.get(&lit(2)), Some(true));
            assert_eq!(assignment.get(&lit(1)), Some(false));
        }
        _ => panic!("the third cube is solved"),
    }
    let mut answers = Vec::new();
    for cube in cubes {
        answers.push(conquer_cube(cube).is_some());
    }
    assert_eq!(answers, vec![true, true, true]);
}

#[test]
fn a_falsified_branch_is_a_refuted_cube() {
    let cnf = formula(1, &[&[1], &[-1]]);
    let cubes = split_cubes(SolverState::from_cnf(&cnf), 3);
    assert_eq!(cubes.len(), 1);
    assert!(matches!(cubes[0], Cube::Refuted));
    assert!(conquer_cube(Cube::Refuted).is_none());
}

#[test]
fn the_first_model_wins_and_else_the_first_refutation() {
    let model = solve_cdcl(&formula(1, &[&[1]])).into_assignment().unwrap();
    let other = solve_cdcl(&formula(1, &[&[-1]])).into_assignment().unwrap();
    let empty = Clause { literals: vec![] };
    assert_eq!(
        combine_answers(vec![
            None,
            Some(SolverResult::Unsatisfiable(vec![clause(&[1]), clause(&[])])),
            Some(SolverResult::Satisfiable(model.clone())),
            Some(SolverResult::Satisfiable(other)),
        ]),
        SolverResult::Satisfiable(model)
    );
    assert_eq!(
        combine_answers(vec![
            None,
            Some(SolverResult::Unsatisfiable(vec![clause(&[1]), clause(&[])])),
            Some(SolverResult::Unsatisfiable(vec![clause(&[])])),
        ]),
        SolverResult::Unsatisfiable(vec![clause(&[1]), clause(&[])])
    );
    assert_eq!(
        combine_answers(vec![None, None]),
        SolverResult::Unsatisfiable(vec![empty.clone()])
    );
    assert_eq!(
        combine_answers(vec![]),
        SolverResult::Unsatisfiable(vec![empty])
    );
}

#[test]
fn a_solved_cube_answers_with_its_assignment() {
    let model = solve_cdcl(&formula(1, &[&[1]])).into_assignment().unwrap();
    assert_eq!(
        conquer_cube(Cube::Solved(model.clone())),
        Some(SolverResult::Satisfiable(model))
    );
    let cnf = formula(2, &[&[1, 2], &[-1], &[-2]]);
    let open = Cube::Open(SolverState::from_cnf(&cnf));
    assert!(conquer_cube(open).is_some_and(|answer| answer.is_unsatisfiable()));
}

// A refutation read again from outside the library: each clause in turn must
// follow by reverse unit propagation from the formula and the clauses before it.
fn follows_by_unit_propagation(clauses: &[Clause], num_vars: usize, target: &Clause) -> bool {
    let mut value: Vec<Option<bool>> = vec![None; num_vars];
    for l in &target.literals {
        let wanted = l.value == Val::False;
        match value[l.var.index - 1] {
            Some(v) if v != wanted => return true,
            _ => value[l.var.index - 1] = Some(wanted),
        }
    }
    loop {
        let mut changed = false;
        for c in clauses {
            let mut open = Vec::new();
            let mut satisfied = false;
            for l in &c.literals {
                match value[l.var.index - 1] {
                    None => open.push(*l),
                    Some(v) => satisfied |= v == (l.value == Val::True),
                }
            }
            if satisfied {
                continue;
            }
            open.dedup();
            match open.len() {
                0 => return true,
                1 => {
                    value[open[0].var.index - 1] = Some(open[0].value == Val::True);
                    changed = true;
                }
                _ => {}
            }
        }
        if !changed {
            return false;
        }
    }
}

fn holds_when_read_again(cnf: &CnfFormula, refutation: &[Clause]) -> bool {
    let mut clauses = cnf.clauses.clone();
    for step in refutation {
        if !follows_by_unit_propagation(&clauses, cnf.num_vars, step) {
            return false;
        }
        clauses.push(step.clone());
    }
    refutation.last().is_some_and(|c| c.literals.is_empty())
}

fn hard_unsatisfiable() -> Vec<CnfFormula> {
    vec![
        formula(2, &[&[1, 2], &[1, -2], &[-1, 2], &[-1, -2]]),
        formula(
            3,
            &[
                &[1, 2, 3],
                &[1, 2, -3],
                &[1, -2, 3],
                &[1, -2, -3],
                &[-1, 2, 3],
                &[-1, 2, -3],
                &[-1, -2, 3],
                &[-1, -2, -3],
            ],
        ),
        formula(
            6,
            &[
                &[1, 2],
                &[3, 4],
                &[5, 6],
                &[-1, -3],
                &[-1, -5],
                &[-3, -5],
                &[-2, -4],
                &[-2, -6],
                &[-4, -6],
            ],
        ),
        // Four pigeons, three holes.
        formula(
            12,
            &[
                &[1, 2, 3],
                &[4, 5, 6],
                &[7, 8, 9],
                &[10, 11, 12],
                &[-1, -4],
                &[-1, -7],
                &[-1, -10],
                &[-4, -7],
                &[-4, -10],
                &[-7, -10],
                &[-2, -5],
                &[-2, -8],
                &[-2, -11],
                &[-5, -8],
                &[-5, -11],
                &[-8, -11],
                &[-3, -6],
                &[-3, -9],
                &[-3, -12],
                &[-6, -9],
                &[-6, -12],
                &[-9, -12],
            ],
        ),
    ]
}

#[test]
fn refutations_hold_when_read_again() {
    for cnf in hard_unsatisfiable() {
        for policy in [UipPolicy::First, UipPolicy::Last] {
            match solve_cdcl_with_policy(SolverState::from_cnf(&cnf), policy) {
                SolverResult::Unsatisfiable(refutation) => {
                    assert!(holds_when_read_again(&cnf, &refutation));
                }
                SolverResult::Satisfiable(_) => panic!("the formula has no model"),
            }
        }
        match solve_cnc(&cnf, 0) {
            SolverResult::Unsatisfiable(refutation) => {
                assert!(holds_when_read_again(&cnf, &refutation));
            }
            SolverResult::Satisfiable(_) => panic!("the formula has no model"),
        }
        assert!(solve_cdcl_first_uip(&cnf).is_none());
        assert!(solve_dpll(&cnf).is_unsatisfiable());
        assert!(solve_backtrack(&cnf).is_unsatisfiable());
        assert!(solve_basic(&cnf).is_unsatisfiable());
    }
}

#[test]
fn a_search_from_a_state_with_pure_decisions_and_an_empty_clause() {
    let cnf = formula(2, &[&[1, 2], &[]]);
    let mut state = SolverState::from_cnf(&cnf);
    state.pure_literal_eliminate();
    assert_eq!(state.decision_level, 2);
    assert_eq!(
        solve_cdcl_from_state(state),
        SolverResult::Unsatisfiable(vec![Clause { literals: vec![] }])
    );
    assert!(solve_cnc(&cnf, 0).is_unsatisfiable());
    assert!(solve_cnc(&cnf, 1).is_unsatisfiable());
}

fn values(assignment: &satsolver::assignment::Assignment) -> Vec<bool> {
    (1..=assignment.num_vars())
        .map(|i| assignment.get(&lit(i as i64)).unwrap())
        .collect()
}

#[test]
fn enumeration_and_backtracking_find_the_first_model() {
    let formulas = [
        formula(3, &[]),
        formula(3, &[&[2], &[3]]),
        formula(4, &[&[1, 2, 3], &[-1, -2], &[-2, -3], &[-1, -3], &[4, 1]]),
        formula(
            6,
            &[
                &[1, 2],
                &[-1, 3],
                &[-3, 4],
                &[-2, 5],
                &[-5, -4, 6],
                &[-6, -1],
                &[2, 6],
            ],
        ),
    ];
    let firsts = [
        vec![false, false, false],
        vec![false, true, true],
        vec![false, false, true, true],
        vec![false, true, false, false, true, false],
    ];
    for (cnf, first) in formulas.iter().zip(firsts) {
        let basic = solve_basic(cnf).into_assignment().unwrap();
        let backtrack = solve_backtrack(cnf).into_assignment().unwrap();
        assert_eq!(values(&basic), first);
        assert_eq!(values(&backtrack), first);
    }
}
