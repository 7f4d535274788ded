use satsolver::assignment::Assignment;
use satsolver::formula::{Clause, CnfFormula, Lit, Val, Var};
use satsolver::solve_cdcl::ConflictingLits;
use satsolver::solver_state::SolverState;
use satsolver::text::{push_joined, push_number};

fn lit(number: i64) -> Lit {
    Lit {
        var: Var {
            index: number.unsigned_abs() as usize,
        },
        value: if number > 0 { Val::True } else { Val::False },
    }
}

fn clause(numbers: &[i64]) -> Clause {
    Clause {
        literals: numbers.iter().map(|&n| lit(n)).collect(),
    }
}

#[test]
fn numbers_in_decimal() {
    for (n, text) in [(0, "0"), (7, "7"), (10, "10"), (409, "409"), (1234567890, "1234567890")] {
        let mut out = String::from(">");
        push_number(&mut out, n);
        assert_eq!(out, format!(">{text}"));
    }
}

#[test]
fn texts_joined() {
    let mut out = String::from("[");
    push_joined(&mut out, &vec![], ", ");
    assert_eq!(out, "[");
    push_joined(&mut out, &vec![String::from("a")], ", ");
    assert_eq!(out, "[a");
    push_joined(
        &mut out,
        &vec![String::from("b"), String::new(), String::from("c")],
        "; ",
    );
    assert_eq!(out, "[ab; ; c");
}

#[test]
fn literals_clauses_and_formulas_as_text() {
    assert_eq!(lit(12).to_text(), "x12");
    assert_eq!(lit(-3).to_text(), "-x3");
    assert_eq!(clause(&[1, -2, 30]).to_text(), "(x1 V -x2 V x30)");
    assert_eq!(clause(&[-1]).to_text(), "(-x1)");
    assert_eq!(clause(&[]).to_text(), "()");
    let cnf = CnfFormula {
        num_vars: 3,
        clauses: vec![clause(&[1, -2]), clause(&[3])],
    };
    assert_eq!(cnf.to_text(), "((x1 V -x2) ^ (x3))");
    let none = CnfFormula {
        num_vars: 3,
        clauses: vec![],
    };
    assert_eq!(none.to_text(), "()");
}

#[test]
fn assignments_and_states_as_text() {
    let mut a = Assignment::empty(12);
    assert_eq!(a.to_text(), "[]");
    a.set(Var { index: 12 }, Val::False, 10);
    a.set(Var { index: 2 }, Val::True, 0);
    assert_eq!(a.to_text(), "[x2=true(d0), x12=false(d10)]");
    let filled = Assignment::empty(1).fill_unassigned();
    assert_eq!(filled.to_text(), "[x1=false(d4294967295)]");

    let cnf = CnfFormula {
        num_vars: 3,
        clauses: vec![clause(&[1, 2, 3]), clause(&[-1])],
    };
    let mut state = SolverState::from_cnf(&cnf);
    state.unit_propagate();
    state.decide(Var { index: 2 }, Val::True);
    assert_eq!(
        state.to_text(),
        "Assignment: [x1=false(d0), x2=true(d1)]\nFormula: ((x1 V x2 V x3) ^ (-x1))"
    );
    assert_eq!(state.trail[0].to_text(), "-x1(U)");
    assert_eq!(state.trail[1].to_text(), "x2(D)");
}

#[test]
fn conflicting_literals_as_text() {
    let cnf = CnfFormula {
        num_vars: 3,
        clauses: vec![clause(&[-3, -1, 2])],
    };
    let mut state = SolverState::from_cnf(&cnf);
    state.decide(Var { index: 2 }, Val::False);
    state.decide(Var { index: 3 }, Val::True);
    state.decide(Var { index: 1 }, Val::True);
    let conflict = ConflictingLits::new(&cnf.clauses[0], &state);
    assert_eq!(conflict.to_text(), "-x2(1) ^ x3(2) ^ x1(3) -> \u{f8}");
    assert_eq!(conflict.get_conflict_level(), 3);
    assert_eq!(conflict.get_backjump_level(), 2);
    assert!(conflict.has_unique_top());
    assert!(!conflict.is_empty());
    assert!(conflict.contains(lit(3)));
    assert!(!conflict.contains(lit(-3)));
    assert_eq!(conflict.get_learned_clause(), clause(&[2, -3, -1]));
}

#[test]
fn conflicting_literals_are_kept_in_order_without_repeats() {
    let cnf = CnfFormula {
        num_vars: 4,
        clauses: vec![
            clause(&[-4, 2, -1, -3, 2]),
            clause(&[4]),
            clause(&[-2]),
            clause(&[-3, 1]),
        ],
    };
    let mut state = SolverState::from_cnf(&cnf);
    state.assign_unitprop(Var { index: 4 }, Val::True, clause(&[4]));
    state.assign_unitprop(Var { index: 2 }, Val::False, clause(&[-2]));
    state.decide(Var { index: 3 }, Val::True);
    state.assign_unitprop(Var { index: 1 }, Val::True, clause(&[-3, 1]));
    let mut conflict = ConflictingLits::new(&cnf.clauses[0], &state);
    // By level, then by variable; at level 0, -x2 comes before x4.
    assert_eq!(conflict.to_text(), "-x2(0) ^ x4(0) ^ x1(1) ^ x3(1) -> \u{f8}");
    assert!(!conflict.has_unique_top());
    conflict.insert(lit(3), &state);
    assert_eq!(conflict.to_text(), "-x2(0) ^ x4(0) ^ x1(1) ^ x3(1) -> \u{f8}");
    // x1 was inferred from (-x3 x1): it goes out, and x3 is there already.
    conflict.update(&state, 3);
    assert_eq!(conflict.to_text(), "-x2(0) ^ x4(0) ^ x3(1) -> \u{f8}");
    assert!(conflict.has_unique_top());
    assert_eq!(conflict.get_backjump_level(), 0);
    conflict.remove(lit(-2), &state);
    conflict.remove(lit(-2), &state);
    assert_eq!(conflict.to_text(), "x4(0) ^ x3(1) -> \u{f8}");
    conflict.remove(lit(4), &state);
    assert_eq!(conflict.get_learned_clause(), clause(&[-3]));
    assert_eq!(conflict.get_backjump_level(), 0);
}
