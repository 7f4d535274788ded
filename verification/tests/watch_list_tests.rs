use satsolver::assignment::Assignment;
use satsolver::formula::{Clause, Lit, Val, Var};
use satsolver::solver_state::Status;
use satsolver::watch_list::WatchList;

fn lit(number: i64) -> Lit {
    Lit {
        var: Var {
            index: number.unsigned_abs() as usize,
        },
        value: if number > 0 { Val::True } else { Val::False },
    }
}

fn clause(numbers: &[i64]) -> Clause {
    Clause {
        literals: numbers.iter().map(|&n| lit(n)).collect(),
    }
}

fn watching(clauses: &[Clause], num_vars: usize) -> WatchList {
    let mut list = WatchList::new(num_vars);
    for (i, clause) in clauses.iter().enumerate() {
        list.add_clause(i, clause);
    }
    list
}

#[test]
fn a_new_list_has_no_status() {
    let list = WatchList::new(3);
    assert_eq!(list.get_cached_status(), None);
    assert_eq!(list, WatchList::new(3));
    assert_ne!(list, WatchList::new(2));
}

#[test]
fn adding_a_clause_changes_the_lists() {
    let mut list = WatchList::new(3);
    list.add_clause(0, &clause(&[1, -2, 3]));
    assert_ne!(list, WatchList::new(3));
    assert_eq!(list.get_cached_status(), None);
}

#[test]
fn a_satisfied_blocking_literal_leaves_the_clause_alone() {
    let clauses = [clause(&[1, 2, 3])];
    let mut list = watching(&clauses, 3);
    let before = watching(&clauses, 3);
    let mut a = Assignment::empty(3);
    a.set(Var { index: 2 }, Val::True, 0);
    a.set(Var { index: 1 }, Val::False, 0);
    list.update_for_assignment(lit(-1), &a, &clauses);
    assert_eq!(list.get_cached_status(), None);
    assert_eq!(list, before);
}

#[test]
fn the_watch_moves_to_a_literal_that_is_not_falsified() {
    let clauses = [clause(&[1, 2, 3])];
    let mut list = watching(&clauses, 3);
    let mut a = Assignment::empty(3);
    a.set(Var { index: 1 }, Val::False, 0);
    list.update_for_assignment(lit(-1), &a, &clauses);
    assert_eq!(list.get_cached_status(), None);
    // The clause now watches 3 in place of 1: falsifying 3 leaves it unit on 2.
    a.set(Var { index: 3 }, Val::False, 0);
    list.update_for_assignment(lit(-3), &a, &clauses);
    assert_eq!(
        list.get_cached_status(),
        Some(&Status::UnassignedUnit(lit(2), clause(&[1, 2, 3])))
    );
}

#[test]
fn a_clause_without_replacement_is_unit_or_falsified() {
    let clauses = [clause(&[1, 2])];
    let mut list = watching(&clauses, 2);
    let mut a = Assignment::empty(2);
    a.set(Var { index: 1 }, Val::False, 0);
    list.update_for_assignment(lit(-1), &a, &clauses);
    assert_eq!(
        list.get_cached_status(),
        Some(&Status::UnassignedUnit(lit(2), clause(&[1, 2])))
    );
    list.clear_status();
    assert_eq!(list.get_cached_status(), None);
    a.set(Var { index: 2 }, Val::False, 0);
    list.update_for_assignment(lit(-2), &a, &clauses);
    assert_eq!(
        list.get_cached_status(),
        Some(&Status::Falsified(clause(&[1, 2])))
    );
}

#[test]
fn the_first_unit_clause_found_is_kept_and_a_falsified_one_wins() {
    let clauses = [clause(&[1, 2]), clause(&[1, 3]), clause(&[1, 4])];
    let mut list = watching(&clauses, 4);
    let mut a = Assignment::empty(4);
    a.set(Var { index: 1 }, Val::False, 0);
    list.update_for_assignment(lit(-1), &a, &clauses);
    assert_eq!(
        list.get_cached_status(),
        Some(&Status::UnassignedUnit(lit(2), clause(&[1, 2])))
    );
    let mut list = watching(&clauses, 4);
    a.set(Var { index: 4 }, Val::False, 0);
    list.update_for_assignment(lit(-1), &a, &clauses);
    assert_eq!(
        list.get_cached_status(),
        Some(&Status::Falsified(clause(&[1, 4])))
    );
}

#[test]
fn a_clause_of_one_literal_is_falsified_by_its_negation() {
    let clauses = [clause(&[-2])];
    let mut list = watching(&clauses, 2);
    let mut a = Assignment::empty(2);
    a.set(Var { index: 2 }, Val::True, 0);
    list.update_for_assignment(lit(2), &a, &clauses);
    assert_eq!(
        list.get_cached_status(),
        Some(&Status::Falsified(clause(&[-2])))
    );
}

#[test]
fn an_update_forgets_the_status_before() {
    let clauses = [clause(&[1, 2])];
    let mut list = watching(&clauses, 3);
    let mut a = Assignment::empty(3);
    a.set(Var { index: 1 }, Val::False, 0);
    list.update_for_assignment(lit(-1), &a, &clauses);
    assert!(list.get_cached_status().is_some());
    a.set(Var { index: 3 }, Val::True, 0);
    list.update_for_assignment(lit(3), &a, &clauses);
    assert_eq!(list.get_cached_status(), None);
}
