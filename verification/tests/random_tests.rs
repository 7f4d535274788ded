use satsolver::random::{generate_random_cnf, pick_unchosen};
use std::collections::HashSet;

#[test]
fn test_generate_random_cnf_basic() {
    let formula = generate_random_cnf(5, 3, 10);

    assert_eq!(formula.num_vars, 5);
    assert_eq!(formula.clauses.len(), 10);

    // Check that each clause has exactly 3 literals
    for clause in &formula.clauses {
        assert_eq!(clause.literals.len(), 3);
    }
}

#[test]
fn test_clause_has_unique_variables() {
    let formula = generate_random_cnf(10, 4, 5);

    for clause in &formula.clauses {
        let mut var_indices = HashSet::new();
        for lit in &clause.literals {
            assert!(
                var_indices.insert(lit.var.index),
                "Duplicate variable in clause"
            );
            assert!(
                lit.var.index >= 1 && lit.var.index <= 10,
                "Variable index out of range"
            );
        }
    }
}

#[test]
fn test_edge_cases() {
    // Single variable, single clause
    let formula = generate_random_cnf(1, 1, 1);
    assert_eq!(formula.num_vars, 1);
    assert_eq!(formula.clauses.len(), 1);
    assert_eq!(formula.clauses[0].literals.len(), 1);
    assert_eq!(formula.clauses[0].literals[0].var.index, 1);

    // All variables in each clause
    let formula = generate_random_cnf(3, 3, 2);
    for clause in &formula.clauses {
        assert_eq!(clause.literals.len(), 3);
        let var_indices: HashSet<_> = clause.literals.iter().map(|lit| lit.var.index).collect();
        assert_eq!(var_indices, [1, 2, 3].iter().cloned().collect());
    }
}

#[test]
fn no_clause_and_no_literal() {
    let formula = generate_random_cnf(4, 2, 0);
    assert_eq!(formula.num_vars, 4);
    assert!(formula.clauses.is_empty());
    let formula = generate_random_cnf(0, 0, 3);
    assert_eq!(formula.clauses.len(), 3);
    assert!(formula.clauses.iter().all(|c| c.literals.is_empty()));
}

#[test]
fn many_draws_stay_in_range_and_use_both_signs() {
    let formula = generate_random_cnf(7, 7, 200);
    let mut values = HashSet::new();
    let mut firsts = HashSet::new();
    for clause in &formula.clauses {
        let vars: HashSet<_> = clause.literals.iter().map(|lit| lit.var.index).collect();
        assert_eq!(vars, (1..=7).collect());
        firsts.insert(clause.literals[0].var.index);
        for lit in &clause.literals {
            values.insert(lit.value);
        }
    }
    assert_eq!(values.len(), 2);
    assert!(firsts.len() > 1);
}

#[test]
fn the_rank_counts_the_numbers_not_chosen() {
    assert_eq!(pick_unchosen(&vec![], 1), (1, 0));
    assert_eq!(pick_unchosen(&vec![], 4), (4, 0));
    assert_eq!(pick_unchosen(&vec![2, 3, 7], 1), (1, 0));
    assert_eq!(pick_unchosen(&vec![2, 3, 7], 2), (4, 2));
    assert_eq!(pick_unchosen(&vec![2, 3, 7], 4), (6, 2));
    assert_eq!(pick_unchosen(&vec![2, 3, 7], 5), (8, 3));
    assert_eq!(pick_unchosen(&vec![1, 2, 3], 1), (4, 3));
}
