use satsolver::formula::{Clause, CnfFormula, Lit, Val, Var};
use satsolver::parser::{
    output_dimacs, output_drat, parse_dimacs, parse_dimacs_str, token_at, OutputError,
    ParseError,
};
use satsolver::solve_cdcl::solve_cdcl;
use satsolver::solver_state::SolverResult;

#[test]
fn test_parse_var_out_of_bounds() {
    let cnf = parse_dimacs(b"p cnf 3 3\n1 2 0\n1 -2 0\n3 -4 0");
    assert!(cnf.is_err());
}

#[test]
fn test_parse_too_few_clauses() {
    let cnf = parse_dimacs(b"p cnf 3 3\n1 2 0\n1 -2 0");
    assert!(cnf.is_err());
}

#[test]
fn test_parse_too_many_clauses() {
    let cnf = parse_dimacs(b"p cnf 3 2\n1 2 0\n1 -2 0\n3 -2 0");
    assert!(cnf.is_err());
}

#[test]
fn test_parse_normal() {
    let cnf = parse_dimacs(
        b"c comment\np cnf 5 5\n1 2 0\n1 -2 0\nc another comment\n3 4 0\n3 -4 0\n-1 -3 0",
    );
    assert!(cnf.is_ok());
    assert_eq!(
        cnf.unwrap(),
        CnfFormula {
            num_vars: 5,
            clauses: vec![
                Clause {
                    literals: vec![
                        Lit {
                            var: Var { index: 1 },
                            value: Val::True
                        },
                        Lit {
                            var: Var { index: 2 },
                            value: Val::True
                        }
                    ]
                },
                Clause {
                    literals: vec![
                        Lit {
                            var: Var { index: 1 },
                            value: Val::True
                        },
                        Lit {
                            var: Var { index: 2 },
                            value: Val::False
                        }
                    ]
                },
                Clause {
                    literals: vec![
                        Lit {
                            var: Var { index: 3 },
                            value: Val::True
                        },
                        Lit {
                            var: Var { index: 4 },
                            value: Val::True
                        }
                    ]
                },
                Clause {
                    literals: vec![
                        Lit {
                            var: Var { index: 3 },
                            value: Val::True
                        },
                        Lit {
                            var: Var { index: 4 },
                            value: Val::False
                        }
                    ]
                },
                Clause {
                    literals: vec![
                        Lit {
                            var: Var { index: 1 },
                            value: Val::False
                        },
                        Lit {
                            var: Var { index: 3 },
                            value: Val::False
                        }
                    ]
                },
            ]
        }
    );
}

#[test]
fn parse_errors_are_told_apart() {
    assert_eq!(parse_dimacs(b""), Err(ParseError::InvalidHeader));
    assert_eq!(parse_dimacs(b"p cnf 3"), Err(ParseError::InvalidHeader));
    assert_eq!(parse_dimacs(b"q cnf 3 1\n1 0"), Err(ParseError::InvalidHeader));
    assert_eq!(parse_dimacs(b"p dnf 3 1\n1 0"), Err(ParseError::InvalidHeader));
    assert_eq!(parse_dimacs(b"1 2 0\np cnf 3 1"), Err(ParseError::InvalidHeader));
    assert_eq!(
        parse_dimacs(b"p cnf x 1\n1 0"),
        Err(ParseError::InvalidVariableCount)
    );
    assert_eq!(
        parse_dimacs(b"p cnf -3 1\n1 0"),
        Err(ParseError::InvalidVariableCount)
    );
    assert_eq!(
        parse_dimacs(b"p cnf 3 one\n1 0"),
        Err(ParseError::InvalidClauseCount)
    );
    assert_eq!(
        parse_dimacs(b"p cnf 3 3\n1 2 0\n1 -2 0\n3 -4 0"),
        Err(ParseError::InvalidLiteral(7))
    );
    assert_eq!(
        parse_dimacs(b"p cnf 3 1\n1 a 0"),
        Err(ParseError::InvalidLiteral(1))
    );
    assert_eq!(
        parse_dimacs(b"p cnf 3 1\n1 - 0"),
        Err(ParseError::InvalidLiteral(1))
    );
    assert_eq!(
        parse_dimacs(b"p cnf 3 1\n99999999999999999999999999 0"),
        Err(ParseError::InvalidLiteral(0))
    );
    assert_eq!(
        parse_dimacs(b"p cnf 3 3\n1 2 0\n1 -2 0"),
        Err(ParseError::WrongClauseCount)
    );
    assert_eq!(
        parse_dimacs(b"p cnf 3 2\n1 2 0\n1 -2 0\n3 -2 0"),
        Err(ParseError::WrongClauseCount)
    );
}

#[test]
fn an_invalid_literal_comes_before_a_wrong_count() {
    assert_eq!(
        parse_dimacs(b"p cnf 2 5\n1 2 0\n3 0"),
        Err(ParseError::InvalidLiteral(3))
    );
}

#[test]
fn parse_error_descriptions() {
    assert_eq!(ParseError::InvalidHeader.describe(), "Invalid DIMACS header");
    assert_eq!(
        ParseError::InvalidVariableCount.describe(),
        "Invalid number of variables"
    );
    assert_eq!(
        ParseError::InvalidClauseCount.describe(),
        "Invalid number of clauses"
    );
    assert_eq!(ParseError::InvalidLiteral(2).describe(), "Invalid literal");
    assert_eq!(
        ParseError::WrongClauseCount.describe(),
        "Incorrect number of clauses"
    );
}

#[test]
fn clause_count_equals_the_header() {
    let cnf = parse_dimacs(b"c x\np cnf 4 3\n1 2 0\n-3 0\n4 -1 2 0\n").unwrap();
    assert_eq!(cnf.num_vars, 4);
    assert_eq!(cnf.clauses.len(), 3);
    assert_eq!(cnf.clauses[2].literals.len(), 3);
}

#[test]
fn comments_spaces_and_trailer_are_passed_over() {
    let cnf = parse_dimacs(b"c p cnf 9 9\np   cnf\t2 2\r\n+1 -2 0\n\nc 1 0\n 2\n0\n%\n0\n").unwrap();
    assert_eq!(
        cnf,
        CnfFormula {
            num_vars: 2,
            clauses: vec![
                Clause {
                    literals: vec![
                        Lit {
                            var: Var { index: 1 },
                            value: Val::True
                        },
                        Lit {
                            var: Var { index: 2 },
                            value: Val::False
                        }
                    ]
                },
                Clause {
                    literals: vec![Lit {
                        var: Var { index: 2 },
                        value: Val::True
                    }]
                },
            ]
        }
    );
}

#[test]
fn a_line_is_a_comment_only_if_c_comes_first() {
    assert_eq!(
        parse_dimacs(b"p cnf 1 1\n c 1 0\n"),
        Err(ParseError::InvalidLiteral(0))
    );
}

#[test]
fn zeros_in_a_row_start_no_clause_and_the_last_zero_may_be_missing() {
    let cnf = parse_dimacs(b"p cnf 3 2\n0 0 1 2 0 0 -0 +0 3").unwrap();
    assert_eq!(cnf.clauses.len(), 2);
    assert_eq!(cnf.clauses[0].literals.len(), 2);
    assert_eq!(
        cnf.clauses[1].literals,
        vec![Lit {
            var: Var { index: 3 },
            value: Val::True
        }]
    );
}

#[test]
fn no_clause_at_all() {
    let cnf = parse_dimacs(b"p cnf 0 0").unwrap();
    assert_eq!(cnf.num_vars, 0);
    assert!(cnf.clauses.is_empty());
}

#[test]
fn a_trailer_before_the_header_is_complete_makes_the_header_invalid() {
    assert_eq!(parse_dimacs(b"p cnf % 0"), Err(ParseError::InvalidHeader));
}

#[test]
fn parsing_a_string_is_parsing_its_bytes() {
    let text = "p cnf 2 1\n1 -2 0\n";
    assert_eq!(parse_dimacs_str(text), parse_dimacs(text.as_bytes()));
    assert_eq!(parse_dimacs_str("p cnf"), Err(ParseError::InvalidHeader));
}

#[test]
fn output_of_an_unsatisfiable_answer() {
    assert_eq!(output_dimacs(&None), Ok(b"s UNSATISFIABLE\n".to_vec()));
}

#[test]
fn output_of_a_model_lists_each_variable_once() {
    let cnf = parse_dimacs(b"p cnf 12 3\n1 0\n-2 0\n-12 0").unwrap();
    let answer = solve_cdcl(&cnf).into_assignment();
    assert_eq!(
        output_dimacs(&answer),
        Ok(b"s SATISFIABLE\nv 1 -2 -3 -4 -5 -6 -7 -8 -9 -10 -11 -12\n".to_vec())
    );
}

#[test]
fn output_of_a_model_over_no_variable() {
    let cnf = parse_dimacs(b"p cnf 0 0").unwrap();
    let answer = solve_cdcl(&cnf).into_assignment();
    assert_eq!(output_dimacs(&answer), Ok(b"s SATISFIABLE\nv\n".to_vec()));
}

#[test]
fn output_refuses_a_partial_assignment() {
    let partial = satsolver::assignment::Assignment::empty(2);
    assert_eq!(
        output_dimacs(&Some(partial)),
        Err(OutputError::InvalidAssignment)
    );
}

#[test]
fn the_model_line_parses_back_to_one_literal_for_each_variable() {
    let cnf = parse_dimacs(b"p cnf 11 2\n-1 0\n10 11 0").unwrap();
    let answer = solve_cdcl(&cnf).into_assignment();
    let out = output_dimacs(&answer).unwrap();
    let text = String::from_utf8(out).unwrap();
    let line = text.lines().nth(1).unwrap();
    let mut again = String::from("p cnf 11 1\n");
    again.push_str(&line[1..]);
    let parsed = parse_dimacs_str(&again).unwrap();
    let literals = &parsed.clauses[0].literals;
    assert_eq!(literals.len(), 11);
    for (i, lit) in literals.iter().enumerate() {
        assert_eq!(lit.var.index, i + 1);
        assert_eq!(
            answer.as_ref().unwrap().get(lit),
            Some(true)
        );
    }
}

#[test]
fn drat_lines() {
    let refutation = vec![
        Clause {
            literals: vec![
                Lit {
                    var: Var { index: 10 },
                    value: Val::False,
                },
                Lit {
                    var: Var { index: 3 },
                    value: Val::True,
                },
            ],
        },
        Clause { literals: vec![] },
    ];
    assert_eq!(output_drat(&refutation), b"-10 3 0\n0\n".to_vec());
    assert_eq!(output_drat(&Vec::new()), Vec::<u8>::new());
}

#[test]
fn the_refutation_ends_with_the_empty_clause() {
    let cnf = parse_dimacs(b"p cnf 5 5\n1 2 0\n1 -2 0\n3 4 0\n3 -4 0\n-1 -3 0").unwrap();
    match solve_cdcl(&cnf) {
        SolverResult::Unsatisfiable(refutation) => {
            let out = String::from_utf8(output_drat(&refutation)).unwrap();
            assert_eq!(out.lines().last(), Some("0"));
            assert!(out.ends_with("\n"));
        }
        SolverResult::Satisfiable(_) => panic!("the formula has no model"),
    }
}

#[test]
fn tokens_by_position() {
    let text = b"c no\np cnf 2 1\n 1 x2 0\n";
    assert_eq!(token_at(text, 0), Some(b"p".to_vec()));
    assert_eq!(token_at(text, 3), Some(b"1".to_vec()));
    assert_eq!(token_at(text, 5), Some(b"x2".to_vec()));
    assert_eq!(token_at(text, 6), Some(b"0".to_vec()));
    assert_eq!(token_at(text, 7), None);
    assert_eq!(parse_dimacs(text), Err(ParseError::InvalidLiteral(1)));
}
