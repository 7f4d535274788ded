//! Three plain solvers: enumeration, backtracking, and DPLL.

use crate::assignment::{
    agrees, all_rows, assignment_of_row, is_total, lit_falsified, lit_satisfied, lit_unassigned,
    model_of, unassigned_all, with_head, Assignment, Record,
};
use crate::formula::{
    clause_holds, clause_in_range, clauses_in_range, entails, is_model, lit_holds, satisfiable,
    Clause, CnfFormula, Lit, Val, Var,
};
use crate::inspection::{
    all_satisfied, clause_falsified, clause_satisfied, first_falsified_at, last_unit_at,
    lemma_filled_satisfies, occurs, pure_value, unit_at,
};
use crate::solver_state::{
    branch_on_variable, check_assignment, decides, lemma_push_wf, SolverResult, SolverState,
    StateView, Status,
};
use crate::trail::{lemma_replay_len, lemma_trail_len, ReasonView};
use vstd::prelude::*;

verus! {

/// Every row over `num_vars` variables has `num_vars` positions.
pub proof fn lemma_rows_len(num_vars: nat, i: int)
    requires
        0 <= i < all_rows(num_vars).len(),
    ensures
        all_rows(num_vars)[i].len() == num_vars,
    decreases num_vars,
{
    if num_vars > 0 {
        let shorter = all_rows((num_vars - 1) as nat);
        if i < shorter.len() {
            lemma_rows_len((num_vars - 1) as nat, i);
            assert(all_rows(num_vars)[i] == with_head(false, shorter)[i]);
        } else {
            lemma_rows_len((num_vars - 1) as nat, i - shorter.len());
            assert(all_rows(num_vars)[i] == with_head(true, shorter)[i - shorter.len()]);
        }
    }
}

/// Every sequence of `num_vars` Booleans is one of the rows.
pub proof fn lemma_rows_complete(num_vars: nat, row: Seq<bool>) -> (i: int)
    requires
        row.len() == num_vars,
    ensures
        0 <= i < all_rows(num_vars).len(),
        all_rows(num_vars)[i] == row,
    decreases num_vars,
{
    if num_vars == 0 {
        assert(row =~= Seq::<bool>::empty());
        0
    } else {
        let shorter = all_rows((num_vars - 1) as nat);
        let tail = row.drop_first();
        let j = lemma_rows_complete((num_vars - 1) as nat, tail);
        assert(seq![row[0]] + tail =~= row);
        if row[0] {
            assert(all_rows(num_vars)[shorter.len() + j] == with_head(true, shorter)[j]);
            shorter.len() + j
        } else {
            assert(all_rows(num_vars)[j] == with_head(false, shorter)[j]);
            j
        }
    }
}

/// The assignment of a row satisfies every clause exactly when the row is a model.
pub proof fn lemma_row_model(row: Seq<bool>, clauses: Seq<Seq<Lit>>)
    requires
        clauses_in_range(clauses, row.len()),
    ensures
        all_satisfied(assignment_of_row(row), clauses) <==> is_model(row, clauses),
{
    let a = assignment_of_row(row);
    assert forall|i: int| 0 <= i < clauses.len() implies (clause_satisfied(
        a,
        #[trigger] clauses[i],
    ) <==> clause_holds(row, clauses[i])) by {
        let clause = clauses[i];
        assert(clause_in_range(clause, row.len()));
        if clause_satisfied(a, clause) {
            let j = choose|j: int| 0 <= j < clause.len() && lit_satisfied(a, #[trigger] clause[j]);
            assert(clause[j].in_range(row.len()));
            assert(lit_holds(row, clause[j]));
        }
        if clause_holds(row, clause) {
            let j = choose|j: int| 0 <= j < clause.len() && lit_holds(row, #[trigger] clause[j]);
            assert(clause[j].in_range(row.len()));
            assert(lit_satisfied(a, clause[j]));
        }
    }
    if all_satisfied(a, clauses) {
        assert forall|i: int| 0 <= i < clauses.len() implies clause_holds(
            row,
            #[trigger] clauses[i],
        ) by {
            assert(clause_satisfied(a, clauses[i]));
        }
    }
    if is_model(row, clauses) {
        assert forall|i: int| 0 <= i < clauses.len() implies clause_satisfied(
            a,
            #[trigger] clauses[i],
        ) by {
            assert(clause_holds(row, clauses[i]));
        }
    }
}

/// A formula without a model entails every clause.
pub proof fn lemma_unsatisfiable_entails(num_vars: nat, clauses: Seq<Seq<Lit>>, clause: Seq<Lit>)
    requires
        !satisfiable(num_vars, clauses),
    ensures
        entails(num_vars, clauses, clause),
{
}

/// The refutation of a solver that learns nothing: the empty clause alone.
fn bare_refutation() -> (r: Vec<Clause>)
    ensures
        r@.len() == 1,
        r@[0]@.len() == 0,
{
    let mut r: Vec<Clause> = Vec::new();
    r.push(Clause { literals: Vec::new() });
    r
}

/// Decides a formula by trying every total assignment in lexicographic
/// order, false before true, and returns the first that satisfies it.
pub fn solve_basic(cnf: &CnfFormula) -> (r: SolverResult)
    requires
        cnf.wf(),
    ensures
        decides(cnf.num_vars as nat, cnf@, r),
        r matches SolverResult::Satisfiable(a) ==> exists|k: int|
            {
                &&& 0 <= k < all_rows(cnf.num_vars as nat).len()
                &&& a@ == assignment_of_row(#[trigger] all_rows(cnf.num_vars as nat)[k])
                &&& forall|j: int|
                    0 <= j < k ==> !is_model(#[trigger] all_rows(cnf.num_vars as nat)[j], cnf@)
            },
        r matches SolverResult::Satisfiable(a) ==> forall|other: Seq<bool>|
            other.len() == cnf.num_vars && #[trigger] is_model(other, cnf@) ==> lex_le(
                model_of(a@),
                other,
            ),
        r matches SolverResult::Unsatisfiable(refutation) ==> refutation@.len() == 1,
{
    let ghost n = cnf.num_vars as nat;
    let ghost rows = all_rows(n);
    let mut candidates = Assignment::every_possible(cnf.num_vars);
    let ghost mut tried: int = 0;
    loop
        invariant
            cnf.wf(),
            n == cnf.num_vars,
            rows == all_rows(n),
            0 <= tried <= rows.len(),
            candidates.remaining() == rows.skip(tried),
            forall|j: int| 0 <= j < tried ==> !is_model(#[trigger] rows[j], cnf@),
        decreases rows.len() - tried,
    {
        match candidates.next() {
            Some(assignment) => {
                proof {
                    assert(rows.skip(tried)[0] == rows[tried]);
                    lemma_rows_len(n, tried);
                    lemma_row_model(rows[tried], cnf@);
                }
                if check_assignment(cnf, &assignment) {
                    proof {
                        assert(model_of(assignment@) =~= rows[tried]);
                        assert forall|other: Seq<bool>|
                            other.len() == n && #[trigger] is_model(other, cnf@) implies lex_le(
                            model_of(assignment@),
                            other,
                        ) by {
                            let j = lemma_rows_complete(n, other);
                            if j > tried {
                                lemma_rows_ordered(n, tried, j);
                            }
                        }
                    }
                    return SolverResult::Satisfiable(assignment);
                }
                proof {
                    assert(rows.skip(tried).drop_first() =~= rows.skip(tried + 1));
                    tried = tried + 1;
                }
            },
            None => {
                let refutation = bare_refutation();
                proof {
                    assert(tried == rows.len());
                    if satisfiable(n, cnf@) {
                        let model = choose|model: Seq<bool>|
                            model.len() == n && #[trigger] is_model(model, cnf@);
                        let i = lemma_rows_complete(n, model);
                    }
                    lemma_unsatisfiable_entails(n, cnf@, refutation@[0]@);
                }
                return SolverResult::Unsatisfiable(refutation);
            },
        }
    }
}

/// The rows come in order: an earlier row comes before a later one.
pub proof fn lemma_rows_ordered(num_vars: nat, i: int, k: int)
    requires
        0 <= i < k < all_rows(num_vars).len(),
    ensures
        lex_le(all_rows(num_vars)[i], all_rows(num_vars)[k]),
    decreases num_vars,
{
    if num_vars > 0 {
        let shorter = all_rows((num_vars - 1) as nat);
        let rows = all_rows(num_vars);
        let half = shorter.len() as int;
        if i < half && half <= k {
            assert(rows[i] == with_head(false, shorter)[i]);
            assert(rows[k] == with_head(true, shorter)[k - half]);
            assert(!rows[i][0] && rows[k][0]);
        } else {
            let head = i >= half;
            let (x, y) = if head {
                (i - half, k - half)
            } else {
                (i, k)
            };
            assert(rows[i] == with_head(head, shorter)[x]);
            assert(rows[k] == with_head(head, shorter)[y]);
            lemma_rows_ordered((num_vars - 1) as nat, x, y);
            lemma_rows_len((num_vars - 1) as nat, x);
            lemma_rows_len((num_vars - 1) as nat, y);
            if shorter[x] == shorter[y] {
                assert(rows[i] =~= rows[k]);
            } else {
                let d = choose|d: int|
                    0 <= d < shorter[x].len() && d < shorter[y].len() && !(
                    #[trigger] shorter[x][d]) && shorter[y][d] && forall|j: int|
                        0 <= j < d ==> shorter[x][j] == shorter[y][j];
                assert(!rows[i][d + 1] && rows[k][d + 1]);
                assert forall|j: int| 0 <= j < d + 1 implies rows[i][j] == rows[k][j] by {
                    if j > 0 {
                        assert(rows[i][j] == shorter[x][j - 1]);
                        assert(rows[k][j] == shorter[y][j - 1]);
                    }
                }
            }
        }
    }
}

/// Whether some model of the clauses agrees with the assignment.
pub open spec fn extendable(num_vars: nat, clauses: Seq<Seq<Lit>>, a: Seq<Option<Record>>) -> bool {
    exists|model: Seq<bool>|
        model.len() == num_vars && #[trigger] is_model(model, clauses) && agrees(model, a)
}

/// A falsified clause rules out every model that agrees with the assignment.
pub proof fn lemma_falsified_not_extendable(
    num_vars: nat,
    clauses: Seq<Seq<Lit>>,
    a: Seq<Option<Record>>,
    c: int,
)
    requires
        a.len() == num_vars,
        clauses_in_range(clauses, num_vars),
        0 <= c < clauses.len(),
        clause_falsified(a, clauses[c]),
    ensures
        !extendable(num_vars, clauses, a),
{
    if extendable(num_vars, clauses, a) {
        let model = choose|model: Seq<bool>|
            model.len() == num_vars && #[trigger] is_model(model, clauses) && agrees(model, a);
        assert(clause_holds(model, clauses[c]));
        let j = choose|j: int|
            0 <= j < clauses[c].len() && lit_holds(model, #[trigger] clauses[c][j]);
        assert(clause_in_range(clauses[c], num_vars));
        assert(clauses[c][j].in_range(num_vars));
        assert(lit_falsified(a, clauses[c][j]));
        assert(a[clauses[c][j].var.index - 1] is Some);
    }
}

/// A model that agrees with the assignment agrees with it after one of the
/// two values is given to an unassigned variable.
pub proof fn lemma_branch_extendable(
    num_vars: nat,
    clauses: Seq<Seq<Lit>>,
    a: Seq<Option<Record>>,
    var: Var,
    level: u32,
)
    requires
        a.len() == num_vars,
        1 <= var.index <= num_vars,
        extendable(num_vars, clauses, a),
    ensures
        extendable(
            num_vars,
            clauses,
            a.update(var.index - 1, Some(Record { value: Val::True, decision_level: level })),
        ) || extendable(
            num_vars,
            clauses,
            a.update(var.index - 1, Some(Record { value: Val::False, decision_level: level })),
        ),
{
    let model = choose|model: Seq<bool>|
        model.len() == num_vars && #[trigger] is_model(model, clauses) && agrees(model, a);
    let value = if model[var.index - 1] {
        Val::True
    } else {
        Val::False
    };
    let b = a.update(var.index - 1, Some(Record { value, decision_level: level }));
    assert(agrees(model, b));
}

/// A model that agrees with the assignment agrees with it after the
/// literal of a unit clause of the formula is inferred.
pub proof fn lemma_unit_extendable(
    num_vars: nat,
    clauses: Seq<Seq<Lit>>,
    a: Seq<Option<Record>>,
    c: int,
    k: int,
    level: u32,
)
    requires
        a.len() == num_vars,
        clauses_in_range(clauses, num_vars),
        0 <= c < clauses.len(),
        unit_at(a, clauses[c], k),
        extendable(num_vars, clauses, a),
    ensures
        extendable(
            num_vars,
            clauses,
            a.update(
                clauses[c][k].var.index - 1,
                Some(Record { value: clauses[c][k].value, decision_level: level }),
            ),
        ),
{
    let model = choose|model: Seq<bool>|
        model.len() == num_vars && #[trigger] is_model(model, clauses) && agrees(model, a);
    let clause = clauses[c];
    let lit = clause[k];
    assert(clause_in_range(clause, num_vars));
    assert(clause_holds(model, clause));
    let j = choose|j: int| 0 <= j < clause.len() && lit_holds(model, #[trigger] clause[j]);
    if j != k {
        assert(clause[j].in_range(num_vars));
        assert(lit_falsified(a, clause[j]));
        assert(a[clause[j].var.index - 1] is Some);
    }
    assert(lit.in_range(num_vars));
    let b = a.update(lit.var.index - 1, Some(Record { value: lit.value, decision_level: level }));
    assert(agrees(model, b));
}

/// Searches below a state by giving the lowest unassigned variable first
/// false, then true.
fn solve_backtrack_rec(state: SolverState) -> (r: Option<Assignment>)
    requires
        state.wf(),
        assigned_prefix(state@.assignment),
    ensures
        match r {
            Some(a) => {
                &&& a@.len() == state@.num_vars
                &&& is_total(a@)
                &&& all_satisfied(a@, state@.clauses)
                &&& least_model(
                    state@.num_vars,
                    state@.clauses,
                    state@.assignment,
                    model_of(a@),
                )
            },
            None => !extendable(state@.num_vars, state@.clauses, state@.assignment),
        },
    decreases state@.num_vars - state@.trail.len(),
{
    let ghost s = state@;
    proof {
        lemma_replay_len(s.trail, s.num_vars);
        lemma_trail_len(s.trail, s.num_vars);
    }
    match state.get_status() {
        Status::Satisfied => {
            proof {
                lemma_filled_satisfies(s.assignment, s.clauses);
                lemma_filled_least(s.assignment, s.clauses);
            }
            Some(state.assignment.fill_unassigned())
        },
        Status::Falsified(_) => {
            proof {
                let c = choose|c: int|
                    first_falsified_at(s.assignment, s.clauses, c);
                lemma_falsified_not_extendable(s.num_vars, s.clauses, s.assignment, c);
            }
            None
        },
        _ => {
            match state.assignment.get_unassigned_var() {
                Some(var) => {
                    proof {
                        lemma_push_wf(
                            s,
                            Lit { var, value: Val::True },
                            ReasonView::Decision(s.assignment),
                        );
                        if extendable(s.num_vars, s.clauses, s.assignment) {
                            lemma_branch_extendable(
                                s.num_vars,
                                s.clauses,
                                s.assignment,
                                var,
                                (s.decision_level + 1) as u32,
                            );
                        }
                    }
                    let (tstate, fstate) = branch_on_variable(state, var);
                    proof {
                        let level = tstate@.decision_level as u32;
                        lemma_branch_prefix(s.assignment, var, Val::True, level);
                        lemma_branch_prefix(s.assignment, var, Val::False, level);
                    }
                    match solve_backtrack_rec(fstate) {
                        Some(assignment) => {
                            proof {
                                lemma_least_below_false(
                                    s.num_vars,
                                    s.clauses,
                                    s.assignment,
                                    var,
                                    fstate@.decision_level as u32,
                                    model_of(assignment@),
                                );
                            }
                            Some(assignment)
                        },
                        None => {
                            let found = solve_backtrack_rec(tstate);
                            proof {
                                if let Some(assignment) = &found {
                                    lemma_least_below_true(
                                        s.num_vars,
                                        s.clauses,
                                        s.assignment,
                                        var,
                                        tstate@.decision_level as u32,
                                        model_of(assignment@),
                                    );
                                }
                            }
                            found
                        },
                    }
                },
                None => {
                    proof {
                        lemma_total_has_no_open(s.assignment, s.clauses);
                    }
                    None
                },
            }
        },
    }
}

/// Whether `a` is `b` or comes before it: at the first variable on which
/// they differ, `a` says false.
pub open spec fn lex_le(a: Seq<bool>, b: Seq<bool>) -> bool {
    a == b || exists|i: int|
        0 <= i < a.len() && i < b.len() && !(#[trigger] a[i]) && b[i] && forall|j: int|
            0 <= j < i ==> a[j] == b[j]
}

/// Whether `model` is the first of the models of the clauses that agree
/// with the assignment.
pub open spec fn least_model(
    num_vars: nat,
    clauses: Seq<Seq<Lit>>,
    a: Seq<Option<Record>>,
    model: Seq<bool>,
) -> bool {
    &&& model.len() == num_vars
    &&& is_model(model, clauses)
    &&& agrees(model, a)
    &&& forall|other: Seq<bool>|
        other.len() == num_vars && #[trigger] is_model(other, clauses) && agrees(other, a)
            ==> lex_le(model, other)
}

/// The assigned variables are the first ones.
pub open spec fn assigned_prefix(a: Seq<Option<Record>>) -> bool {
    forall|i: int, k: int|
        0 <= i < k < a.len() && (#[trigger] a[k]) is Some ==> (#[trigger] a[i]) is Some
}

/// The first model is one: two models that each come before every model of
/// the clauses are the same. So enumeration and backtracking find the same
/// model.
pub proof fn lemma_first_model_unique(
    num_vars: nat,
    clauses: Seq<Seq<Lit>>,
    first: Seq<bool>,
    second: Seq<bool>,
)
    requires
        first.len() == num_vars,
        second.len() == num_vars,
        is_model(first, clauses),
        is_model(second, clauses),
        forall|other: Seq<bool>|
            other.len() == num_vars && #[trigger] is_model(other, clauses) ==> lex_le(first, other),
        forall|other: Seq<bool>|
            other.len() == num_vars && #[trigger] is_model(other, clauses) ==> lex_le(
                second,
                other,
            ),
    ensures
        first == second,
{
    assert(lex_le(first, second));
    assert(lex_le(second, first));
    if first != second {
        let i = choose|i: int|
            0 <= i < first.len() && i < second.len() && !(#[trigger] first[i]) && second[i]
                && forall|j: int| 0 <= j < i ==> first[j] == second[j];
        let k = choose|k: int|
            0 <= k < second.len() && k < first.len() && !(#[trigger] second[k]) && first[k]
                && forall|j: int| 0 <= j < k ==> second[j] == first[j];
        if i < k {
            assert(second[i] == first[i]);
        } else if k < i {
            assert(first[k] == second[k]);
        }
    }
}

/// The first position from `from` on at which two sequences differ, or their length.
pub open spec fn first_difference(a: Seq<bool>, b: Seq<bool>, from: int) -> int
    decreases a.len() - from,
{
    if 0 <= from < a.len() && a[from] == b[from] {
        first_difference(a, b, from + 1)
    } else {
        from
    }
}

/// Before their first difference two sequences agree, and at it they differ.
pub proof fn lemma_first_difference(a: Seq<bool>, b: Seq<bool>, from: int)
    requires
        a.len() == b.len(),
        0 <= from <= a.len(),
    ensures
        from <= first_difference(a, b, from) <= a.len(),
        forall|j: int| from <= j < first_difference(a, b, from) ==> a[j] == b[j],
        first_difference(a, b, from) < a.len() ==> a[first_difference(a, b, from)]
            != b[first_difference(a, b, from)],
    decreases a.len() - from,
{
    if from < a.len() && a[from] == b[from] {
        lemma_first_difference(a, b, from + 1);
    }
}

/// Where every clause is satisfied, the assignment filled with false is the
/// first model that agrees with it.
pub proof fn lemma_filled_least(a: Seq<Option<Record>>, clauses: Seq<Seq<Lit>>)
    requires
        clauses_in_range(clauses, a.len()),
        all_satisfied(a, clauses),
    ensures
        least_model(a.len(), clauses, a, model_of(crate::assignment::filled(a))),
{
    let full = crate::assignment::filled(a);
    let model = model_of(full);
    lemma_filled_satisfies(a, clauses);
    crate::inspection::lemma_total_assignment_is_model(full, clauses);
    assert(agrees(model, a));
    assert forall|other: Seq<bool>|
        other.len() == a.len() && #[trigger] is_model(other, clauses) && agrees(
            other,
            a,
        ) implies lex_le(model, other) by {
        lemma_first_difference(model, other, 0);
        let d = first_difference(model, other, 0);
        if d == a.len() {
            assert(model =~= other);
        } else {
            assert(a[d] is None);
            assert(!model[d]);
        }
    }
}

/// Assigning the lowest unassigned variable keeps the assigned variables
/// the first ones.
pub proof fn lemma_branch_prefix(a: Seq<Option<Record>>, var: Var, value: Val, level: u32)
    requires
        assigned_prefix(a),
        1 <= var.index <= a.len(),
        a[var.index - 1] is None,
        forall|i: int| 0 <= i < var.index - 1 ==> (#[trigger] a[i]) is Some,
    ensures
        assigned_prefix(a.update(var.index - 1, Some(Record { value, decision_level: level }))),
{
    let b = a.update(var.index - 1, Some(Record { value, decision_level: level }));
    assert forall|i: int, k: int| 0 <= i < k < b.len() && (#[trigger] b[k]) is Some implies (
    #[trigger] b[i]) is Some by {
        if k > var.index - 1 {
            assert(a[k] is Some);
            assert(a[var.index - 1] is Some);
        }
    }
}

/// The first model with the lowest unassigned variable false is the first model.
pub proof fn lemma_least_below_false(
    num_vars: nat,
    clauses: Seq<Seq<Lit>>,
    a: Seq<Option<Record>>,
    var: Var,
    level: u32,
    model: Seq<bool>,
)
    requires
        a.len() == num_vars,
        1 <= var.index <= num_vars,
        a[var.index - 1] is None,
        forall|i: int| 0 <= i < var.index - 1 ==> (#[trigger] a[i]) is Some,
        least_model(
            num_vars,
            clauses,
            a.update(var.index - 1, Some(Record { value: Val::False, decision_level: level })),
            model,
        ),
    ensures
        least_model(num_vars, clauses, a, model),
{
    let at = var.index - 1;
    let b = a.update(at, Some(Record { value: Val::False, decision_level: level }));
    assert(agrees(model, a)) by {
        assert forall|i: int| 0 <= i < a.len() && (#[trigger] a[i]) is Some implies model[i]
            == a[i]->0.value.as_bool() by {
            assert(b[i] == a[i]);
        }
    }
    assert(b[at] is Some);
    assert(!model[at]);
    assert forall|other: Seq<bool>|
        other.len() == num_vars && #[trigger] is_model(other, clauses) && agrees(
            other,
            a,
        ) implies lex_le(model, other) by {
        if other[at] {
            assert forall|j: int| 0 <= j < at implies model[j] == other[j] by {
                assert(a[j] is Some);
                assert(b[j] == a[j]);
            }
        } else {
            assert(agrees(other, b));
        }
    }
}

/// Where no model has the lowest unassigned variable false, the first
/// model with it true is the first model.
pub proof fn lemma_least_below_true(
    num_vars: nat,
    clauses: Seq<Seq<Lit>>,
    a: Seq<Option<Record>>,
    var: Var,
    level: u32,
    model: Seq<bool>,
)
    requires
        a.len() == num_vars,
        1 <= var.index <= num_vars,
        a[var.index - 1] is None,
        !extendable(
            num_vars,
            clauses,
            a.update(var.index - 1, Some(Record { value: Val::False, decision_level: level })),
        ),
        least_model(
            num_vars,
            clauses,
            a.update(var.index - 1, Some(Record { value: Val::True, decision_level: level })),
            model,
        ),
    ensures
        least_model(num_vars, clauses, a, model),
{
    let at = var.index - 1;
    let b = a.update(at, Some(Record { value: Val::True, decision_level: level }));
    let c = a.update(at, Some(Record { value: Val::False, decision_level: level }));
    assert(agrees(model, a)) by {
        assert forall|i: int| 0 <= i < a.len() && (#[trigger] a[i]) is Some implies model[i]
            == a[i]->0.value.as_bool() by {
            assert(b[i] == a[i]);
        }
    }
    assert forall|other: Seq<bool>|
        other.len() == num_vars && #[trigger] is_model(other, clauses) && agrees(
            other,
            a,
        ) implies lex_le(model, other) by {
        if other[at] {
            assert(agrees(other, b));
        } else {
            assert(agrees(other, c));
        }
    }
}

/// Under a total assignment every clause is satisfied or falsified.
pub proof fn lemma_total_has_no_open(a: Seq<Option<Record>>, clauses: Seq<Seq<Lit>>)
    requires
        is_total(a),
        clauses_in_range(clauses, a.len()),
    ensures
        forall|i: int, k: int|
            0 <= i < clauses.len() && 0 <= k < clauses[i].len() ==> !lit_unassigned(
                a,
                #[trigger] clauses[i][k],
            ),
{
    assert forall|i: int, k: int|
        0 <= i < clauses.len() && 0 <= k < clauses[i].len() implies !lit_unassigned(
        a,
        #[trigger] clauses[i][k],
    ) by {
        assert(clause_in_range(clauses[i], a.len()));
        assert(clauses[i][k].in_range(a.len()));
        assert(a[clauses[i][k].var.index - 1] is Some);
    }
}

/// The answer that a search below the initial state stands for.
fn answer_of(found: Option<Assignment>, Ghost(num_vars): Ghost<nat>, Ghost(clauses): Ghost<
    Seq<Seq<Lit>>,
>) -> (r: SolverResult)
    requires
        match found {
            Some(a) => {
                &&& a@.len() == num_vars
                &&& is_total(a@)
                &&& all_satisfied(a@, clauses)
            },
            None => !satisfiable(num_vars, clauses),
        },
    ensures
        decides(num_vars, clauses, r),
        match found {
            Some(a) => r == SolverResult::Satisfiable(a),
            None => r matches SolverResult::Unsatisfiable(refutation) && refutation@.len() == 1,
        },
{
    match found {
        Some(assignment) => SolverResult::Satisfiable(assignment),
        None => {
            let refutation = bare_refutation();
            proof {
                lemma_unsatisfiable_entails(num_vars, clauses, refutation@[0]@);
            }
            SolverResult::Unsatisfiable(refutation)
        },
    }
}

/// With nothing assigned, a formula with a model has one that agrees with
/// the assignment.
pub proof fn lemma_fresh_extendable(num_vars: nat, clauses: Seq<Seq<Lit>>)
    requires
        satisfiable(num_vars, clauses),
    ensures
        extendable(num_vars, clauses, unassigned_all(num_vars)),
{
    let model = choose|model: Seq<bool>|
        model.len() == num_vars && #[trigger] is_model(model, clauses);
    assert(agrees(model, unassigned_all(num_vars)));
}

/// Decides a formula by backtracking: the lowest unassigned variable is
/// given first false, then true; a branch ends where a clause is falsified
/// or every clause is satisfied.
pub fn solve_backtrack(cnf: &CnfFormula) -> (r: SolverResult)
    requires
        cnf.wf(),
        cnf.num_vars <= u32::MAX,
    ensures
        decides(cnf.num_vars as nat, cnf@, r),
        r matches SolverResult::Satisfiable(a) ==> forall|other: Seq<bool>|
            other.len() == cnf.num_vars && #[trigger] is_model(other, cnf@) ==> lex_le(
                model_of(a@),
                other,
            ),
        r matches SolverResult::Unsatisfiable(refutation) ==> refutation@.len() == 1,
{
    let blank_state = SolverState::from_cnf(cnf);
    let found = solve_backtrack_rec(blank_state);
    proof {
        if satisfiable(cnf.num_vars as nat, cnf@) {
            lemma_fresh_extendable(cnf.num_vars as nat, cnf@);
        }
        if let Some(a) = &found {
            assert forall|other: Seq<bool>|
                other.len() == cnf.num_vars && #[trigger] is_model(other, cnf@) implies lex_le(
                model_of(a@),
                other,
            ) by {
                assert(agrees(other, unassigned_all(cnf.num_vars as nat)));
            }
        }
    }
    answer_of(found, Ghost(cnf.num_vars as nat), Ghost(cnf@))
}

/// Pure-literal elimination changes neither the formula nor the number of
/// variables, and a formula with a model that agrees with the assignment
/// before has one that agrees with the assignment after.
pub proof fn lemma_purified_extendable(s: StateView, upto: nat)
    requires
        s.assignment.len() == s.num_vars,
        upto <= s.num_vars,
        s.num_vars <= usize::MAX,
        clauses_in_range(s.clauses, s.num_vars),
    ensures
        s.purified(upto).clauses == s.clauses,
        s.purified(upto).num_vars == s.num_vars,
        s.purified(upto).assignment.len() == s.num_vars,
        extendable(s.num_vars, s.clauses, s.assignment) ==> extendable(
            s.num_vars,
            s.clauses,
            s.purified(upto).assignment,
        ),
    decreases upto,
{
    if upto > 0 {
        let before = s.purified((upto - 1) as nat);
        lemma_purified_extendable(s, (upto - 1) as nat);
        let var = Var { index: upto as usize };
        if let Some(value) = pure_value(s.clauses, var) {
            let lit = Lit { var, value };
            if lit_unassigned(before.assignment, lit) && extendable(
                s.num_vars,
                s.clauses,
                s.assignment,
            ) {
                let model = choose|model: Seq<bool>|
                    model.len() == s.num_vars && #[trigger] is_model(model, s.clauses) && agrees(
                        model,
                        before.assignment,
                    );
                let changed = model.update(upto - 1, value.as_bool());
                assert forall|i: int| 0 <= i < s.clauses.len() implies clause_holds(
                    changed,
                    #[trigger] s.clauses[i],
                ) by {
                    let clause = s.clauses[i];
                    assert(clause_holds(model, clause));
                    let j = choose|j: int|
                        0 <= j < clause.len() && lit_holds(model, #[trigger] clause[j]);
                    assert(clause_in_range(clause, s.num_vars));
                    assert(clause[j].in_range(s.num_vars));
                    if clause[j].var.index == upto {
                        assert(s.clauses[i][j] == clause[j]);
                        assert(occurs(s.clauses, clause[j]));
                        assert(clause[j].var == var);
                        assert(clause[j].value == value);
                        assert(lit_holds(changed, clause[j]));
                    } else {
                        assert(lit_holds(changed, clause[j]));
                    }
                }
                assert(is_model(changed, s.clauses));
                assert(agrees(changed, s.purified(upto).assignment));
            }
        }
    }
}

/// Searches below a state: an inferred literal is assigned, and where
/// nothing can be inferred the lowest unassigned variable is given first
/// false, then true.
fn solve_dpll_rec(state: SolverState) -> (r: Option<Assignment>)
    requires
        state.wf(),
    ensures
        match r {
            Some(a) => {
                &&& a@.len() == state@.num_vars
                &&& is_total(a@)
                &&& all_satisfied(a@, state@.clauses)
            },
            None => !extendable(state@.num_vars, state@.clauses, state@.assignment),
        },
    decreases state@.num_vars - state@.trail.len(),
{
    let ghost s = state@;
    let mut state = state;
    proof {
        lemma_replay_len(s.trail, s.num_vars);
        lemma_trail_len(s.trail, s.num_vars);
    }
    match state.get_status() {
        Status::Satisfied => {
            proof {
                lemma_filled_satisfies(s.assignment, s.clauses);
            }
            Some(state.assignment.fill_unassigned())
        },
        Status::Falsified(_) => {
            proof {
                let c = choose|c: int|
                    first_falsified_at(s.assignment, s.clauses, c);
                lemma_falsified_not_extendable(s.num_vars, s.clauses, s.assignment, c);
            }
            None
        },
        Status::UnassignedDecision(_) => {
            match state.assignment.get_unassigned_var() {
                Some(var) => {
                    proof {
                        lemma_push_wf(
                            s,
                            Lit { var, value: Val::True },
                            ReasonView::Decision(s.assignment),
                        );
                        if extendable(s.num_vars, s.clauses, s.assignment) {
                            lemma_branch_extendable(
                                s.num_vars,
                                s.clauses,
                                s.assignment,
                                var,
                                (s.decision_level + 1) as u32,
                            );
                        }
                    }
                    let (tstate, fstate) = branch_on_variable(state, var);
                    match solve_dpll_rec(fstate) {
                        Some(assignment) => Some(assignment),
                        None => solve_dpll_rec(tstate),
                    }
                },
                None => {
                    proof {
                        lemma_total_has_no_open(s.assignment, s.clauses);
                    }
                    None
                },
            }
        },
        Status::UnassignedUnit(lit, clause) => {
            proof {
                let (c, k) = choose|c: int, k: int|
                    last_unit_at(s.assignment, s.clauses, c, k) && clause@
                        == s.clauses[c] && lit == s.clauses[c][k];
                assert(clause_in_range(s.clauses[c], s.num_vars));
                assert(s.clauses[c][k].in_range(s.num_vars));
                lemma_push_wf(
                    s,
                    lit,
                    ReasonView::UnitProp(clause@),
                );
                if extendable(s.num_vars, s.clauses, s.assignment) {
                    lemma_unit_extendable(
                        s.num_vars,
                        s.clauses,
                        s.assignment,
                        c,
                        k,
                        s.decision_level as u32,
                    );
                }
            }
            state.assign_unitprop(lit.var, lit.value, clause);
            solve_dpll_rec(state)
        },
    }
}

/// Decides a formula by DPLL: pure literals are decided first; then unit
/// clauses are propagated, and where there is none the lowest unassigned
/// variable is given first false, then true.
pub fn solve_dpll(cnf: &CnfFormula) -> (r: SolverResult)
    requires
        cnf.wf(),
        cnf.num_vars <= u32::MAX,
    ensures
        decides(cnf.num_vars as nat, cnf@, r),
        r matches SolverResult::Unsatisfiable(refutation) ==> refutation@.len() == 1,
{
    let mut blank_state = SolverState::from_cnf(cnf);
    let ghost fresh = blank_state@;
    blank_state.pure_literal_eliminate();
    proof {
        lemma_purified_extendable(fresh, fresh.num_vars);
        if satisfiable(cnf.num_vars as nat, cnf@) {
            lemma_fresh_extendable(cnf.num_vars as nat, cnf@);
        }
    }
    let found = solve_dpll_rec(blank_state);
    answer_of(found, Ghost(cnf.num_vars as nat), Ghost(cnf@))
}

} // verus!
