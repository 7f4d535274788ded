//! Clauses under a partial assignment: satisfied, falsified, unit or
//! unresolved, and what that makes of a whole formula.

use crate::assignment::{
    filled, is_total, lit_falsified, lit_satisfied, lit_unassigned, model_of, Assignment, Record,
};
use crate::formula::{
    clause_holds, clause_in_range, clauses_in_range, is_model, lit_holds, satisfiable, Clause, Lit,
    Val, Var,
};
use vstd::prelude::*;

verus! {

/// Some literal of the clause is satisfied.
pub open spec fn clause_satisfied(a: Seq<Option<Record>>, clause: Seq<Lit>) -> bool {
    exists|j: int| 0 <= j < clause.len() && lit_satisfied(a, #[trigger] clause[j])
}

/// Every literal of the clause is falsified.
pub open spec fn clause_falsified(a: Seq<Option<Record>>, clause: Seq<Lit>) -> bool {
    forall|j: int| 0 <= j < clause.len() ==> lit_falsified(a, #[trigger] clause[j])
}

/// Position `k` of the clause is unassigned and every other position is falsified.
pub open spec fn unit_at(a: Seq<Option<Record>>, clause: Seq<Lit>, k: int) -> bool {
    &&& 0 <= k < clause.len()
    &&& lit_unassigned(a, clause[k])
    &&& forall|j: int| 0 <= j < clause.len() && j != k ==> lit_falsified(a, #[trigger] clause[j])
}

/// Exactly one literal of the clause is unassigned and the others are falsified.
pub open spec fn clause_unit(a: Seq<Option<Record>>, clause: Seq<Lit>) -> bool {
    exists|k: int| unit_at(a, clause, k)
}

/// No literal is satisfied and at least two are unassigned.
pub open spec fn clause_unresolved(a: Seq<Option<Record>>, clause: Seq<Lit>) -> bool {
    &&& !clause_satisfied(a, clause)
    &&& exists|j: int, k: int|
        0 <= j < k < clause.len() && lit_unassigned(a, #[trigger] clause[j]) && lit_unassigned(
            a,
            #[trigger] clause[k],
        )
}

/// Position `k` is the last unassigned position of the clause.
pub open spec fn last_unassigned_at(a: Seq<Option<Record>>, clause: Seq<Lit>, k: int) -> bool {
    &&& 0 <= k < clause.len()
    &&& lit_unassigned(a, clause[k])
    &&& forall|j: int| k < j < clause.len() ==> !lit_unassigned(a, #[trigger] clause[j])
}

/// What an assignment makes of one clause.
#[derive(Debug, Clone, Copy, PartialEq, Eq)]
pub enum ClauseStatus {
    /// Some literal is satisfied.
    Satisfied,
    /// Every literal is falsified.
    Falsified,
    /// This literal is the only unassigned one and the others are falsified.
    Unit(Lit),
    /// No literal is satisfied, at least two are unassigned, and this is the
    /// last unassigned one.
    Unresolved(Lit),
}

impl Clause {
    /// Inspects the clause under an assignment.
    pub fn status_under(&self, a: &Assignment) -> (r: ClauseStatus)
        requires
            clause_in_range(self@, a@.len()),
        ensures
            match r {
                ClauseStatus::Satisfied => clause_satisfied(a@, self@),
                ClauseStatus::Falsified => clause_falsified(a@, self@),
                ClauseStatus::Unit(lit) => exists|k: int|
                    unit_at(a@, self@, k) && self@[k] == lit,
                ClauseStatus::Unresolved(lit) => clause_unresolved(a@, self@) && exists|k: int|
                    last_unassigned_at(a@, self@, k) && self@[k] == lit,
            },
            r is Satisfied <==> clause_satisfied(a@, self@),
            r is Falsified <==> clause_falsified(a@, self@),
            r is Unit <==> clause_unit(a@, self@),
    {
        let mut first: Option<usize> = None;
        let mut last: Option<usize> = None;
        let mut i: usize = 0;
        while i < self.literals.len()
            invariant
                i <= self.literals.len(),
                clause_in_range(self@, a@.len()),
                forall|j: int| 0 <= j < i ==> !lit_satisfied(a@, #[trigger] self@[j]),
                first is None <==> last is None,
                first is None ==> forall|j: int|
                    0 <= j < i ==> lit_falsified(a@, #[trigger] self@[j]),
                first matches Some(f) ==> {
                    &&& f < i
                    &&& lit_unassigned(a@, self@[f as int])
                    &&& forall|j: int| 0 <= j < f ==> lit_falsified(a@, #[trigger] self@[j])
                },
                last matches Some(l) ==> {
                    &&& l < i
                    &&& first->0 <= l
                    &&& lit_unassigned(a@, self@[l as int])
                    &&& forall|j: int| l < j < i ==> lit_falsified(a@, #[trigger] self@[j])
                    &&& forall|j: int|
                        first->0 < j < l ==> !lit_satisfied(a@, #[trigger] self@[j])
                    &&& first->0 == l ==> forall|j: int|
                        0 <= j < i && j != l ==> lit_falsified(a@, #[trigger] self@[j])
                },
            decreases self.literals.len() - i,
        {
            let lit = self.literals[i];
            assert(self@[i as int].in_range(a@.len()));
            match a.get(&lit) {
                Some(true) => {
                    return ClauseStatus::Satisfied;
                },
                Some(false) => {},
                None => {
                    if first.is_none() {
                        first = Some(i);
                    }
                    last = Some(i);
                },
            }
            i += 1;
        }
        match (first, last) {
            (Some(f), Some(l)) => {
                if f == l {
                    assert(unit_at(a@, self@, f as int));
                    proof {
                        if clause_falsified(a@, self@) {
                            assert(lit_falsified(a@, self@[f as int]));
                        }
                    }
                    ClauseStatus::Unit(self.literals[f])
                } else {
                    assert(last_unassigned_at(a@, self@, l as int));
                    proof {
                        assert(lit_unassigned(a@, self@[f as int]) && lit_unassigned(
                            a@,
                            self@[l as int],
                        ));
                        if clause_falsified(a@, self@) {
                            assert(lit_falsified(a@, self@[f as int]));
                        }
                        if clause_unit(a@, self@) {
                            let k = choose|k: int| unit_at(a@, self@, k);
                            assert(lit_falsified(a@, self@[f as int]) || lit_falsified(
                                a@,
                                self@[l as int],
                            ));
                        }
                    }
                    ClauseStatus::Unresolved(self.literals[l])
                }
            },
            _ => {
                proof {
                    if clause_unit(a@, self@) {
                        let k = choose|k: int| unit_at(a@, self@, k);
                        assert(lit_falsified(a@, self@[k]));
                    }
                }
                ClauseStatus::Falsified
            },
        }
    }

    /// What is left of the clause under an assignment: nothing if it is
    /// satisfied, else its unassigned literals in order.
    pub fn get_equivalent_clause(&self, a: &Assignment) -> (r: Option<Vec<Lit>>)
        requires
            clause_in_range(self@, a@.len()),
        ensures
            match r {
                None => clause_satisfied(a@, self@),
                Some(rest) => !clause_satisfied(a@, self@) && rest@ == self@.filter(
                    |lit: Lit| lit_unassigned(a@, lit),
                ),
            },
    {
        let ghost keep = |lit: Lit| lit_unassigned(a@, lit);
        let mut rest: Vec<Lit> = Vec::new();
        let mut i: usize = 0;
        assert(self@.take(0).filter(keep) =~= Seq::<Lit>::empty()) by {
            reveal(Seq::filter);
        }
        while i < self.literals.len()
            invariant
                i <= self.literals.len(),
                clause_in_range(self@, a@.len()),
                keep == |lit: Lit| lit_unassigned(a@, lit),
                forall|j: int| 0 <= j < i ==> !lit_satisfied(a@, #[trigger] self@[j]),
                rest@ == self@.take(i as int).filter(keep),
            decreases self.literals.len() - i,
        {
            let lit = self.literals[i];
            assert(self@[i as int].in_range(a@.len()));
            proof {
                reveal(Seq::filter);
                assert(self@.take(i as int + 1).drop_last() =~= self@.take(i as int));
            }
            match a.get(&lit) {
                Some(true) => {
                    return None;
                },
                Some(false) => {},
                None => {
                    rest.push(lit);
                },
            }
            i += 1;
        }
        assert(self@.take(i as int) =~= self@);
        Some(rest)
    }
}

/// Every clause is satisfied.
pub open spec fn all_satisfied(a: Seq<Option<Record>>, clauses: Seq<Seq<Lit>>) -> bool {
    forall|i: int| 0 <= i < clauses.len() ==> clause_satisfied(a, #[trigger] clauses[i])
}

/// Some clause is falsified.
pub open spec fn some_falsified(a: Seq<Option<Record>>, clauses: Seq<Seq<Lit>>) -> bool {
    exists|i: int| 0 <= i < clauses.len() && clause_falsified(a, #[trigger] clauses[i])
}

/// Some clause is unit.
pub open spec fn some_unit(a: Seq<Option<Record>>, clauses: Seq<Seq<Lit>>) -> bool {
    exists|i: int| 0 <= i < clauses.len() && clause_unit(a, #[trigger] clauses[i])
}

/// Clause `i` is the first falsified clause.
pub open spec fn first_falsified_at(
    a: Seq<Option<Record>>,
    clauses: Seq<Seq<Lit>>,
    i: int,
) -> bool {
    &&& 0 <= i < clauses.len()
    &&& clause_falsified(a, clauses[i])
    &&& forall|j: int| 0 <= j < i ==> !clause_falsified(a, #[trigger] clauses[j])
}

/// Clause `i` is the last unit clause, and its unassigned position is `k`.
pub open spec fn last_unit_at(
    a: Seq<Option<Record>>,
    clauses: Seq<Seq<Lit>>,
    i: int,
    k: int,
) -> bool {
    &&& 0 <= i < clauses.len()
    &&& unit_at(a, clauses[i], k)
    &&& forall|j: int| i < j < clauses.len() ==> !clause_unit(a, #[trigger] clauses[j])
}

/// Clause `i` is the last clause that is not satisfied, and `k` is its last
/// unassigned position.
pub open spec fn last_open_at(
    a: Seq<Option<Record>>,
    clauses: Seq<Seq<Lit>>,
    i: int,
    k: int,
) -> bool {
    &&& 0 <= i < clauses.len()
    &&& !clause_satisfied(a, clauses[i])
    &&& last_unassigned_at(a, clauses[i], k)
    &&& forall|j: int| i < j < clauses.len() ==> clause_satisfied(a, #[trigger] clauses[j])
}

/// No clause is falsified, and `clause` is the last unit clause, with `lit`
/// as its unassigned literal.
pub open spec fn reports_unit(
    a: Seq<Option<Record>>,
    clauses: Seq<Seq<Lit>>,
    lit: Lit,
    clause: Seq<Lit>,
) -> bool {
    !some_falsified(a, clauses) && exists|i: int, k: int|
        last_unit_at(a, clauses, i, k) && clause == clauses[i] && lit == clauses[i][k]
}

/// No clause is falsified and some clause is unit: a propagation is due.
pub open spec fn pending_unit(a: Seq<Option<Record>>, clauses: Seq<Seq<Lit>>) -> bool {
    !some_falsified(a, clauses) && some_unit(a, clauses)
}

/// The clauses that are not satisfied, each reduced to its unassigned literals.
pub open spec fn residual(a: Seq<Option<Record>>, clauses: Seq<Seq<Lit>>) -> Seq<Seq<Lit>>
    decreases clauses.len(),
{
    if clauses.len() == 0 {
        Seq::empty()
    } else if clause_satisfied(a, clauses.last()) {
        residual(a, clauses.drop_last())
    } else {
        residual(a, clauses.drop_last()).push(
            clauses.last().filter(|lit: Lit| lit_unassigned(a, lit)),
        )
    }
}

/// Whether `lit` occurs in some clause.
pub open spec fn occurs(clauses: Seq<Seq<Lit>>, lit: Lit) -> bool {
    exists|i: int, j: int|
        0 <= i < clauses.len() && 0 <= j < clauses[i].len() && #[trigger] clauses[i][j] == lit
}

/// The value that makes every occurrence of the variable true, if the
/// variable occurs and all its occurrences have the same sign.
pub open spec fn pure_value(clauses: Seq<Seq<Lit>>, var: Var) -> Option<Val> {
    let positive = occurs(clauses, Lit { var, value: Val::True });
    let negative = occurs(clauses, Lit { var, value: Val::False });
    if positive && !negative {
        Some(Val::True)
    } else if negative && !positive {
        Some(Val::False)
    } else {
        None
    }
}

/// Whether `lit` occurs in one of the first `i` clauses or among the first
/// `j` literals of clause `i`.
pub open spec fn occurs_before(clauses: Seq<Seq<Lit>>, i: int, j: int, lit: Lit) -> bool {
    occurs(clauses.take(i), lit) || exists|k: int| 0 <= k < j && #[trigger] clauses[i][k] == lit
}

/// What occurs up to the end of clause `i` is what occurs in the first
/// `i + 1` clauses.
pub proof fn lemma_occurs_step(clauses: Seq<Seq<Lit>>, i: int, lit: Lit)
    requires
        0 <= i < clauses.len(),
    ensures
        occurs_before(clauses, i, clauses[i].len() as int, lit) <==> occurs(
            clauses.take(i + 1),
            lit,
        ),
{
    let shorter = clauses.take(i);
    let longer = clauses.take(i + 1);
    if occurs(shorter, lit) {
        let (a, b) = choose|a: int, b: int|
            0 <= a < shorter.len() && 0 <= b < shorter[a].len() && #[trigger] shorter[a][b]
                == lit;
        assert(longer[a][b] == lit);
    }
    if exists|k: int| 0 <= k < clauses[i].len() && #[trigger] clauses[i][k] == lit {
        let k = choose|k: int| 0 <= k < clauses[i].len() && #[trigger] clauses[i][k] == lit;
        assert(longer[i][k] == lit);
    }
    if occurs(longer, lit) {
        let (a, b) = choose|a: int, b: int|
            0 <= a < longer.len() && 0 <= b < longer[a].len() && #[trigger] longer[a][b] == lit;
        if a < i {
            assert(shorter[a][b] == lit);
        } else {
            assert(clauses[i][b] == lit);
        }
    }
}

/// Filling the unassigned variables keeps every satisfied clause satisfied
/// and makes the assignment total.
pub proof fn lemma_filled_satisfies(a: Seq<Option<Record>>, clauses: Seq<Seq<Lit>>)
    requires
        clauses_in_range(clauses, a.len()),
        all_satisfied(a, clauses),
    ensures
        all_satisfied(filled(a), clauses),
        is_total(filled(a)),
        filled(a).len() == a.len(),
{
    let b = filled(a);
    assert forall|i: int| 0 <= i < clauses.len() implies clause_satisfied(
        b,
        #[trigger] clauses[i],
    ) by {
        assert(clause_satisfied(a, clauses[i]));
        let j = choose|j: int|
            0 <= j < clauses[i].len() && lit_satisfied(a, #[trigger] clauses[i][j]);
        assert(clause_in_range(clauses[i], a.len()));
        assert(clauses[i][j].in_range(a.len()));
        assert(lit_satisfied(b, clauses[i][j]));
    }
}

/// A total assignment that satisfies every clause stands for a model.
pub proof fn lemma_total_assignment_is_model(a: Seq<Option<Record>>, clauses: Seq<Seq<Lit>>)
    requires
        clauses_in_range(clauses, a.len()),
        all_satisfied(a, clauses),
    ensures
        is_model(model_of(a), clauses),
        satisfiable(a.len(), clauses),
{
    let model = model_of(a);
    assert forall|i: int| 0 <= i < clauses.len() implies clause_holds(
        model,
        #[trigger] clauses[i],
    ) by {
        assert(clause_satisfied(a, clauses[i]));
        let j = choose|j: int|
            0 <= j < clauses[i].len() && lit_satisfied(a, #[trigger] clauses[i][j]);
        assert(clause_in_range(clauses[i], a.len()));
        assert(clauses[i][j].in_range(a.len()));
        assert(lit_holds(model, clauses[i][j]));
    }
    assert(model.len() == a.len());
    assert(is_model(model, clauses));
}

} // verus!
