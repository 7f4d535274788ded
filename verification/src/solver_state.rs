//! The state shared by every search strategy: a formula that grows by
//! learned clauses, a partial assignment, and the trail of assignments made.

use crate::assignment::{
    is_total, lit_falsified, lit_level, lit_satisfied, lit_unassigned, unassigned_all, Assignment,
    Record,
};
use crate::formula::{
    clause_in_range, clause_views, clauses_in_range, entails, lemma_empty_clause_refutes,
    lemma_member_entailed, satisfiable, Clause, CnfFormula, Lit, Val, Var,
};
use crate::inspection::{
    all_satisfied, clause_falsified, clause_satisfied, clause_unit, first_falsified_at,
    last_open_at, last_unassigned_at, last_unit_at, lemma_occurs_step,
    lemma_total_assignment_is_model, occurs, occurs_before, pending_unit, pure_value, reports_unit,
    residual, some_falsified, some_unit, unit_at, ClauseStatus,
};
use crate::trail::{
    decisions_in, entry_wf, kept_len, lemma_assigned_count_bound, lemma_assigned_on_trail,
    lemma_decisions_bound, lemma_decisions_monotone, lemma_kept_len_at_decision,
    lemma_kept_len_bound, lemma_kept_levels, lemma_prefix_entries, lemma_replay_extends,
    lemma_replay_len, lemma_trail_len, lemma_trail_recorded, level_at, replay, ReasonView,
    TrailEntry,
};
use vstd::prelude::*;

verus! {

/// Why a literal is on the trail.
#[derive(Debug, PartialEq)]
pub enum TrailReason {
    /// It was decided; the assignment as it was just before is kept so that
    /// a backjump can restore it.
    Decision(Assignment),
    /// It was inferred from this clause, whose other literals were all falsified.
    UnitProp(Clause),
}

/// One assignment on the trail.
#[derive(Debug, PartialEq)]
pub struct TrailElement {
    pub lit: Lit,
    pub reason: TrailReason,
}

impl View for TrailReason {
    type V = ReasonView;

    open spec fn view(&self) -> ReasonView {
        match self {
            TrailReason::Decision(snapshot) => ReasonView::Decision(snapshot@),
            TrailReason::UnitProp(clause) => ReasonView::UnitProp(clause@),
        }
    }
}

impl View for TrailElement {
    type V = TrailEntry;

    open spec fn view(&self) -> TrailEntry {
        TrailEntry { lit: self.lit, reason: self.reason@ }
    }
}

impl Clone for TrailReason {
    fn clone(&self) -> (r: Self)
        ensures
            r@ == self@,
    {
        match self {
            TrailReason::Decision(snapshot) => TrailReason::Decision(snapshot.clone()),
            TrailReason::UnitProp(clause) => TrailReason::UnitProp(clause.clone()),
        }
    }
}

impl Clone for TrailElement {
    fn clone(&self) -> (r: Self)
        ensures
            r@ == self@,
    {
        TrailElement { lit: self.lit, reason: self.reason.clone() }
    }
}

/// The entries of a trail.
pub open spec fn trail_views(trail: Seq<TrailElement>) -> Seq<TrailEntry> {
    Seq::new(trail.len(), |i: int| trail[i]@)
}

/// What a solver found.
#[derive(Debug, PartialEq)]
pub enum SolverResult {
    /// A total assignment that satisfies every clause.
    Satisfiable(Assignment),
    /// The clauses learned on the way, in order, then the empty clause.
    Unsatisfiable(Vec<Clause>),
}

/// What the state says of the formula under the current assignment.
#[derive(Debug, PartialEq)]
pub enum Status {
    /// Every clause is satisfied.
    Satisfied,
    /// This clause is falsified.
    Falsified(Clause),
    /// No clause is falsified or unit, and this literal is unassigned.
    UnassignedDecision(Lit),
    /// No clause is falsified, and this clause is unit with this literal.
    UnassignedUnit(Lit, Clause),
}

/// A formula with learned clauses, an assignment, and the trail that made it.
#[derive(Debug, PartialEq)]
pub struct SolverState {
    pub formula: CnfFormula,
    pub assignment: Assignment,
    pub trail: Vec<TrailElement>,
    pub decision_level: u32,
}

/// The mathematical content of a [`SolverState`].
pub struct StateView {
    pub num_vars: nat,
    pub clauses: Seq<Seq<Lit>>,
    pub assignment: Seq<Option<Record>>,
    pub trail: Seq<TrailEntry>,
    pub decision_level: nat,
}

impl View for SolverState {
    type V = StateView;

    open spec fn view(&self) -> StateView {
        StateView {
            num_vars: self.formula.num_vars as nat,
            clauses: self.formula@,
            assignment: self.assignment@,
            trail: trail_views(self.trail@),
            decision_level: self.decision_level as nat,
        }
    }
}

impl Clone for SolverState {
    fn clone(&self) -> (r: Self)
        ensures
            r@ == self@,
    {
        let mut trail: Vec<TrailElement> = Vec::new();
        let mut i: usize = 0;
        while i < self.trail.len()
            invariant
                i <= self.trail.len(),
                trail.len() == i,
                forall|j: int| 0 <= j < i ==> trail@[j]@ == self.trail@[j]@,
            decreases self.trail.len() - i,
        {
            trail.push(self.trail[i].clone());
            i += 1;
        }
        assert(trail_views(trail@) =~= trail_views(self.trail@));
        SolverState {
            formula: self.formula.clone(),
            assignment: self.assignment.clone(),
            trail,
            decision_level: self.decision_level,
        }
    }
}

/// The clause is a sound reason for inferring `lit` under `a`: it is a
/// clause of the formula, `lit` is its only unassigned literal, and the
/// others are falsified.
pub open spec fn reason_valid(
    a: Seq<Option<Record>>,
    num_vars: nat,
    clauses: Seq<Seq<Lit>>,
    clause: Seq<Lit>,
    lit: Lit,
) -> bool {
    &&& clause_in_range(clause, num_vars)
    &&& exists|c: int| 0 <= c < clauses.len() && #[trigger] clauses[c] == clause
    &&& exists|k: int| unit_at(a, clause, k) && clause[k] == lit
}

/// Entry `i` was inferred from the unit clause that the status reported
/// for the entries before it.
pub open spec fn inferred_from_formula(s: StateView, i: int) -> bool {
    &&& s.trail[i].reason matches ReasonView::UnitProp(clause)
    &&& reports_unit(replay(s.trail.take(i), s.num_vars), s.clauses, s.trail[i].lit, clause)
}

impl StateView {
    /// The trail invariant: the assignment is what the trail makes, every
    /// entry assigns a fresh variable, every snapshot is the assignment of
    /// its time, and the level is the number of decisions.
    pub open spec fn wf(self) -> bool {
        &&& self.num_vars <= u32::MAX
        &&& clauses_in_range(self.clauses, self.num_vars)
        &&& self.assignment == replay(self.trail, self.num_vars)
        &&& self.decision_level == decisions_in(self.trail)
        &&& forall|i: int| 0 <= i < self.trail.len() ==> entry_wf(self.trail, self.num_vars, i)
    }

    /// Every inferred literal on the trail has a sound reason.
    pub open spec fn justified(self) -> bool {
        forall|i: int|
            0 <= i < self.trail.len() ==> ((
            #[trigger] self.trail[i].reason) matches ReasonView::UnitProp(clause) ==> reason_valid(
                replay(self.trail.take(i), self.num_vars),
                self.num_vars,
                self.clauses,
                clause,
                self.trail[i].lit,
            ))
    }

    /// The state after `lit` is pushed with the given reason at `level`.
    pub open spec fn pushed(self, lit: Lit, reason: ReasonView, level: nat) -> StateView {
        StateView {
            assignment: self.assignment.update(
                lit.var.index - 1,
                Some(Record { value: lit.value, decision_level: level as u32 }),
            ),
            trail: self.trail.push(TrailEntry { lit, reason }),
            decision_level: level,
            ..self
        }
    }

    /// The state after deciding `lit`.
    pub open spec fn decided(self, lit: Lit) -> StateView {
        self.pushed(lit, ReasonView::Decision(self.assignment), self.decision_level + 1)
    }

    /// The state after inferring `lit` from `clause`.
    pub open spec fn inferred(self, lit: Lit, clause: Seq<Lit>) -> StateView {
        self.pushed(lit, ReasonView::UnitProp(clause), self.decision_level)
    }

    /// The state after `clause` is added to the formula.
    pub open spec fn learned(self, clause: Seq<Lit>) -> StateView {
        StateView { clauses: self.clauses.push(clause), ..self }
    }

    /// The state after a backjump to `level`: the trail is cut just before
    /// the decision that raised the level above `level`, and the assignment
    /// is the one that the kept entries make. A state without any decision
    /// is reset instead: its trail and its assignment are emptied.
    pub open spec fn backjumped(self, level: nat) -> StateView {
        if self.decision_level == 0 {
            StateView {
                assignment: unassigned_all(self.num_vars),
                trail: Seq::empty(),
                decision_level: level,
                ..self
            }
        } else {
            let kept = self.trail.take(kept_len(self.trail, level) as int);
            StateView {
                assignment: replay(kept, self.num_vars),
                trail: kept,
                decision_level: level,
                ..self
            }
        }
    }

    /// The state with the trail cut to its first `k` entries.
    pub open spec fn cut_to(self, k: int) -> StateView {
        StateView {
            assignment: replay(self.trail.take(k), self.num_vars),
            trail: self.trail.take(k),
            decision_level: decisions_in(self.trail.take(k)),
            ..self
        }
    }

    /// Whether `after` is this state with unit propagation run to its end:
    /// the same formula at the same level, with the trail extended, one
    /// entry at a time, by the literal and the unit clause that the status
    /// reports, until no propagation is due.
    pub open spec fn unit_propagated(self, after: StateView) -> bool {
        &&& after.num_vars == self.num_vars
        &&& after.clauses == self.clauses
        &&& after.decision_level == self.decision_level
        &&& after.wf()
        &&& self.trail.len() <= after.trail.len()
        &&& after.trail.take(self.trail.len() as int) == self.trail
        &&& forall|i: int|
            self.trail.len() <= i < after.trail.len() ==> inferred_from_formula(after, i)
        &&& !pending_unit(after.assignment, after.clauses)
        &&& !pending_unit(self.assignment, self.clauses) ==> after == self
    }

    /// The state after pure-literal elimination has gone through the
    /// variables `1..=upto` in order, deciding each one that is pure in the
    /// formula and still unassigned.
    pub open spec fn purified(self, upto: nat) -> StateView
        decreases upto,
    {
        if upto == 0 {
            self
        } else {
            let before = self.purified((upto - 1) as nat);
            let var = Var { index: upto as usize };
            match pure_value(self.clauses, var) {
                Some(value) => if lit_unassigned(before.assignment, Lit { var, value }) {
                    before.decided(Lit { var, value })
                } else {
                    before
                },
                None => before,
            }
        }
    }
}

/// Whether `status` is what [`SolverState::get_status`] reports for the
/// clauses under the assignment: the first falsified clause if there is one;
/// else the last unit clause with its literal; else the last unassigned
/// literal of the last clause that is not satisfied; else satisfied.
pub open spec fn is_status_of(
    a: Seq<Option<Record>>,
    clauses: Seq<Seq<Lit>>,
    status: Status,
) -> bool {
    match status {
        Status::Satisfied => all_satisfied(a, clauses),
        Status::Falsified(clause) => exists|i: int|
            first_falsified_at(a, clauses, i) && clause@ == clauses[i],
        Status::UnassignedUnit(lit, clause) => reports_unit(a, clauses, lit, clause@),
        Status::UnassignedDecision(lit) => !some_falsified(a, clauses) && !some_unit(a, clauses)
            && exists|i: int, k: int| last_open_at(a, clauses, i, k) && lit == clauses[i][k],
    }
}

/// Whether `result` is a correct answer for the formula: a total assignment
/// that satisfies every clause, or a list of clauses that all follow from
/// the formula and end with the empty clause.
pub open spec fn decides(num_vars: nat, clauses: Seq<Seq<Lit>>, result: SolverResult) -> bool {
    match result {
        SolverResult::Satisfiable(a) => {
            &&& a@.len() == num_vars
            &&& is_total(a@)
            &&& all_satisfied(a@, clauses)
        },
        SolverResult::Unsatisfiable(refutation) => {
            &&& refutation@.len() >= 1
            &&& refutation@.last()@.len() == 0
            &&& forall|i: int|
                0 <= i < refutation@.len() ==> entails(
                    num_vars,
                    clauses,
                    #[trigger] refutation@[i]@,
                )
        },
    }
}

impl SolverState {
    /// The trail invariant holds.
    pub open spec fn wf(&self) -> bool {
        self@.wf()
    }

    /// Every inferred literal has a sound reason.
    pub open spec fn justified(&self) -> bool {
        self@.justified()
    }

    /// The state in which nothing is assigned.
    pub fn from_cnf(cnf: &CnfFormula) -> (r: Self)
        requires
            cnf.wf(),
            cnf.num_vars <= u32::MAX,
        ensures
            r@ == (StateView {
                num_vars: cnf.num_vars as nat,
                clauses: cnf@,
                assignment: unassigned_all(cnf.num_vars as nat),
                trail: Seq::<TrailEntry>::empty(),
                decision_level: 0,
            }),
            r.wf(),
            r.justified(),
    {
        let r = SolverState {
            formula: cnf.clone(),
            assignment: Assignment::empty(cnf.num_vars),
            trail: Vec::new(),
            decision_level: 0,
        };
        assert(trail_views(r.trail@) =~= Seq::<TrailEntry>::empty());
        r
    }

    /// Opens a new decision level and assigns `value` to `var` at it. The
    /// trail keeps a snapshot of the assignment as it was before.
    pub fn decide(&mut self, var: Var, value: Val)
        requires
            old(self).wf(),
            1 <= var.index <= old(self).formula.num_vars,
            lit_unassigned(old(self).assignment@, Lit { var, value }),
        ensures
            final(self)@ == old(self)@.decided(Lit { var, value }),
            final(self).wf(),
            old(self).justified() ==> final(self).justified(),
    {
        let ghost lit = Lit { var, value };
        let ghost before = self@;
        let ghost reason = ReasonView::Decision(before.assignment);
        proof {
            lemma_push_wf(before, lit, reason);
            lemma_decisions_bound(before.trail);
            assert(before.trail.push(TrailEntry { lit, reason }).drop_last() =~= before.trail);
        }
        self.decision_level += 1;
        self.trail.push(
            TrailElement {
                lit: Lit { var, value },
                reason: TrailReason::Decision(self.assignment.clone()),
            },
        );
        self.assignment.set(var, value, self.decision_level);
        proof {
            assert(self@.trail =~= before.trail.push(TrailEntry { lit, reason }));
            assert(self@ == before.decided(lit));
            if before.justified() {
                lemma_push_justified(before, lit, reason, before.decision_level + 1);
            }
        }
    }

    /// The state in which `var` is decided to be `value`; this state is left
    /// as it is.
    pub fn assign(&self, var: &Var, value: Val) -> (r: Self)
        requires
            self.wf(),
            1 <= var.index <= self.formula.num_vars,
            lit_unassigned(self.assignment@, Lit { var: *var, value }),
        ensures
            r@ == self@.decided(Lit { var: *var, value }),
            r.wf(),
            self.justified() ==> r.justified(),
    {
        let mut r = self.clone();
        r.decide(*var, value);
        r
    }

    /// Assigns `value` to `var` at the current level, with `clause` as the reason.
    pub fn assign_unitprop(&mut self, var: Var, value: Val, clause: Clause)
        requires
            old(self).wf(),
            1 <= var.index <= old(self).formula.num_vars,
            lit_unassigned(old(self).assignment@, Lit { var, value }),
        ensures
            final(self)@ == old(self)@.inferred(Lit { var, value }, clause@),
            final(self).wf(),
            old(self).justified() && reason_valid(
                old(self)@.assignment,
                old(self)@.num_vars,
                old(self)@.clauses,
                clause@,
                Lit { var, value },
            ) ==> final(self).justified(),
    {
        let ghost lit = Lit { var, value };
        let ghost before = self@;
        let ghost reason = ReasonView::UnitProp(clause@);
        proof {
            lemma_push_wf(before, lit, reason);
            assert(before.trail.push(TrailEntry { lit, reason }).drop_last() =~= before.trail);
        }
        self.trail.push(
            TrailElement { lit: Lit { var, value }, reason: TrailReason::UnitProp(clause) },
        );
        self.assignment.set(var, value, self.decision_level);
        proof {
            assert(self@.trail =~= before.trail.push(TrailEntry { lit, reason }));
            assert(self@ == before.inferred(lit, clause@));
            if before.justified() && reason_valid(
                before.assignment,
                before.num_vars,
                before.clauses,
                clause@,
                lit,
            ) {
                lemma_push_justified(before, lit, reason, before.decision_level);
            }
        }
    }

    /// Adds a clause to the formula.
    pub fn learn_clause(&mut self, clause: Clause)
        requires
            old(self).wf(),
            clause_in_range(clause@, old(self).formula.num_vars as nat),
        ensures
            final(self)@ == old(self)@.learned(clause@),
            final(self).wf(),
            old(self).justified() ==> final(self).justified(),
    {
        let ghost before = self@;
        self.formula.clauses.push(clause);
        proof {
            assert(self@.clauses =~= before.clauses.push(clause@));
            assert(self@ == before.learned(clause@));
            if before.justified() {
                lemma_learn_justified(before, clause@);
            }
        }
    }

    /// Scans the clauses and reports the status of the formula.
    pub fn get_status(&self) -> (r: Status)
        requires
            clauses_in_range(self.formula@, self.assignment@.len()),
        ensures
            is_status_of(self.assignment@, self.formula@, r),
    {
        let ghost a = self.assignment@;
        let ghost f = self.formula@;
        let mut unit: Option<(usize, Lit)> = None;
        let mut open: Option<Lit> = None;
        let mut i: usize = 0;
        while i < self.formula.clauses.len()
            invariant
                i <= self.formula.clauses.len(),
                a == self.assignment@,
                f == self.formula@,
                f.len() == self.formula.clauses.len(),
                clauses_in_range(f, a.len()),
                forall|j: int| 0 <= j < i ==> !clause_falsified(a, #[trigger] f[j]),
                unit is None ==> forall|j: int| 0 <= j < i ==> !clause_unit(a, #[trigger] f[j]),
                unit matches Some((u, lit)) ==> {
                    &&& u < i
                    &&& exists|k: int| unit_at(a, f[u as int], k) && f[u as int][k] == lit
                    &&& forall|j: int| u < j < i ==> !clause_unit(a, #[trigger] f[j])
                },
                open is None ==> forall|j: int|
                    0 <= j < i ==> clause_satisfied(a, #[trigger] f[j]),
                open matches Some(lit) ==> exists|o: int, k: int|
                    {
                        &&& 0 <= o < i
                        &&& !clause_satisfied(a, f[o])
                        &&& last_unassigned_at(a, f[o], k)
                        &&& f[o][k] == lit
                        &&& forall|j: int| o < j < i ==> clause_satisfied(a, #[trigger] f[j])
                    },
            decreases self.formula.clauses.len() - i,
        {
            let clause = &self.formula.clauses[i];
            assert(clause@ == f[i as int]);
            assert(clause_in_range(f[i as int], a.len()));
            match clause.status_under(&self.assignment) {
                ClauseStatus::Satisfied => {},
                ClauseStatus::Falsified => {
                    let falsified = clause.clone();
                    assert(first_falsified_at(a, f, i as int));
                    return Status::Falsified(falsified);
                },
                ClauseStatus::Unit(lit) => {
                    proof {
                        let k = choose|k: int| unit_at(a, f[i as int], k) && f[i as int][k] == lit;
                        assert(last_unassigned_at(a, f[i as int], k)) by {
                            assert forall|j: int| k < j < f[i as int].len() implies !lit_unassigned(
                                a,
                                #[trigger] f[i as int][j],
                            ) by {
                                assert(lit_falsified(a, f[i as int][j]));
                            }
                        }
                        assert(!clause_satisfied(a, f[i as int]));
                    }
                    unit = Some((i, lit));
                    open = Some(lit);
                },
                ClauseStatus::Unresolved(lit) => {
                    open = Some(lit);
                },
            }
            i += 1;
        }
        assert(!some_falsified(a, f));
        match unit {
            Some((u, lit)) => {
                let clause = self.formula.clauses[u].clone();
                proof {
                    let k = choose|k: int| unit_at(a, f[u as int], k) && f[u as int][k] == lit;
                    assert(last_unit_at(a, f, u as int, k));
                }
                Status::UnassignedUnit(lit, clause)
            },
            None => {
                assert(!some_unit(a, f));
                match open {
                    Some(lit) => {
                        proof {
                            let (o, k) = choose|o: int, k: int|
                                {
                                    &&& 0 <= o < i
                                    &&& !clause_satisfied(a, f[o])
                                    &&& last_unassigned_at(a, f[o], k)
                                    &&& f[o][k] == lit
                                    &&& forall|j: int|
                                        o < j < i ==> clause_satisfied(a, #[trigger] f[j])
                                };
                            assert(last_open_at(a, f, o, k));
                        }
                        Status::UnassignedDecision(lit)
                    },
                    None => Status::Satisfied,
                }
            },
        }
    }

    /// Undoes every assignment made above `decision_level`.
    pub fn backjump_to_decision_level(&mut self, decision_level: u32)
        requires
            old(self).wf(),
            decision_level < old(self).decision_level || decision_level == 0,
        ensures
            final(self)@ == old(self)@.backjumped(decision_level as nat),
            final(self).wf(),
            old(self).justified() ==> final(self).justified(),
    {
        let ghost before = self@;
        let mut cut: usize = 0;
        let mut seen: u32 = 0;
        let mut found = false;
        while cut < self.trail.len() && !found
            invariant
                before == self@,
                cut <= self.trail.len(),
                seen == decisions_in(before.trail.take(cut as int)),
                seen <= decision_level,
                found ==> cut < self.trail.len() && before.trail[cut as int].reason is Decision
                    && seen == decision_level,
            decreases self.trail.len() - cut + if found { 0int } else { 1int },
        {
            proof {
                assert(before.trail.take(cut as int + 1).drop_last() =~= before.trail.take(
                    cut as int,
                ));
            }
            match self.trail[cut].reason {
                TrailReason::Decision(_) => {
                    if seen == decision_level {
                        found = true;
                    } else {
                        seen += 1;
                        cut += 1;
                    }
                },
                TrailReason::UnitProp(_) => {
                    cut += 1;
                },
            }
        }
        if found {
            let snapshot = match &self.trail[cut].reason {
                TrailReason::Decision(snapshot) => snapshot.clone(),
                TrailReason::UnitProp(_) => Assignment::empty(self.formula.num_vars),
            };
            proof {
                lemma_kept_len_at_decision(before.trail, decision_level as nat, cut as int);
                assert(entry_wf(before.trail, before.num_vars, cut as int));
                lemma_cut_wf(before, cut as int);
            }
            self.trail.truncate(cut);
            self.assignment = snapshot;
            self.decision_level = decision_level;
            proof {
                assert(self@.trail =~= before.trail.take(cut as int));
                assert(self@ == before.cut_to(cut as int));
            }
        } else {
            proof {
                assert(before.trail.take(cut as int) =~= before.trail);
            }
            self.trail.truncate(0);
            self.assignment = Assignment::empty(self.formula.num_vars);
            self.decision_level = decision_level;
            proof {
                assert(self@.trail =~= Seq::<TrailEntry>::empty());
                assert(self@ == before.backjumped(decision_level as nat));
            }
        }
    }

    /// Whether every clause is satisfied.
    pub fn is_satisfied(&self) -> (r: bool)
        requires
            clauses_in_range(self.formula@, self.assignment@.len()),
        ensures
            r == all_satisfied(self.assignment@, self.formula@),
    {
        check_assignment(&self.formula, &self.assignment)
    }

    /// Whether some clause is falsified.
    pub fn is_falsified(&self) -> (r: bool)
        requires
            clauses_in_range(self.formula@, self.assignment@.len()),
        ensures
            r == some_falsified(self.assignment@, self.formula@),
    {
        let mut i: usize = 0;
        while i < self.formula.clauses.len()
            invariant
                i <= self.formula.clauses.len(),
                clauses_in_range(self.formula@, self.assignment@.len()),
                forall|j: int|
                    0 <= j < i ==> !clause_falsified(self.assignment@, #[trigger] self.formula@[j]),
            decreases self.formula.clauses.len() - i,
        {
            assert(clause_in_range(self.formula@[i as int], self.assignment@.len()));
            assert(self.formula.clauses[i as int]@ == self.formula@[i as int]);
            match self.formula.clauses[i].status_under(&self.assignment) {
                ClauseStatus::Falsified => {
                    return true;
                },
                _ => {},
            }
            i += 1;
        }
        false
    }

    /// What is left of each clause that is not satisfied, in order.
    pub fn get_equivalent_clauses(&self) -> (r: Vec<Clause>)
        requires
            clauses_in_range(self.formula@, self.assignment@.len()),
        ensures
            clause_views(r@) == residual(self.assignment@, self.formula@),
    {
        let ghost a = self.assignment@;
        let ghost f = self.formula@;
        let mut rest: Vec<Clause> = Vec::new();
        let mut i: usize = 0;
        while i < self.formula.clauses.len()
            invariant
                i <= self.formula.clauses.len(),
                a == self.assignment@,
                f == self.formula@,
                clauses_in_range(f, a.len()),
                clause_views(rest@) == residual(a, f.take(i as int)),
            decreases self.formula.clauses.len() - i,
        {
            assert(clause_in_range(f[i as int], a.len()));
            assert(self.formula.clauses[i as int]@ == f[i as int]);
            assert(f.take(i as int + 1).drop_last() =~= f.take(i as int));
            let ghost previous = clause_views(rest@);
            match self.formula.clauses[i].get_equivalent_clause(&self.assignment) {
                Some(literals) => {
                    rest.push(Clause { literals });
                    assert(clause_views(rest@) =~= previous.push(literals@));
                },
                None => {},
            }
            i += 1;
        }
        assert(f.take(i as int) =~= f);
        rest
    }

    /// Infers literals from unit clauses until none is left or a clause is falsified.
    pub fn unit_propagate(&mut self)
        requires
            old(self).wf(),
        ensures
            old(self)@.unit_propagated(final(self)@),
            old(self).justified() ==> final(self).justified(),
    {
        let ghost before = self@;
        proof {
            lemma_trail_len(before.trail, before.num_vars);
            assert(before.trail.take(before.trail.len() as int) =~= before.trail);
        }
        let mut first = true;
        loop
            invariant
                self.wf(),
                self@.num_vars == before.num_vars,
                self@.clauses == before.clauses,
                self@.decision_level == before.decision_level,
                before.trail.len() <= self@.trail.len() <= before.num_vars,
                self@.trail.take(before.trail.len() as int) == before.trail,
                forall|i: int|
                    before.trail.len() <= i < self@.trail.len() ==> inferred_from_formula(self@, i),
                before.justified() ==> self.justified(),
                first ==> self@ == before,
                !first ==> pending_unit(before.assignment, before.clauses),
            ensures
                before.unit_propagated(self@),
                before.justified() ==> self.justified(),
            decreases before.num_vars - self@.trail.len(),
        {
            proof {
                lemma_replay_len(self@.trail, self@.num_vars);
            }
            match self.get_status() {
                Status::UnassignedUnit(lit, clause) => {
                    let ghost here = self@;
                    proof {
                        let (c, k) = choose|c: int, k: int|
                            last_unit_at(here.assignment, here.clauses, c, k) && clause@
                                == here.clauses[c] && lit == here.clauses[c][k];
                        assert(clause_in_range(here.clauses[c], here.num_vars));
                        assert(clause@[k].in_range(here.num_vars));
                        lemma_member_entailed(here.num_vars, here.clauses, c);
                        lemma_push_wf(here, lit, ReasonView::UnitProp(clause@));
                        assert(clause_unit(here.assignment, here.clauses[c]));
                        assert(reason_valid(
                            here.assignment,
                            here.num_vars,
                            here.clauses,
                            clause@,
                            lit,
                        ));
                    }
                    self.assign_unitprop(lit.var, lit.value, clause);
                    proof {
                        let now = self@;
                        assert(now.trail.take(before.trail.len() as int) =~= here.trail.take(
                            before.trail.len() as int,
                        ));
                        assert forall|i: int|
                            before.trail.len() <= i < now.trail.len() implies inferred_from_formula(
                            now,
                            i,
                        ) by {
                            if i < here.trail.len() {
                                assert(inferred_from_formula(here, i));
                                assert(now.trail.take(i) =~= here.trail.take(i));
                                assert(now.trail[i] == here.trail[i]);
                            } else {
                                assert(now.trail.take(i) =~= here.trail);
                            }
                        }
                    }
                    first = false;
                },
                _ => {
                    break ;
                },
            }
        }
    }

    /// The literals that occur in the formula: entry `v - 1` of the first
    /// list tells whether variable `v` occurs positively, of the second
    /// whether it occurs negatively.
    fn polarities(&self) -> (r: (Vec<bool>, Vec<bool>))
        requires
            clauses_in_range(self.formula@, self.formula.num_vars as nat),
        ensures
            r.0.len() == self.formula.num_vars,
            r.1.len() == self.formula.num_vars,
            forall|v: int|
                0 <= v < self.formula.num_vars ==> (#[trigger] r.0@[v] <==> occurs(
                    self.formula@,
                    Lit { var: Var { index: (v + 1) as usize }, value: Val::True },
                )),
            forall|v: int|
                0 <= v < self.formula.num_vars ==> (#[trigger] r.1@[v] <==> occurs(
                    self.formula@,
                    Lit { var: Var { index: (v + 1) as usize }, value: Val::False },
                )),
    {
        let n = self.formula.num_vars;
        let ghost f = self.formula@;
        let mut positive: Vec<bool> = Vec::new();
        let mut negative: Vec<bool> = Vec::new();
        let mut v: usize = 0;
        while v < n
            invariant
                v <= n,
                positive.len() == v,
                negative.len() == v,
                forall|w: int| 0 <= w < v ==> !(#[trigger] positive@[w]),
                forall|w: int| 0 <= w < v ==> !(#[trigger] negative@[w]),
            decreases n - v,
        {
            positive.push(false);
            negative.push(false);
            v += 1;
        }
        let mut i: usize = 0;
        while i < self.formula.clauses.len()
            invariant
                i <= self.formula.clauses.len(),
                n == self.formula.num_vars,
                f == self.formula@,
                clauses_in_range(f, n as nat),
                positive.len() == n,
                negative.len() == n,
                forall|w: int|
                    0 <= w < n ==> (#[trigger] positive@[w] <==> occurs(
                        f.take(i as int),
                        Lit { var: Var { index: (w + 1) as usize }, value: Val::True },
                    )),
                forall|w: int|
                    0 <= w < n ==> (#[trigger] negative@[w] <==> occurs(
                        f.take(i as int),
                        Lit { var: Var { index: (w + 1) as usize }, value: Val::False },
                    )),
            decreases self.formula.clauses.len() - i,
        {
            let clause = &self.formula.clauses[i];
            assert(clause@ == f[i as int]);
            assert(clause_in_range(f[i as int], n as nat));
            let mut j: usize = 0;
            while j < clause.literals.len()
                invariant
                    j <= clause.literals.len(),
                    i < f.len(),
                    clause@ == f[i as int],
                    clause_in_range(clause@, n as nat),
                    positive.len() == n,
                    negative.len() == n,
                    forall|w: int|
                        0 <= w < n ==> (#[trigger] positive@[w] <==> occurs_before(
                            f,
                            i as int,
                            j as int,
                            Lit { var: Var { index: (w + 1) as usize }, value: Val::True },
                        )),
                    forall|w: int|
                        0 <= w < n ==> (#[trigger] negative@[w] <==> occurs_before(
                            f,
                            i as int,
                            j as int,
                            Lit { var: Var { index: (w + 1) as usize }, value: Val::False },
                        )),
                decreases clause.literals.len() - j,
            {
                let lit = clause.literals[j];
                assert(clause@[j as int].in_range(n as nat));
                if lit.value == Val::True {
                    positive[lit.var.index - 1] = true;
                } else {
                    negative[lit.var.index - 1] = true;
                }
                proof {
                    assert forall|w: int| 0 <= w < n implies (#[trigger] positive@[w]
                        <==> occurs_before(
                        f,
                        i as int,
                        j as int + 1,
                        Lit { var: Var { index: (w + 1) as usize }, value: Val::True },
                    )) by {
                        let l = Lit { var: Var { index: (w + 1) as usize }, value: Val::True };
                        if occurs_before(f, i as int, j as int, l) {
                        }
                        if f[i as int][j as int] == l {
                        }
                    }
                    assert forall|w: int| 0 <= w < n implies (#[trigger] negative@[w]
                        <==> occurs_before(
                        f,
                        i as int,
                        j as int + 1,
                        Lit { var: Var { index: (w + 1) as usize }, value: Val::False },
                    )) by {
                        let l = Lit { var: Var { index: (w + 1) as usize }, value: Val::False };
                        if occurs_before(f, i as int, j as int, l) {
                        }
                        if f[i as int][j as int] == l {
                        }
                    }
                }
                j += 1;
            }
            proof {
                assert forall|l: Lit|
                    occurs_before(f, i as int, f[i as int].len() as int, l) <==> occurs(
                        f.take(i as int + 1),
                        l,
                    ) by {
                    lemma_occurs_step(f, i as int, l);
                }
            }
            i += 1;
        }
        assert(f.take(i as int) =~= f);
        (positive, negative)
    }

    /// Decides every variable that occurs with one sign only and is still
    /// unassigned, giving it the value that satisfies its occurrences.
    pub fn pure_literal_eliminate(&mut self)
        requires
            old(self).wf(),
        ensures
            final(self)@ == old(self)@.purified(old(self)@.num_vars),
            final(self).wf(),
            old(self).justified() ==> final(self).justified(),
    {
        let ghost before = self@;
        let n = self.formula.num_vars;
        let (positive, negative) = self.polarities();
        let mut i: usize = 0;
        while i < n
            invariant
                i <= n,
                n == before.num_vars,
                positive.len() == n,
                negative.len() == n,
                forall|v: int|
                    0 <= v < n ==> (#[trigger] positive@[v] <==> occurs(
                        before.clauses,
                        Lit { var: Var { index: (v + 1) as usize }, value: Val::True },
                    )),
                forall|v: int|
                    0 <= v < n ==> (#[trigger] negative@[v] <==> occurs(
                        before.clauses,
                        Lit { var: Var { index: (v + 1) as usize }, value: Val::False },
                    )),
                self@ == before.purified(i as nat),
                self.wf(),
                self@.clauses == before.clauses,
                self@.num_vars == before.num_vars,
                before.justified() ==> self.justified(),
            decreases n - i,
        {
            let var = Var { index: i + 1 };
            proof {
                lemma_replay_len(self@.trail, self@.num_vars);
                assert(positive@[i as int] <==> occurs(
                    before.clauses,
                    Lit { var, value: Val::True },
                ));
                assert(negative@[i as int] <==> occurs(
                    before.clauses,
                    Lit { var, value: Val::False },
                ));
            }
            if positive[i] && !negative[i] {
                if self.assignment.get(&Lit { var, value: Val::True }).is_none() {
                    self.decide(var, Val::True);
                }
            } else if negative[i] && !positive[i] {
                if self.assignment.get(&Lit { var, value: Val::False }).is_none() {
                    self.decide(var, Val::False);
                }
            }
            i += 1;
        }
    }
}

/// The two states that result from deciding `var` true and deciding it false.
pub fn branch_on_variable(state: SolverState, var: Var) -> (r: (SolverState, SolverState))
    requires
        state.wf(),
        1 <= var.index <= state.formula.num_vars,
        state.assignment@[var.index - 1] is None,
    ensures
        r.0@ == state@.decided(Lit { var, value: Val::True }),
        r.1@ == state@.decided(Lit { var, value: Val::False }),
        r.0.wf(),
        r.1.wf(),
        state.justified() ==> r.0.justified() && r.1.justified(),
{
    let mut tstate = state.clone();
    tstate.decide(var, Val::True);
    let mut fstate = state;
    fstate.decide(var, Val::False);
    (tstate, fstate)
}

/// Whether the assignment satisfies every clause of the formula. An
/// assignment that leaves the formula undecided does not.
pub fn check_assignment(cnf: &CnfFormula, assignment: &Assignment) -> (r: bool)
    requires
        clauses_in_range(cnf@, assignment@.len()),
    ensures
        r == all_satisfied(assignment@, cnf@),
{
    let mut i: usize = 0;
    while i < cnf.clauses.len()
        invariant
            i <= cnf.clauses.len(),
            clauses_in_range(cnf@, assignment@.len()),
            forall|j: int| 0 <= j < i ==> clause_satisfied(assignment@, #[trigger] cnf@[j]),
        decreases cnf.clauses.len() - i,
    {
        assert(clause_in_range(cnf@[i as int], assignment@.len()));
        assert(cnf.clauses[i as int]@ == cnf@[i as int]);
        match cnf.clauses[i].status_under(assignment) {
            ClauseStatus::Satisfied => {},
            _ => {
                return false;
            },
        }
        i += 1;
    }
    true
}

impl SolverResult {
    /// Whether an assignment was found.
    pub fn is_satisfiable(&self) -> (r: bool)
        ensures
            r == (self is Satisfiable),
    {
        match self {
            SolverResult::Satisfiable(_) => true,
            SolverResult::Unsatisfiable(_) => false,
        }
    }

    /// Whether the formula was refuted.
    pub fn is_unsatisfiable(&self) -> (r: bool)
        ensures
            r == (self is Unsatisfiable),
    {
        match self {
            SolverResult::Satisfiable(_) => false,
            SolverResult::Unsatisfiable(_) => true,
        }
    }

    /// The satisfying assignment, if one was found.
    pub fn assignment(&self) -> (r: Option<&Assignment>)
        ensures
            match self {
                SolverResult::Satisfiable(a) => r == Some(a),
                SolverResult::Unsatisfiable(_) => r is None,
            },
    {
        match self {
            SolverResult::Satisfiable(assignment) => Some(assignment),
            SolverResult::Unsatisfiable(_) => None,
        }
    }

    /// The satisfying assignment, if one was found.
    pub fn into_assignment(self) -> (r: Option<Assignment>)
        ensures
            match self {
                SolverResult::Satisfiable(a) => r == Some(a),
                SolverResult::Unsatisfiable(_) => r is None,
            },
    {
        match self {
            SolverResult::Satisfiable(assignment) => Some(assignment),
            SolverResult::Unsatisfiable(_) => None,
        }
    }

    /// The refutation, if the formula was found unsatisfiable.
    pub fn unsat_proof(&self) -> (r: Option<&Vec<Clause>>)
        ensures
            match self {
                SolverResult::Satisfiable(_) => r is None,
                SolverResult::Unsatisfiable(clauses) => r == Some(clauses),
            },
    {
        match self {
            SolverResult::Satisfiable(_) => None,
            SolverResult::Unsatisfiable(clauses) => Some(clauses),
        }
    }
}

/// The trail invariant, entry by entry: in a well-formed state every trail
/// literal is satisfied, its recorded level is the level of its entry, no
/// earlier entry assigns its variable, and levels never fall along the trail.
pub proof fn lemma_trail_invariant(s: StateView, i: int)
    requires
        s.wf(),
        0 <= i < s.trail.len(),
    ensures
        lit_satisfied(s.assignment, s.trail[i].lit),
        lit_level(s.assignment, s.trail[i].lit) == Some(
            level_at(s.trail, i) as u32,
        ),
        level_at(s.trail, i) <= s.decision_level,
        forall|j: int| 0 <= j < i ==> (#[trigger] s.trail[j]).lit.var != s.trail[i].lit.var,
        forall|j: int| 0 <= j <= i ==> #[trigger] level_at(s.trail, j) <= level_at(s.trail, i),
{
    lemma_trail_recorded(s.trail, s.num_vars, i);
    lemma_decisions_monotone(s.trail, i + 1, s.trail.len() as int);
    assert(s.trail.take(s.trail.len() as int) =~= s.trail);
    assert forall|j: int| 0 <= j < i implies (#[trigger] s.trail[j]).lit.var
        != s.trail[i].lit.var by {
        lemma_prefix_entries(s.trail, s.num_vars, i);
        lemma_trail_recorded(s.trail.take(i), s.num_vars, j);
        assert(entry_wf(s.trail, s.num_vars, i));
    }
    assert forall|j: int| 0 <= j <= i implies #[trigger] level_at(s.trail, j) <= level_at(
        s.trail,
        i,
    ) by {
        lemma_decisions_monotone(s.trail, j + 1, i + 1);
    }
}

/// Deciding a literal and jumping back to the level before gives the state
/// before the decision.
pub proof fn lemma_decide_backjump_round_trip(s: StateView, lit: Lit)
    requires
        s.wf(),
        lit.in_range(s.num_vars),
        lit_unassigned(s.assignment, lit),
    ensures
        s.decided(lit).backjumped(s.decision_level) == s,
{
    let d = s.decided(lit);
    assert(d.trail.drop_last() =~= s.trail);
    assert(kept_len(s.trail, s.decision_level) == s.trail.len());
    assert(decisions_in(d.trail) == s.decision_level + 1);
    assert(kept_len(d.trail, s.decision_level) == s.trail.len());
    assert(d.trail.take(s.trail.len() as int) =~= s.trail);
}

/// Propagation idempotence: unit propagation run on a state that unit
/// propagation left behind changes nothing.
pub proof fn lemma_unit_propagate_idempotent(s: StateView, t: StateView, u: StateView)
    requires
        s.unit_propagated(t),
        t.unit_propagated(u),
    ensures
        u == t,
{
}

/// Unit propagation has one outcome: two states that both are a state with
/// unit propagation run to its end are the same.
pub proof fn lemma_unit_propagation_unique(s: StateView, t: StateView, u: StateView)
    requires
        s.unit_propagated(t),
        s.unit_propagated(u),
    ensures
        t == u,
{
    let shorter = if t.trail.len() <= u.trail.len() {
        t.trail.len() as int
    } else {
        u.trail.len() as int
    };
    lemma_unit_propagation_prefix(s, t, u, shorter);
    assert(t.trail.take(t.trail.len() as int) =~= t.trail);
    assert(u.trail.take(u.trail.len() as int) =~= u.trail);
    if t.trail.len() < u.trail.len() {
        assert(inferred_from_formula(u, shorter));
        let (i, k) = choose|i: int, k: int|
            last_unit_at(t.assignment, t.clauses, i, k) && u.trail[shorter].reason->UnitProp_0
                == t.clauses[i];
        assert(clause_unit(t.assignment, t.clauses[i]));
    } else if u.trail.len() < t.trail.len() {
        assert(inferred_from_formula(t, shorter));
        let (i, k) = choose|i: int, k: int|
            last_unit_at(u.assignment, u.clauses, i, k) && t.trail[shorter].reason->UnitProp_0
                == u.clauses[i];
        assert(clause_unit(u.assignment, u.clauses[i]));
    }
}

/// Agreement: two correct answers for one formula give the same verdict,
/// whichever solvers produced them.
pub proof fn lemma_solvers_agree(
    num_vars: nat,
    clauses: Seq<Seq<Lit>>,
    first: SolverResult,
    second: SolverResult,
)
    requires
        clauses_in_range(clauses, num_vars),
        decides(num_vars, clauses, first),
        decides(num_vars, clauses, second),
    ensures
        first is Satisfiable <==> second is Satisfiable,
{
    lemma_decides_sound(num_vars, clauses, first);
    lemma_decides_sound(num_vars, clauses, second);
}

/// A correct answer is `Satisfiable` exactly when the formula has a model.
pub proof fn lemma_decides_sound(num_vars: nat, clauses: Seq<Seq<Lit>>, result: SolverResult)
    requires
        clauses_in_range(clauses, num_vars),
        decides(num_vars, clauses, result),
    ensures
        result is Satisfiable <==> satisfiable(num_vars, clauses),
{
    match result {
        SolverResult::Satisfiable(a) => {
            lemma_total_assignment_is_model(a@, clauses);
        },
        SolverResult::Unsatisfiable(refutation) => {
            let last = refutation@.last();
            assert(entails(num_vars, clauses, refutation@[refutation@.len() - 1]@));
            assert(last@ =~= Seq::<Lit>::empty());
            lemma_empty_clause_refutes(num_vars, clauses);
        },
    }
}

/// Pushing an entry for an unassigned variable of the formula keeps the
/// trail invariant.
pub proof fn lemma_push_wf(s: StateView, lit: Lit, reason: ReasonView)
    requires
        s.wf(),
        lit.in_range(s.num_vars),
        lit_unassigned(s.assignment, lit),
        reason matches ReasonView::Decision(snapshot) ==> snapshot == s.assignment,
    ensures
        s.trail.len() < s.num_vars,
        s.assignment.len() == s.num_vars,
        decisions_in(s.trail.push(TrailEntry { lit, reason })) <= u32::MAX,
        s.pushed(lit, reason, decisions_in(s.trail.push(TrailEntry { lit, reason }))).wf(),
{
    let entry = TrailEntry { lit, reason };
    let trail = s.trail.push(entry);
    let level = decisions_in(trail);
    let t = s.pushed(lit, reason, level);
    lemma_trail_len(s.trail, s.num_vars);
    lemma_replay_len(s.trail, s.num_vars);
    lemma_assigned_count_bound(s.assignment);
    assert(s.assignment[lit.var.index - 1] is None);
    assert(trail.drop_last() =~= s.trail);
    lemma_decisions_bound(trail);
    assert forall|i: int| 0 <= i < trail.len() implies entry_wf(trail, s.num_vars, i) by {
        if i < s.trail.len() {
            assert(entry_wf(s.trail, s.num_vars, i));
            assert(trail.take(i) =~= s.trail.take(i));
        } else {
            assert(trail.take(i) =~= s.trail);
        }
    }
    assert(t.assignment =~= replay(trail, s.num_vars));
}

/// Pushing an entry keeps the reasons sound when the new reason is.
pub proof fn lemma_push_justified(s: StateView, lit: Lit, reason: ReasonView, level: nat)
    requires
        s.wf(),
        s.justified(),
        reason matches ReasonView::UnitProp(clause) ==> reason_valid(
            s.assignment,
            s.num_vars,
            s.clauses,
            clause,
            lit,
        ),
    ensures
        s.pushed(lit, reason, level).justified(),
{
    let t = s.pushed(lit, reason, level);
    assert forall|i: int| 0 <= i < t.trail.len() implies ((
    #[trigger] t.trail[i].reason) matches ReasonView::UnitProp(clause) ==> reason_valid(
        replay(t.trail.take(i), t.num_vars),
        t.num_vars,
        t.clauses,
        clause,
        t.trail[i].lit,
    )) by {
        if i < s.trail.len() {
            assert(t.trail.take(i) =~= s.trail.take(i));
            assert(t.trail[i] == s.trail[i]);
        } else {
            assert(t.trail.take(i) =~= s.trail);
        }
    }
}

/// Adding a clause keeps the reasons sound.
pub proof fn lemma_learn_justified(s: StateView, clause: Seq<Lit>)
    requires
        s.justified(),
    ensures
        s.learned(clause).justified(),
{
    let t = s.learned(clause);
    assert(t.clauses.take(s.clauses.len() as int) =~= s.clauses);
    assert forall|i: int| 0 <= i < t.trail.len() implies ((
    #[trigger] t.trail[i].reason) matches ReasonView::UnitProp(reason) ==> reason_valid(
        replay(t.trail.take(i), t.num_vars),
        t.num_vars,
        t.clauses,
        reason,
        t.trail[i].lit,
    )) by {
        if let ReasonView::UnitProp(reason) = t.trail[i].reason {
            assert(s.trail[i].reason == t.trail[i].reason);
            assert(reason_valid(
                replay(s.trail.take(i), s.num_vars),
                s.num_vars,
                s.clauses,
                reason,
                s.trail[i].lit,
            ));
            let c = choose|c: int| 0 <= c < s.clauses.len() && #[trigger] s.clauses[c] == reason;
            assert(t.clauses[c] == reason);
        }
    }
}

/// Cutting the trail keeps the invariants.
pub proof fn lemma_cut_wf(s: StateView, k: int)
    requires
        s.wf(),
        0 <= k <= s.trail.len(),
    ensures
        s.cut_to(k).wf(),
        s.justified() ==> s.cut_to(k).justified(),
{
    let t = s.cut_to(k);
    lemma_prefix_entries(s.trail, s.num_vars, k);
    if s.justified() {
        assert forall|i: int| 0 <= i < t.trail.len() implies ((
        #[trigger] t.trail[i].reason) matches ReasonView::UnitProp(clause) ==> reason_valid(
            replay(t.trail.take(i), t.num_vars),
            t.num_vars,
            t.clauses,
            clause,
            t.trail[i].lit,
        )) by {
            assert(t.trail.take(i) =~= s.trail.take(i));
            assert(t.trail[i] == s.trail[i]);
        }
    }
}

/// After a backjump to a lower level, a variable that was assigned at a
/// level up to that one keeps its record, and every other variable is
/// unassigned.
pub proof fn lemma_backjump_assignment(s: StateView, level: nat, v: int)
    requires
        s.wf(),
        level < s.decision_level,
        0 <= v < s.num_vars,
    ensures
        s.assignment[v] is Some && s.assignment[v]->0.decision_level <= level ==> s.backjumped(
            level,
        ).assignment[v] == s.assignment[v],
        s.assignment[v] is Some && s.assignment[v]->0.decision_level > level ==> s.backjumped(
            level,
        ).assignment[v] is None,
        s.assignment[v] is None ==> s.backjumped(level).assignment[v] is None,
{
    let kept = kept_len(s.trail, level) as int;
    lemma_kept_len_bound(s.trail, level);
    let prefix = s.trail.take(kept);
    lemma_prefix_entries(s.trail, s.num_vars, kept);
    lemma_replay_len(prefix, s.num_vars);
    lemma_replay_len(s.trail, s.num_vars);
    lemma_trail_len(s.trail, s.num_vars);
    if replay(prefix, s.num_vars)[v] is Some {
        let q = lemma_assigned_on_trail(prefix, s.num_vars, v);
        lemma_replay_extends(s.trail, s.num_vars, kept, v);
        lemma_trail_recorded(prefix, s.num_vars, q);
        lemma_trail_recorded(s.trail, s.num_vars, q);
        lemma_kept_levels(s.trail, level, q);
        lemma_decisions_monotone(s.trail, q + 1, s.trail.len() as int);
        assert(s.trail.take(s.trail.len() as int) =~= s.trail);
    } else if s.assignment[v] is Some {
        let p = lemma_assigned_on_trail(s.trail, s.num_vars, v);
        lemma_trail_recorded(s.trail, s.num_vars, p);
        lemma_kept_levels(s.trail, level, p);
        lemma_decisions_monotone(s.trail, p + 1, s.trail.len() as int);
        assert(s.trail.take(s.trail.len() as int) =~= s.trail);
        if p < kept {
            lemma_trail_recorded(prefix, s.num_vars, p);
        }
    }
}

/// The status reports one unit clause and one literal at most.
pub proof fn lemma_reports_unit_unique(
    a: Seq<Option<Record>>,
    clauses: Seq<Seq<Lit>>,
    lit: Lit,
    clause: Seq<Lit>,
    other_lit: Lit,
    other_clause: Seq<Lit>,
)
    requires
        reports_unit(a, clauses, lit, clause),
        reports_unit(a, clauses, other_lit, other_clause),
    ensures
        lit == other_lit,
        clause == other_clause,
{
    let (i, k) = choose|i: int, k: int|
        last_unit_at(a, clauses, i, k) && clause == clauses[i] && lit == clauses[i][k];
    let (j, m) = choose|j: int, m: int|
        last_unit_at(a, clauses, j, m) && other_clause == clauses[j] && other_lit
            == clauses[j][m];
    if i < j {
        assert(clause_unit(a, clauses[j]));
    }
    if j < i {
        assert(clause_unit(a, clauses[i]));
    }
    if k != m {
        assert(lit_falsified(a, clauses[i][m]));
    }
}

/// Two runs of unit propagation from one state agree on their first `i` entries.
pub proof fn lemma_unit_propagation_prefix(s: StateView, t: StateView, u: StateView, i: int)
    requires
        s.unit_propagated(t),
        s.unit_propagated(u),
        0 <= i <= t.trail.len(),
        i <= u.trail.len(),
    ensures
        t.trail.take(i) == u.trail.take(i),
    decreases i,
{
    if i <= s.trail.len() {
        assert(t.trail.take(i) =~= t.trail.take(s.trail.len() as int).take(i));
        assert(u.trail.take(i) =~= u.trail.take(s.trail.len() as int).take(i));
    } else {
        lemma_unit_propagation_prefix(s, t, u, i - 1);
        assert(inferred_from_formula(t, i - 1));
        assert(inferred_from_formula(u, i - 1));
        lemma_reports_unit_unique(
            replay(t.trail.take(i - 1), s.num_vars),
            s.clauses,
            t.trail[i - 1].lit,
            t.trail[i - 1].reason->UnitProp_0,
            u.trail[i - 1].lit,
            u.trail[i - 1].reason->UnitProp_0,
        );
        assert(t.trail[i - 1] == u.trail[i - 1]);
        assert(t.trail.take(i) =~= t.trail.take(i - 1).push(t.trail[i - 1]));
        assert(u.trail.take(i) =~= u.trail.take(i - 1).push(u.trail[i - 1]));
    }
}

} // verus!
