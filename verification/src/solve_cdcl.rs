//! Conflict-driven clause learning.

use crate::assignment::{
    filled, is_total, lit_falsified, lit_level, lit_satisfied, lit_unassigned, Record,
};
use crate::formula::{
    clause_in_range, clause_views, clauses_in_range, entails, lemma_empty_clause_refutes,
    lemma_member_entailed, lemma_negation, satisfiable, Clause, CnfFormula, Lit, Val, Var,
};
use crate::inspection::{
    all_satisfied, clause_falsified, clause_satisfied, first_falsified_at, last_open_at,
    last_unit_at, lemma_filled_satisfies, unit_at,
};
use crate::progress::{
    lemma_conflict_progress, lemma_progress_below_limit, lemma_progress_extends,
    lemma_progress_push, progress, progress_limit,
};
use crate::refutation::{
    denied, derived_from, is_rup, is_rup_refutation, known, lemma_derived_push,
    lemma_derived_refutation, lemma_refutation_prefix, lemma_rup_sound, propagates, refutes,
};
use crate::solver_state::{
    decides, is_status_of, lemma_backjump_assignment, reason_valid, SolverResult, SolverState,
    StateView, Status, TrailReason,
};
use crate::text::{conflict_text, lit_text, number_text, push_joined, push_number, string_views};
use crate::trail::{
    kept_len, lemma_assigned_on_trail, lemma_decisions_monotone, lemma_kept_len_bound,
    lemma_kept_levels, lemma_prefix_entries, lemma_replay_extends, lemma_replay_len,
    lemma_trail_len, lemma_trail_recorded, level_at, replay, ReasonView, TrailEntry,
};
use vstd::prelude::*;
use vstd::string::StringExecFns;

verus! {

/// Where the walk back along the trail stops.
#[derive(Debug, Clone, Copy, PartialEq, Eq, Structural)]
pub enum UipPolicy {
    /// At the first point where one conflicting literal only is at the
    /// highest level.
    First,
    /// At the decision that opened the highest level.
    Last,
}

/// The order in which conflicting literals are kept: by level, then by
/// variable, then true before false.
pub open spec fn entry_before(a: (u32, Lit), b: (u32, Lit)) -> bool {
    ||| a.0 < b.0
    ||| a.0 == b.0 && a.1.var.index < b.1.var.index
    ||| a.0 == b.0 && a.1.var.index == b.1.var.index && a.1.value == Val::True && b.1.value
        == Val::False
}

/// The entries are in strictly increasing order, and each holds a literal
/// that the assignment satisfies, with the level at which it was assigned.
pub open spec fn entries_wf(entries: Seq<(u32, Lit)>, a: Seq<Option<Record>>) -> bool {
    &&& forall|i: int, j: int|
        0 <= i < j < entries.len() ==> entry_before(#[trigger] entries[i], #[trigger] entries[j])
    &&& forall|i: int|
        0 <= i < entries.len() ==> {
            &&& (#[trigger] entries[i]).1.in_range(a.len())
            &&& a[entries[i].1.var.index - 1] == Some(
                Record { value: entries[i].1.value, decision_level: entries[i].0 },
            )
        }
}

/// Whether `lit` is among the conflicting literals.
pub open spec fn holds_lit(entries: Seq<(u32, Lit)>, lit: Lit) -> bool {
    exists|i: int| 0 <= i < entries.len() && (#[trigger] entries[i]).1 == lit
}

/// The literals of the entries.
pub open spec fn entry_lits(entries: Seq<(u32, Lit)>) -> Seq<Lit> {
    Seq::new(entries.len(), |i: int| entries[i].1)
}

/// The clause that denies the conjunction of the conflicting literals.
pub open spec fn negated_lits(entries: Seq<(u32, Lit)>) -> Seq<Lit> {
    Seq::new(entries.len(), |i: int| entries[i].1.negated())
}

/// The level of the entry below the top one, or 0 if there is none.
pub open spec fn second_level(entries: Seq<(u32, Lit)>) -> u32 {
    if entries.len() >= 2 {
        entries[entries.len() - 2].0
    } else {
        0
    }
}

/// Every conflicting literal is assigned by the assignment.
pub open spec fn assigned_under(entries: Seq<(u32, Lit)>, a: Seq<Option<Record>>) -> bool {
    forall|i: int| 0 <= i < entries.len() ==> a[(#[trigger] entries[i]).1.var.index - 1] is Some
}

/// Whether `lit` is the negation of one of the first `upto` literals of the
/// clause, one over another variable than `var`.
pub open spec fn used_upto(clause: Seq<Lit>, var: Var, upto: int, lit: Lit) -> bool {
    exists|j: int|
        0 <= j < upto && j < clause.len() && (#[trigger] clause[j]).var != var
            && clause[j].negated() == lit
}

/// Whether `lit` is the negation of a literal that the inference of
/// `entry` used: a literal of its reason over another variable.
pub open spec fn used_by(entry: TrailEntry, lit: Lit) -> bool {
    entry.reason matches ReasonView::UnitProp(clause) && used_upto(
        clause,
        entry.lit.var,
        clause.len() as int,
        lit,
    )
}

/// Whether `learned` may be learned from a conflict in state `s`, with a
/// backjump to `level`: it follows from the formula, it is falsified, its
/// last literal alone was assigned above `level`, and `level` is the highest
/// level among the others, or 0 if there are none.
pub open spec fn is_asserting(s: StateView, learned: Seq<Lit>, level: nat) -> bool {
    &&& clause_in_range(learned, s.num_vars)
    &&& entails(s.num_vars, s.clauses, learned)
    &&& clause_falsified(s.assignment, learned)
    &&& learned.len() >= 1
    &&& level < lit_level(s.assignment, learned.last())->0 <= s.decision_level
    &&& forall|j: int|
        0 <= j < learned.len() - 1 ==> lit_level(s.assignment, #[trigger] learned[j])->0 <= level
    &&& level == if learned.len() >= 2 {
        lit_level(s.assignment, learned[learned.len() - 2])->0 as nat
    } else {
        0nat
    }
}

/// Whether the literal was decided.
pub open spec fn is_decision_lit(s: StateView, lit: Lit) -> bool {
    exists|p: int|
        0 <= p < s.trail.len() && (#[trigger] s.trail[p]).reason is Decision && s.trail[p].lit
            == lit
}

/// The reason of an inferred entry.
pub open spec fn reason_of(s: StateView, i: int) -> Seq<Lit> {
    s.trail[i].reason->UnitProp_0
}

/// The place in the formula of the reason of an inferred entry.
pub open spec fn reason_index(s: StateView, i: int) -> int {
    choose|c: int| 0 <= c < s.clauses.len() && #[trigger] s.clauses[c] == reason_of(s, i)
}

/// The entries at level 0, each with its reason: a trace of unit propagations.
pub open spec fn ground_trace(s: StateView) -> Seq<(int, Lit)> {
    Seq::new(
        kept_len(s.trail, 0),
        |i: int| (reason_index(s, i), s.trail[i].lit),
    )
}

/// Whether `lit` is a conflicting literal when the cut lies just before
/// entry `bound` of the trail. With the cut at the end of the trail the
/// conflicting literals are the negations of the clause's literals. Moving
/// the cut to the left of an inferred entry whose literal is conflicting
/// takes that literal out and the literals that its inference used in.
pub open spec fn in_cut(s: StateView, clause: Seq<Lit>, bound: int, lit: Lit) -> bool
    decreases s.trail.len() - bound,
{
    if bound < 0 || bound >= s.trail.len() {
        clause.contains(lit.negated())
    } else {
        let entry = s.trail[bound];
        if in_cut(s, clause, bound + 1, entry.lit) && entry.reason is UnitProp {
            lit != entry.lit && (in_cut(s, clause, bound + 1, lit) || used_by(entry, lit))
        } else {
            in_cut(s, clause, bound + 1, lit)
        }
    }
}

/// The level at which an assigned literal was assigned.
pub open spec fn level_of(s: StateView, lit: Lit) -> u32 {
    lit_level(s.assignment, lit)->0
}

/// With the cut at `bound`, no conflicting literal depends on a decision.
#[verifier::opaque]
pub open spec fn cut_refuted(s: StateView, clause: Seq<Lit>, bound: int) -> bool {
    forall|lit: Lit| in_cut(s, clause, bound, lit) ==> level_of(s, lit) == 0
}

/// With the cut at `bound`, one conflicting literal is at a higher level
/// than all the others.
#[verifier::opaque]
pub open spec fn cut_unique_top(s: StateView, clause: Seq<Lit>, bound: int) -> bool {
    exists|top: Lit|
        #[trigger] in_cut(s, clause, bound, top) && forall|lit: Lit|
            in_cut(s, clause, bound, lit) && lit != top ==> level_of(s, lit) < level_of(s, top)
}

/// The cut at `bound` lies just after a decision that is a conflicting literal.
pub open spec fn cut_at_decision(s: StateView, clause: Seq<Lit>, bound: int) -> bool {
    &&& 0 < bound <= s.trail.len()
    &&& s.trail[bound - 1].reason is Decision
    &&& in_cut(s, clause, bound, s.trail[bound - 1].lit)
}

/// Whether the walk stops with the cut at `bound`.
pub open spec fn cut_stops(s: StateView, clause: Seq<Lit>, bound: int, policy: UipPolicy) -> bool {
    match policy {
        UipPolicy::First => cut_unique_top(s, clause, bound),
        UipPolicy::Last => cut_at_decision(s, clause, bound),
    }
}

/// Whether the walk back from the end of the trail comes as far as the cut
/// at `bound`: at no cut after it is the conflict refuted, and at none does
/// the policy say stop.
#[verifier::opaque]
pub open spec fn walk_reaches(
    s: StateView,
    clause: Seq<Lit>,
    policy: UipPolicy,
    bound: int,
) -> bool {
    forall|b: int|
        bound < b <= s.trail.len() ==> !#[trigger] cut_refuted(s, clause, b) && !cut_stops(
            s,
            clause,
            b,
            policy,
        )
}

/// Whether the walk back from the end of the trail ends with the cut at
/// `bound`: it comes as far, and there the conflict is refuted or the
/// policy says stop.
pub open spec fn walk_ends_at(
    s: StateView,
    clause: Seq<Lit>,
    policy: UipPolicy,
    bound: int,
) -> bool {
    &&& 0 <= bound <= s.trail.len()
    &&& walk_reaches(s, clause, policy, bound)
    &&& cut_refuted(s, clause, bound) || cut_stops(s, clause, bound, policy)
}

/// The set of literals, all satisfied by the current assignment, that
/// together lead to a conflict. It is kept ordered by decision level, so its
/// last entry is at the highest level.
pub struct ConflictingLits {
    literals: Vec<(u32, Lit)>,
}

impl View for ConflictingLits {
    type V = Seq<(u32, Lit)>;

    closed spec fn view(&self) -> Seq<(u32, Lit)> {
        self.literals@
    }
}

fn entry_less(a: &(u32, Lit), b: &(u32, Lit)) -> (r: bool)
    ensures
        r == entry_before(*a, *b),
{
    if a.0 != b.0 {
        a.0 < b.0
    } else if a.1.var.index != b.1.var.index {
        a.1.var.index < b.1.var.index
    } else {
        a.1.value == Val::True && b.1.value == Val::False
    }
}

impl ConflictingLits {
    /// The negations of the literals of a falsified clause.
    pub fn new(falsified_clause: &Clause, state: &SolverState) -> (r: Self)
        requires
            state.wf(),
            clause_in_range(falsified_clause@, state@.num_vars),
            clause_falsified(state@.assignment, falsified_clause@),
        ensures
            entries_wf(r@, state@.assignment),
            forall|lit: Lit|
                holds_lit(r@, lit) <==> falsified_clause@.contains(lit.negated()),
    {
        let mut r = ConflictingLits { literals: Vec::new() };
        let mut i: usize = 0;
        proof {
            lemma_replay_len(state@.trail, state@.num_vars);
        }
        while i < falsified_clause.literals.len()
            invariant
                i <= falsified_clause.literals.len(),
                state@.assignment.len() == state@.num_vars,
                clause_in_range(falsified_clause@, state@.num_vars),
                clause_falsified(state@.assignment, falsified_clause@),
                entries_wf(r@, state@.assignment),
                forall|lit: Lit|
                    holds_lit(r@, lit) <==> falsified_clause@.take(i as int).contains(
                        lit.negated(),
                    ),
            decreases falsified_clause.literals.len() - i,
        {
            let lit = falsified_clause.literals[i];
            let ghost before = r@;
            assert(falsified_clause@[i as int].in_range(state@.num_vars));
            assert(lit_falsified(state@.assignment, falsified_clause@[i as int]));
            r.insert(lit.not(), state);
            proof {
                let shorter = falsified_clause@.take(i as int);
                let longer = falsified_clause@.take(i as int + 1);
                assert forall|l: Lit| holds_lit(r@, l) <==> longer.contains(l.negated()) by {
                    if shorter.contains(l.negated()) {
                        let p = choose|p: int| 0 <= p < shorter.len() && shorter[p] == l.negated();
                        assert(longer[p] == l.negated());
                    }
                    if l == lit.negated() {
                        assert(longer[i as int] == l.negated());
                    }
                    if longer.contains(l.negated()) {
                        let p = choose|p: int| 0 <= p < longer.len() && longer[p] == l.negated();
                        if p < i {
                            assert(shorter[p] == l.negated());
                        } else {
                            assert(l.negated() == lit);
                            assert(l == lit.negated());
                        }
                    }
                }
            }
            i += 1;
        }
        assert(falsified_clause@.take(i as int) =~= falsified_clause@);
        r
    }

    /// The conflicting literals as text: `x1(1) ^ -x4(2)` and an arrow to
    /// the sign of the empty set.
    pub fn to_text(&self) -> (r: String)
        ensures
            r@ == conflict_text(self@),
    {
        let mut texts: Vec<String> = Vec::new();
        let mut i: usize = 0;
        while i < self.literals.len()
            invariant
                i <= self.literals.len(),
                texts@.len() == i,
                forall|j: int|
                    0 <= j < i ==> (#[trigger] texts@[j])@ == lit_text(self@[j].1)
                        + "("@ + number_text(self@[j].0 as nat) + ")"@,
            decreases self.literals.len() - i,
        {
            let (level, lit) = self.literals[i];
            let mut text = lit.to_text();
            text.append("(");
            push_number(&mut text, level as usize);
            text.append(")");
            texts.push(text);
            i += 1;
        }
        assert(string_views(texts@) =~= Seq::new(
            self@.len(),
            |i: int|
                lit_text(self@[i].1) + "("@ + number_text(
                    self@[i].0 as nat,
                ) + ")"@,
        ));
        let mut out = String::new();
        push_joined(&mut out, &texts, " ^ ");
        out.append(" -> \u{f8}");
        assert(out@ =~= conflict_text(self@));
        out
    }

    /// Whether there is no conflicting literal.
    pub fn is_empty(&self) -> (r: bool)
        ensures
            r == (self@.len() == 0),
    {
        self.literals.len() == 0
    }

    /// The highest level among the conflicting literals.
    pub fn get_conflict_level(&self) -> (r: u32)
        requires
            self@.len() > 0,
        ensures
            r == self@.last().0,
    {
        self.literals[self.literals.len() - 1].0
    }

    /// The second entry from the top's level, or 0 if there is one entry only:
    /// the level to jump back to.
    pub fn get_backjump_level(&self) -> (r: u32)
        requires
            self@.len() > 0,
        ensures
            r == second_level(self@),
    {
        if self.literals.len() >= 2 {
            self.literals[self.literals.len() - 2].0
        } else {
            0
        }
    }

    /// The clause that denies the conflicting literals, in their order.
    pub fn get_learned_clause(&self) -> (r: Clause)
        ensures
            r@ == negated_lits(self@),
    {
        let mut literals: Vec<Lit> = Vec::new();
        let mut i: usize = 0;
        while i < self.literals.len()
            invariant
                i <= self.literals.len(),
                literals@ == negated_lits(self@).take(i as int),
            decreases self.literals.len() - i,
        {
            literals.push(self.literals[i].1.not());
            assert(negated_lits(self@).take(i as int + 1) =~= negated_lits(self@).take(
                i as int,
            ).push(self@[i as int].1.negated()));
            i += 1;
        }
        assert(negated_lits(self@).take(i as int) =~= negated_lits(self@));
        Clause { literals }
    }

    /// Whether `lit` is a conflicting literal.
    pub fn contains(&self, lit: Lit) -> (r: bool)
        ensures
            r == holds_lit(self@, lit),
    {
        let mut i: usize = 0;
        while i < self.literals.len()
            invariant
                i <= self.literals.len(),
                forall|j: int| 0 <= j < i ==> (#[trigger] self@[j]).1 != lit,
            decreases self.literals.len() - i,
        {
            if self.literals[i].1 == lit {
                return true;
            }
            i += 1;
        }
        false
    }

    /// Adds a literal that the assignment satisfies.
    pub fn insert(&mut self, lit: Lit, state: &SolverState)
        requires
            lit.in_range(state@.assignment.len()),
            lit_satisfied(state@.assignment, lit),
            entries_wf(old(self)@, state@.assignment),
        ensures
            entries_wf(final(self)@, state@.assignment),
            forall|l: Lit| holds_lit(final(self)@, l) <==> holds_lit(old(self)@, l) || l == lit,
            old(self)@.len() <= final(self)@.len() <= old(self)@.len() + 1,
    {
        let level = match state.assignment.get_decision_level(&lit) {
            Some(level) => level,
            None => 0,
        };
        let entry = (level, lit);
        let ghost before = self@;
        let mut at: usize = 0;
        while at < self.literals.len() && entry_less(&self.literals[at], &entry)
            invariant
                at <= self.literals.len(),
                self@ == before,
                forall|j: int| 0 <= j < at ==> entry_before(#[trigger] before[j], entry),
            decreases self.literals.len() - at,
        {
            at += 1;
        }
        if at < self.literals.len() && self.literals[at].1 == lit {
            assert(holds_lit(before, lit));
        } else {
            proof {
                if at < before.len() {
                    assert(!entry_before(before[at as int], entry));
                    assert(before[at as int].1 != lit);
                }
                assert(!holds_lit(before, lit)) by {
                    if holds_lit(before, lit) {
                        let p = choose|p: int| 0 <= p < before.len() && (#[trigger] before[p]).1
                            == lit;
                        assert(before[p] == entry);
                        if p < at {
                            assert(entry_before(before[p], entry));
                        } else if p > at {
                            assert(entry_before(before[at as int], before[p]));
                        }
                    }
                }
                assert forall|j: int| at <= j < before.len() implies entry_before(
                    entry,
                    #[trigger] before[j],
                ) by {
                    assert(!entry_before(before[at as int], entry));
                    if j > at {
                        assert(entry_before(before[at as int], before[j]));
                    }
                    let other = before[j];
                    if other.1.var.index == lit.var.index {
                        assert(other.1.value == lit.value);
                        assert(other.0 == level);
                        assert(other.1 == lit);
                        if j == at {
                        } else {
                            assert(before[at as int].1 != lit);
                        }
                        assert(holds_lit(before, lit));
                    }
                }
            }
            self.literals.insert(at, entry);
            proof {
                let after = self@;
                assert(after =~= before.insert(at as int, entry));
                assert forall|i: int, j: int| 0 <= i < j < after.len() implies entry_before(
                    #[trigger] after[i],
                    #[trigger] after[j],
                ) by {
                    let oi = if i < at { i } else { i - 1 };
                    let oj = if j < at { j } else { j - 1 };
                    if i != at && j != at {
                        assert(entry_before(before[oi], before[oj]));
                    } else if i == at {
                        assert(entry_before(entry, before[oj]));
                    } else {
                        assert(entry_before(before[oi], entry));
                    }
                }
                assert forall|l: Lit| holds_lit(after, l) <==> holds_lit(before, l) || l
                    == lit by {
                    if holds_lit(before, l) {
                        let p = choose|p: int| 0 <= p < before.len() && (#[trigger] before[p]).1
                            == l;
                        let q = if p < at { p } else { p + 1 };
                        assert(after[q].1 == l);
                    }
                    if l == lit {
                        assert(after[at as int].1 == l);
                    }
                    if holds_lit(after, l) {
                        let q = choose|q: int| 0 <= q < after.len() && (#[trigger] after[q]).1
                            == l;
                        if q != at {
                            let p = if q < at { q } else { q - 1 };
                            assert(before[p].1 == l);
                        }
                    }
                }
                assert forall|i: int| 0 <= i < after.len() implies {
                    &&& (#[trigger] after[i]).1.in_range(state@.assignment.len())
                    &&& state@.assignment[after[i].1.var.index - 1] == Some(
                        Record { value: after[i].1.value, decision_level: after[i].0 },
                    )
                } by {
                    if i != at {
                        let p = if i < at { i } else { i - 1 };
                        assert(after[i] == before[p]);
                    }
                }
            }
        }
    }

    /// Takes a literal out, if it is there.
    pub fn remove(&mut self, lit: Lit, state: &SolverState)
        requires
            entries_wf(old(self)@, state@.assignment),
        ensures
            entries_wf(final(self)@, state@.assignment),
            forall|l: Lit| holds_lit(final(self)@, l) <==> holds_lit(old(self)@, l) && l != lit,
            final(self)@.len() <= old(self)@.len() <= final(self)@.len() + 1,
            holds_lit(old(self)@, lit) ==> final(self)@.len() + 1 == old(self)@.len(),
    {
        let ghost before = self@;
        let mut at: usize = 0;
        while at < self.literals.len() && !(self.literals[at].1 == lit)
            invariant
                at <= self.literals.len(),
                self@ == before,
                forall|j: int| 0 <= j < at ==> (#[trigger] before[j]).1 != lit,
            decreases self.literals.len() - at,
        {
            at += 1;
        }
        if at < self.literals.len() {
            self.literals.remove(at);
            proof {
                let after = self@;
                assert(after =~= before.remove(at as int));
                assert forall|j: int| at < j < before.len() implies (#[trigger] before[j]).1
                    != lit by {
                    assert(entry_before(before[at as int], before[j]));
                }
                assert forall|i: int, j: int| 0 <= i < j < after.len() implies entry_before(
                    #[trigger] after[i],
                    #[trigger] after[j],
                ) by {
                    let oi = if i < at { i } else { i + 1 };
                    let oj = if j < at { j } else { j + 1 };
                    assert(entry_before(before[oi], before[oj]));
                }
                assert forall|l: Lit| holds_lit(after, l) <==> holds_lit(before, l) && l
                    != lit by {
                    if holds_lit(before, l) && l != lit {
                        let p = choose|p: int| 0 <= p < before.len() && (#[trigger] before[p]).1
                            == l;
                        let q = if p < at { p } else { p - 1 };
                        assert(after[q].1 == l);
                    }
                    if holds_lit(after, l) {
                        let q = choose|q: int| 0 <= q < after.len() && (#[trigger] after[q]).1
                            == l;
                        let p = if q < at { q } else { q + 1 };
                        assert(before[p].1 == l);
                    }
                }
                assert forall|i: int| 0 <= i < after.len() implies {
                    &&& (#[trigger] after[i]).1.in_range(state@.assignment.len())
                    &&& state@.assignment[after[i].1.var.index - 1] == Some(
                        Record { value: after[i].1.value, decision_level: after[i].0 },
                    )
                } by {
                    let p = if i < at { i } else { i + 1 };
                    assert(after[i] == before[p]);
                }
            }
        }
    }

    /// Moves the cut to the left of trail entry `pos`, which was inferred:
    /// the literals that its reason used come in, and its own literal goes out.
    pub fn update(&mut self, state: &SolverState, pos: usize)
        requires
            state.wf(),
            state.justified(),
            pos < state.trail.len(),
            state@.trail[pos as int].reason is UnitProp,
            entries_wf(old(self)@, state@.assignment),
        ensures
            entries_wf(final(self)@, state@.assignment),
            forall|l: Lit|
                holds_lit(final(self)@, l) <==> l != state@.trail[pos as int].lit && (holds_lit(
                    old(self)@,
                    l,
                ) || used_by(state@.trail[pos as int], l)),
            final(self)@.len() + 1 >= old(self)@.len(),
    {
        let ghost before = self@;
        let ghost s = state@;
        let ghost entry = s.trail[pos as int];
        let ghost a = s.assignment;
        match &state.trail[pos].reason {
            TrailReason::UnitProp(clause) => {
                proof {
                    assert(ReasonView::UnitProp(clause@) == entry.reason);
                    lemma_reason_literals(s, pos as int);
                }
                let target = state.trail[pos].lit;
                let mut i: usize = 0;
                while i < clause.literals.len()
                    invariant
                        i <= clause.literals.len(),
                        a == state@.assignment,
                        clause_in_range(clause@, a.len()),
                        forall|j: int|
                            0 <= j < clause@.len() && (#[trigger] clause@[j]).var != target.var
                                ==> lit_satisfied(a, clause@[j].negated()),
                        entries_wf(self@, a),
                        before.len() <= self@.len(),
                        forall|l: Lit|
                            #![trigger holds_lit(self@, l)]
                            holds_lit(self@, l) <==> holds_lit(before, l) || used_upto(
                                clause@,
                                target.var,
                                i as int,
                                l,
                            ),
                    decreases clause.literals.len() - i,
                {
                    let lit = clause.literals[i];
                    let ghost here = self@;
                    assert(clause@[i as int].in_range(a.len()));
                    if lit.var == target.var {
                    } else {
                        self.insert(lit.not(), state);
                    }
                    proof {
                        let now = self@;
                        assert forall|l: Lit| #![trigger holds_lit(now, l)]
                            holds_lit(now, l) <==> holds_lit(before, l) || used_upto(
                                clause@,
                                target.var,
                                i as int + 1,
                                l,
                            ) by {
                            lemma_used_step(clause@, target.var, i as int, l);
                            assert(holds_lit(here, l) <==> holds_lit(before, l) || used_upto(
                                clause@,
                                target.var,
                                i as int,
                                l,
                            ));
                            if lit.var != target.var {
                                assert(holds_lit(now, l) <==> holds_lit(here, l) || l
                                    == lit.negated());
                            }
                        }
                    }
                    i += 1;
                }
                self.remove(target, state);
            },
            TrailReason::Decision(_) => {},
        }
    }

    /// Whether one entry only is at the highest level.
    pub fn has_unique_top(&self) -> (r: bool)
        requires
            self@.len() >= 1,
        ensures
            r == (self@.len() == 1 || second_level(self@) < self@.last().0),
    {
        let n = self.literals.len();
        n == 1 || self.literals[n - 2].0 < self.literals[n - 1].0
    }
}

/// Derives from a falsified clause the clause to learn and the level to
/// jump back to. The conflicting literals start as the negations of the
/// clause's literals; going back along the trail, each inferred literal
/// among them is replaced by the negations of the other literals of its
/// reason, until the policy says stop. Returns `None` when the conflict
/// does not depend on any decision, so that the formula has no model.
pub fn analyze_conflict(state: &SolverState, falsified_clause: &Clause, policy: UipPolicy) -> (r:
    Option<(Clause, u32)>)
    requires
        state.wf(),
        state.justified(),
        clause_in_range(falsified_clause@, state@.num_vars),
        clause_falsified(state@.assignment, falsified_clause@),
        state@.clauses.contains(falsified_clause@),
    ensures
        match r {
            None => {
                &&& !satisfiable(state@.num_vars, state@.clauses)
                &&& is_rup(state@.clauses, Seq::<Lit>::empty())
            },
            Some((learned, level)) => {
                &&& is_asserting(state@, learned@, level as nat)
                &&& is_rup(state@.clauses, learned@)
                &&& policy == UipPolicy::Last ==> is_decision_lit(
                    state@,
                    learned@.last().negated(),
                )
            },
        },
        exists|bound: int|
            {
                &&& #[trigger] walk_ends_at(state@, falsified_clause@, policy, bound)
                &&& match r {
                    None => cut_refuted(state@, falsified_clause@, bound),
                    Some((learned, _)) => {
                        &&& !cut_refuted(state@, falsified_clause@, bound)
                        &&& forall|lit: Lit|
                            learned@.contains(lit.negated()) <==> in_cut(
                                state@,
                                falsified_clause@,
                                bound,
                                lit,
                            )
                    },
                }
            },
{
    let ghost s = state@;
    let ghost given = falsified_clause@;
    let mut conflict = ConflictingLits::new(falsified_clause, state);
    let mut bound: usize = state.trail.len();
    let ghost k = choose|k: int| 0 <= k < s.clauses.len() && s.clauses[k] == falsified_clause@;
    let ghost mut trace: Seq<(int, Lit)> = Seq::empty();
    proof {
        assert(holds_cut(s, given, bound as int, conflict@)) by {
            reveal(holds_cut);
        }
        assert(walk_reaches(s, given, policy, bound as int)) by {
            reveal(walk_reaches);
        }
        lemma_conflict_initial(s.clauses, k, conflict@);
        lemma_replay_len(s.trail, s.num_vars);
        assert(s.trail.take(bound as int) =~= s.trail);
    }
    loop
        invariant
            s == state@,
            s.wf(),
            s.justified(),
            bound <= state.trail.len(),
            s.trail.len() == state.trail.len(),
            s.assignment.len() == s.num_vars,
            entries_wf(conflict@, s.assignment),
            assigned_under(conflict@, replay(s.trail.take(bound as int), s.num_vars)),
            refutes(s.clauses, entry_lits(conflict@), trace, k),
            given == falsified_clause@,
            holds_cut(s, given, bound as int, conflict@),
            walk_reaches(s, given, policy, bound as int),
        decreases bound,
    {
        proof {
            lemma_cut_levels(s, conflict@, given, bound as int);
        }
        if conflict.is_empty() {
            proof {
                lemma_refuted_rup(s, conflict@, trace, k);
                lemma_rup_sound(s.num_vars, s.clauses, Seq::<Lit>::empty());
                lemma_empty_clause_refutes(s.num_vars, s.clauses);
                assert(walk_ends_at(s, given, policy, bound as int));
            }
            return None;
        }
        if conflict.get_conflict_level() == 0 {
            proof {
                lemma_refuted_rup(s, conflict@, trace, k);
                lemma_rup_sound(s.num_vars, s.clauses, Seq::<Lit>::empty());
                lemma_empty_clause_refutes(s.num_vars, s.clauses);
                assert(walk_ends_at(s, given, policy, bound as int));
            }
            return None;
        }
        if policy == UipPolicy::First && conflict.has_unique_top() {
            let learned = conflict.get_learned_clause();
            let level = conflict.get_backjump_level();
            proof {
                lemma_conflict_rup(s.clauses, conflict@, trace, k);
                lemma_learned_asserting(s, conflict@);
                lemma_learned_members(s, given, bound as int, conflict@);
                assert(walk_ends_at(s, given, policy, bound as int));
            }
            return Some((learned, level));
        }
        proof {
            if bound == 0 {
                assert(conflict@[0].1.in_range(s.num_vars));
            }
        }
        let lit = state.trail[bound - 1].lit;
        assert(lit == s.trail[bound - 1].lit);
        if conflict.contains(lit) {
            match &state.trail[bound - 1].reason {
                TrailReason::Decision(_) => {
                    let learned = conflict.get_learned_clause();
                    let level = conflict.get_backjump_level();
                    proof {
                        assert(s.trail[bound - 1].reason is Decision);
                        lemma_decision_on_top(s, conflict@, bound as int);
                        lemma_conflict_rup(s.clauses, conflict@, trace, k);
                        lemma_learned_asserting(s, conflict@);
                        lemma_negation(Seq::empty(), lit);
                        lemma_learned_members(s, given, bound as int, conflict@);
                        lemma_holds_cut(s, given, bound as int, conflict@, lit);
                        assert(cut_at_decision(s, given, bound as int));
                        assert(walk_ends_at(s, given, policy, bound as int));
                    }
                    return Some((learned, level));
                },
                TrailReason::UnitProp(_) => {
                    let ghost before = conflict@;
                    conflict.update(state, bound - 1);
                    proof {
                        lemma_after_update(s, before, conflict@, bound as int);
                        lemma_update_refutes(s, before, conflict@, bound as int, trace, k);
                        trace = seq![(reason_index(s, bound - 1), lit)] + trace;
                        lemma_walk_on(s, given, policy, bound as int, before, conflict@);
                    }
                },
            }
        } else {
            proof {
                lemma_after_skip(s, conflict@, bound as int);
                lemma_walk_on(s, given, policy, bound as int, conflict@, conflict@);
            }
        }
        bound -= 1;
    }
}

/// The clauses from `first_learned` on, then the empty clause.
fn refutation_of(clauses: &Vec<Clause>, first_learned: usize) -> (r: Vec<Clause>)
    requires
        first_learned <= clauses.len(),
    ensures
        clause_views(r@) == clause_views(clauses@).skip(
            first_learned as int,
        ).push(Seq::<Lit>::empty()),
{
    let ghost views = clause_views(clauses@);
    let mut r: Vec<Clause> = Vec::new();
    let mut i: usize = first_learned;
    while i < clauses.len()
        invariant
            first_learned <= i <= clauses.len(),
            r@.len() == i - first_learned,
            forall|j: int|
                0 <= j < r@.len() ==> (#[trigger] r@[j])@ == clauses@[first_learned + j]@,
        decreases clauses.len() - i,
    {
        r.push(clauses[i].clone());
        i += 1;
    }
    r.push(Clause { literals: Vec::new() });
    assert(clause_views(r@) =~= views.skip(first_learned as int).push(
        Seq::<Lit>::empty(),
    ));
    r
}

/// Learns an asserting clause, jumps back to its level, and infers its last
/// literal there.
fn learn_and_jump(state: &mut SolverState, learned: Clause, level: u32)
    requires
        old(state).wf(),
        old(state).justified(),
        is_asserting(old(state)@, learned@, level as nat),
    ensures
        final(state).wf(),
        final(state).justified(),
        final(state)@.num_vars == old(state)@.num_vars,
        final(state)@.clauses == old(state)@.clauses.push(learned@),
        progress(final(state)@.trail, old(state)@.num_vars) > progress(
            old(state)@.trail,
            old(state)@.num_vars,
        ),
{
    let ghost s = state@;
    let asserting = learned.literals[learned.literals.len() - 1];
    proof {
        lemma_learn_then_jump(s, learned@, level as nat);
    }
    state.learn_clause(learned.clone());
    state.backjump_to_decision_level(level);
    state.assign_unitprop(asserting.var, asserting.value, learned);
}

/// Decides the formula of a state by conflict-driven clause learning with
/// the given policy. With [`UipPolicy::First`] unit propagation runs to its
/// end before each look at the status. A conflict is analysed, its clause
/// learned, the state jumps back, and the clause's last literal is inferred
/// at once; a conflict that depends on no decision ends the search.
pub fn solve_cdcl_with_policy(start: SolverState, policy: UipPolicy) -> (r: SolverResult)
    requires
        start.wf(),
        start.justified(),
    ensures
        decides(start@.num_vars, start@.clauses, r),
        r matches SolverResult::Unsatisfiable(refutation) ==> is_rup_refutation(
            start@.clauses,
            clause_views(refutation@),
        ),
{
    let ghost n = start@.num_vars;
    let ghost initial = start@.clauses;
    let first_learned: usize = start.formula.clauses.len();
    let mut state = start;
    proof {
        assert(state@.clauses.take(first_learned as int) =~= initial);
    }
    loop
        invariant
            state.wf(),
            state.justified(),
            state@.num_vars == n,
            n == start@.num_vars,
            initial == start@.clauses,
            first_learned == initial.len(),
            derived_from(initial, state@.clauses),
        decreases progress_limit(n) - progress(state@.trail, n),
    {
        let ghost entered = state@;
        if policy == UipPolicy::First {
            state.unit_propagate();
            proof {
                lemma_progress_extends(state@.trail, n, entered.trail.len() as int);
            }
        }
        let ghost s = state@;
        proof {
            lemma_replay_len(s.trail, n);
            lemma_trail_len(s.trail, n);
            lemma_progress_below_limit(s.trail, n);
        }
        match state.get_status() {
            Status::Satisfied => {
                proof {
                    lemma_satisfied_initial(s.assignment, initial, s.clauses);
                }
                return SolverResult::Satisfiable(state.assignment.fill_unassigned());
            },
            Status::UnassignedDecision(lit) => {
                proof {
                    lemma_status_literal(s, Status::UnassignedDecision(lit));
                    lemma_progress_push(
                        s.trail,
                        n,
                        TrailEntry { lit, reason: ReasonView::Decision(s.assignment) },
                    );
                }
                state.decide(lit.var, lit.value);
                proof {
                    lemma_trail_len(state@.trail, n);
                    lemma_progress_below_limit(state@.trail, n);
                }
            },
            Status::UnassignedUnit(lit, clause) => {
                proof {
                    lemma_status_literal(s, Status::UnassignedUnit(lit, clause));
                    lemma_progress_push(
                        s.trail,
                        n,
                        TrailEntry { lit, reason: ReasonView::UnitProp(clause@) },
                    );
                }
                state.assign_unitprop(lit.var, lit.value, clause);
                proof {
                    lemma_trail_len(state@.trail, n);
                    lemma_progress_below_limit(state@.trail, n);
                }
            },
            Status::Falsified(falsified_clause) => {
                proof {
                    lemma_status_literal(s, Status::Falsified(falsified_clause));
                }
                match analyze_conflict(&state, &falsified_clause, policy) {
                    None => {
                        let refutation = refutation_of(&state.formula.clauses, first_learned);
                        proof {
                            lemma_derived_refutation(
                                initial,
                                s.clauses,
                                clause_views(refutation@),
                            );
                            lemma_refutation_prefix(
                                n,
                                initial,
                                clause_views(refutation@),
                                refutation@.len() as int,
                            );
                            assert forall|i: int| 0 <= i < refutation@.len() implies entails(
                                n,
                                initial,
                                #[trigger] refutation@[i]@,
                            ) by {
                                assert(clause_views(refutation@)[i]
                                    == refutation@[i]@);
                            }
                            assert(refutation@.last()@ == clause_views(
                                refutation@,
                            ).last());
                        }
                        return SolverResult::Unsatisfiable(refutation);
                    },
                    Some((learned, level)) => {
                        proof {
                            lemma_derived_push(initial, s.clauses, learned@);
                        }
                        learn_and_jump(&mut state, learned, level);
                        proof {
                            lemma_trail_len(state@.trail, n);
                            lemma_progress_below_limit(state@.trail, n);
                        }
                    },
                }
            },
        }
    }
}

/// Decides the formula of a state by conflict-driven clause learning,
/// cutting each conflict at the decision of its level.
pub fn solve_cdcl_from_state(state: SolverState) -> (r: SolverResult)
    requires
        state.wf(),
        state.justified(),
    ensures
        decides(state@.num_vars, state@.clauses, r),
        r matches SolverResult::Unsatisfiable(refutation) ==> is_rup_refutation(
            state@.clauses,
            clause_views(refutation@),
        ),
{
    solve_cdcl_with_policy(state, UipPolicy::Last)
}

/// Decides a formula by conflict-driven clause learning.
pub fn solve_cdcl(cnf: &CnfFormula) -> (r: SolverResult)
    requires
        cnf.wf(),
        cnf.num_vars <= u32::MAX,
    ensures
        decides(cnf.num_vars as nat, cnf@, r),
        r matches SolverResult::Unsatisfiable(refutation) ==> is_rup_refutation(
            cnf@,
            clause_views(refutation@),
        ),
{
    let state = SolverState::from_cnf(cnf);
    solve_cdcl_from_state(state)
}

/// An entry at level 0 has no decision at or before it.
pub proof fn lemma_level_zero_no_decision(trail: Seq<TrailEntry>, i: int, j: int)
    requires
        0 <= j <= i < trail.len(),
        level_at(trail, i) == 0,
    ensures
        !(trail[j].reason is Decision),
{
    lemma_decisions_monotone(trail, j + 1, i + 1);
    assert(trail.take(j + 1).drop_last() =~= trail.take(j));
    assert(trail.take(j + 1).last() == trail[j]);
}

/// The literals of the reason of an inferred entry, other than the
/// inferred one, are over other variables, and the assignment satisfies
/// their negations.
pub proof fn lemma_reason_literals(s: StateView, pos: int)
    requires
        s.wf(),
        s.justified(),
        0 <= pos < s.trail.len(),
        s.trail[pos].reason is UnitProp,
    ensures
        s.assignment.len() == s.num_vars,
        clause_in_range(reason_of(s, pos), s.num_vars),
        entails(s.num_vars, s.clauses, reason_of(s, pos)),
        exists|c: int|
            0 <= c < s.clauses.len() && #[trigger] s.clauses[c] == reason_of(s, pos),
        reason_of(s, pos).contains(s.trail[pos].lit),
        forall|j: int|
            0 <= j < reason_of(s, pos).len() && (
            #[trigger] reason_of(s, pos)[j]).var != s.trail[pos].lit.var ==> {
                &&& lit_satisfied(s.assignment, reason_of(s, pos)[j].negated())
                &&& replay(s.trail.take(pos), s.num_vars)[reason_of(s, pos)[j].var.index
                    - 1] is Some
            },
        forall|j: int|
            0 <= j < reason_of(s, pos).len() && (
            #[trigger] reason_of(s, pos)[j]).var == s.trail[pos].lit.var
                ==> reason_of(s, pos)[j] == s.trail[pos].lit,
{
    let clause = s.trail[pos].reason->UnitProp_0;
    let lit = s.trail[pos].lit;
    let a = replay(s.trail.take(pos), s.num_vars);
    lemma_replay_len(s.trail, s.num_vars);
    lemma_replay_len(s.trail.take(pos), s.num_vars);
    assert(reason_valid(a, s.num_vars, s.clauses, clause, lit));
    let k = choose|k: int| unit_at(a, clause, k) && clause[k] == lit;
    let c = choose|c: int| 0 <= c < s.clauses.len() && #[trigger] s.clauses[c] == clause;
    lemma_member_entailed(s.num_vars, s.clauses, c);
    assert(clause[k] == lit);
    assert forall|j: int| 0 <= j < clause.len() && j != k implies {
        &&& (#[trigger] clause[j]).var != lit.var
        &&& lit_satisfied(s.assignment, clause[j].negated())
        &&& a[clause[j].var.index - 1] is Some
    } by {
        assert(clause[j].in_range(s.num_vars));
        assert(lit_falsified(a, clause[j]));
        lemma_replay_extends(s.trail, s.num_vars, pos, clause[j].var.index - 1);
    }
}

/// One more literal of the clause is looked at.
pub proof fn lemma_used_step(clause: Seq<Lit>, var: Var, i: int, lit: Lit)
    requires
        0 <= i < clause.len(),
    ensures
        used_upto(clause, var, i + 1, lit) <==> used_upto(clause, var, i, lit) || (clause[i].var
            != var && clause[i].negated() == lit),
{
    if used_upto(clause, var, i, lit) {
        let j = choose|j: int|
            0 <= j < i && j < clause.len() && (#[trigger] clause[j]).var != var
                && clause[j].negated() == lit;
        assert(0 <= j < i + 1 && clause[j].var != var && clause[j].negated() == lit);
    }
    if clause[i].var != var && clause[i].negated() == lit {
        assert(0 <= i < i + 1 && clause[i].var != var && clause[i].negated() == lit);
    }
}

/// The negations of the literals of clause `k` falsify clause `k`.
pub proof fn lemma_conflict_initial(clauses: Seq<Seq<Lit>>, k: int, entries: Seq<(u32, Lit)>)
    requires
        0 <= k < clauses.len(),
        forall|lit: Lit| holds_lit(entries, lit) <==> clauses[k].contains(lit.negated()),
    ensures
        refutes(clauses, entry_lits(entries), Seq::empty(), k),
{
    let assumed = entry_lits(entries);
    assert forall|m: int| 0 <= m < clauses[k].len() implies known(
        assumed,
        Seq::empty(),
        0,
        (#[trigger] clauses[k][m]).negated(),
    ) by {
        let lit = clauses[k][m].negated();
        lemma_negation(Seq::empty(), clauses[k][m]);
        assert(clauses[k].contains(lit.negated()));
        assert(holds_lit(entries, lit));
        let i = choose|i: int| 0 <= i < entries.len() && (#[trigger] entries[i]).1 == lit;
        assert(assumed[i] == lit);
    }
}

/// A resolution step keeps the refutation: the resolved literal is no
/// longer assumed but derived, as the first step, from its reason.
pub proof fn lemma_conflict_resolved(
    clauses: Seq<Seq<Lit>>,
    before: Seq<(u32, Lit)>,
    after: Seq<(u32, Lit)>,
    trace: Seq<(int, Lit)>,
    k: int,
    reason: int,
    lit: Lit,
)
    requires
        refutes(clauses, entry_lits(before), trace, k),
        0 <= reason < clauses.len(),
        clauses[reason].contains(lit),
        forall|l: Lit| holds_lit(before, l) && l != lit ==> holds_lit(after, l),
        forall|j: int|
            0 <= j < clauses[reason].len() && (#[trigger] clauses[reason][j]) != lit ==> holds_lit(
                after,
                clauses[reason][j].negated(),
            ),
    ensures
        refutes(clauses, entry_lits(after), seq![(reason, lit)] + trace, k),
{
    let longer = seq![(reason, lit)] + trace;
    let old_assumed = entry_lits(before);
    let assumed = entry_lits(after);
    assert forall|i: int, x: Lit|
        0 <= i <= trace.len() && known(old_assumed, trace, i, x) implies known(
        assumed,
        longer,
        i + 1,
        x,
    ) by {
        if old_assumed.contains(x) {
            let b = choose|b: int| 0 <= b < old_assumed.len() && old_assumed[b] == x;
            assert(before[b].1 == x);
            if x != lit {
                assert(holds_lit(after, x));
                let c = choose|c: int| 0 <= c < after.len() && (#[trigger] after[c]).1 == x;
                assert(assumed[c] == x);
            } else {
                assert(longer[0].1 == x);
            }
        } else {
            let j = choose|j: int| 0 <= j < i && j < trace.len() && (#[trigger] trace[j]).1 == x;
            assert(longer[j + 1] == trace[j]);
        }
    }
    assert forall|i: int| 0 <= i < longer.len() implies propagates(clauses, assumed, longer, i) by {
        if i == 0 {
            assert forall|m: int|
                0 <= m < clauses[reason].len() && (#[trigger] clauses[reason][m])
                    != lit implies known(assumed, longer, 0, clauses[reason][m].negated()) by {
                let x = clauses[reason][m].negated();
                assert(holds_lit(after, x));
                let c = choose|c: int| 0 <= c < after.len() && (#[trigger] after[c]).1 == x;
                assert(assumed[c] == x);
            }
        } else {
            assert(longer[i] == trace[i - 1]);
            assert(propagates(clauses, old_assumed, trace, i - 1));
            let clause = clauses[trace[i - 1].0];
            assert forall|m: int|
                0 <= m < clause.len() && (#[trigger] clause[m]) != longer[i].1 implies known(
                assumed,
                longer,
                i,
                clause[m].negated(),
            ) by {
                assert(known(old_assumed, trace, i - 1, clause[m].negated()));
            }
        }
    }
    assert forall|m: int| 0 <= m < clauses[k].len() implies known(
        assumed,
        longer,
        longer.len() as int,
        (#[trigger] clauses[k][m]).negated(),
    ) by {
        assert(known(old_assumed, trace, trace.len() as int, clauses[k][m].negated()));
    }
}

/// The denial of the conflicting literals follows by reverse unit propagation.
pub proof fn lemma_conflict_rup(
    clauses: Seq<Seq<Lit>>,
    entries: Seq<(u32, Lit)>,
    trace: Seq<(int, Lit)>,
    k: int,
)
    requires
        refutes(clauses, entry_lits(entries), trace, k),
    ensures
        is_rup(clauses, negated_lits(entries)),
{
    assert(denied(negated_lits(entries)) =~= entry_lits(entries)) by {
        assert forall|i: int| 0 <= i < entries.len() implies denied(negated_lits(entries))[i]
            == entries[i].1 by {
            lemma_negation(Seq::empty(), entries[i].1);
        }
    }
}

/// Conflicting literals that are all at level 0, or none at all, make the
/// empty clause follow by reverse unit propagation: the entries at level 0
/// derive them.
pub proof fn lemma_refuted_rup(
    s: StateView,
    entries: Seq<(u32, Lit)>,
    trace: Seq<(int, Lit)>,
    k: int,
)
    requires
        s.wf(),
        s.justified(),
        entries_wf(entries, s.assignment),
        entries.len() == 0 || entries.last().0 == 0,
        refutes(s.clauses, entry_lits(entries), trace, k),
    ensures
        is_rup(s.clauses, Seq::<Lit>::empty()),
{
    let ground = ground_trace(s);
    let whole = ground + trace;
    let nothing = denied(Seq::<Lit>::empty());
    let assumed = entry_lits(entries);
    let d = ground.len() as int;
    lemma_kept_len_bound(s.trail, 0);
    lemma_replay_len(s.trail, s.num_vars);
    lemma_trail_len(s.trail, s.num_vars);
    assert forall|i: int| 0 <= i < d implies propagates(s.clauses, nothing, whole, i) by {
        lemma_kept_levels(s.trail, 0, i);
        lemma_level_zero_no_decision(s.trail, i, i);
        let clause = s.trail[i].reason->UnitProp_0;
        lemma_reason_literals(s, i);
        let c = reason_index(s, i);
        assert(whole[i] == (c, s.trail[i].lit));
        let prefix = s.trail.take(i);
        lemma_prefix_entries(s.trail, s.num_vars, i);
        assert forall|m: int| 0 <= m < clause.len() && (#[trigger] clause[m])
            != s.trail[i].lit implies known(nothing, whole, i, clause[m].negated()) by {
            assert(clause[m].var != s.trail[i].lit.var);
            assert(clause[m].in_range(s.num_vars));
            let v = clause[m].var.index - 1;
            let p = lemma_assigned_on_trail(prefix, s.num_vars, v);
            assert(prefix[p] == s.trail[p]);
            lemma_trail_recorded(s.trail, s.num_vars, p);
            assert(s.trail[p].lit == clause[m].negated());
            assert(whole[p].1 == clause[m].negated());
        }
    }
    assert forall|i: int, x: Lit|
        0 <= i <= trace.len() && known(assumed, trace, i, x) implies known(
        nothing,
        whole,
        d + i,
        x,
    ) by {
        if assumed.contains(x) {
            let b = choose|b: int| 0 <= b < assumed.len() && assumed[b] == x;
            assert(assigned_under(entries, replay(s.trail.take(s.trail.len() as int), s.num_vars)))
                by {
                assert(s.trail.take(s.trail.len() as int) =~= s.trail);
            }
            let p = lemma_entry_position(s, entries, s.trail.len() as int, b);
            if b < entries.len() - 1 {
                assert(entry_before(entries[b], entries[entries.len() - 1]));
            }
            lemma_kept_levels(s.trail, 0, p);
            assert(whole[p].1 == x);
        } else {
            let j = choose|j: int| 0 <= j < i && j < trace.len() && (#[trigger] trace[j]).1 == x;
            assert(whole[d + j] == trace[j]);
        }
    }
    assert forall|i: int| d <= i < whole.len() implies propagates(s.clauses, nothing, whole, i) by {
        assert(whole[i] == trace[i - d]);
        assert(propagates(s.clauses, assumed, trace, i - d));
        let clause = s.clauses[trace[i - d].0];
        assert forall|m: int| 0 <= m < clause.len() && (#[trigger] clause[m])
            != whole[i].1 implies known(nothing, whole, i, clause[m].negated()) by {
            assert(known(assumed, trace, i - d, clause[m].negated()));
        }
    }
    assert forall|m: int| 0 <= m < s.clauses[k].len() implies known(
        nothing,
        whole,
        whole.len() as int,
        (#[trigger] s.clauses[k][m]).negated(),
    ) by {
        assert(known(assumed, trace, trace.len() as int, s.clauses[k][m].negated()));
    }
    assert(refutes(s.clauses, nothing, whole, k));
}

/// The trail entry that assigned conflicting literal `i`, given that the
/// first `bound` entries assign its variable.
pub proof fn lemma_entry_position(s: StateView, entries: Seq<(u32, Lit)>, bound: int, i: int) -> (p:
    int)
    requires
        s.wf(),
        0 <= bound <= s.trail.len(),
        entries_wf(entries, s.assignment),
        assigned_under(entries, replay(s.trail.take(bound), s.num_vars)),
        0 <= i < entries.len(),
    ensures
        0 <= p < bound,
        s.trail[p].lit == entries[i].1,
        level_at(s.trail, p) == entries[i].0,
        level_at(s.trail, p) <= s.decision_level,
{
    let prefix = s.trail.take(bound);
    lemma_replay_len(s.trail, s.num_vars);
    let v = entries[i].1.var.index - 1;
    let p = lemma_assigned_on_trail(prefix, s.num_vars, v);
    assert(prefix[p] == s.trail[p]);
    lemma_trail_recorded(s.trail, s.num_vars, p);
    lemma_trail_len(s.trail, s.num_vars);
    lemma_decisions_monotone(s.trail, p + 1, s.trail.len() as int);
    assert(s.trail.take(s.trail.len() as int) =~= s.trail);
    p
}

/// A conflicting literal other than the one of entry `bound - 1` is
/// assigned by the entries before that one.
pub proof fn lemma_assigned_earlier(s: StateView, entries: Seq<(u32, Lit)>, bound: int, lit: Lit)
    requires
        s.wf(),
        0 < bound <= s.trail.len(),
        lit.in_range(s.num_vars),
        lit_satisfied(s.assignment, lit),
        replay(s.trail.take(bound), s.num_vars)[lit.var.index - 1] is Some,
        lit != s.trail[bound - 1].lit,
    ensures
        replay(s.trail.take(bound - 1), s.num_vars)[lit.var.index - 1] is Some,
{
    let longer = s.trail.take(bound);
    assert(longer.drop_last() =~= s.trail.take(bound - 1));
    lemma_replay_len(s.trail.take(bound - 1), s.num_vars);
    lemma_trail_recorded(s.trail, s.num_vars, bound - 1);
}

/// At a decision among the conflicting literals, the decision is the last
/// entry and every other entry is at a lower level.
pub proof fn lemma_decision_on_top(s: StateView, entries: Seq<(u32, Lit)>, bound: int)
    requires
        s.wf(),
        0 < bound <= s.trail.len(),
        entries_wf(entries, s.assignment),
        assigned_under(entries, replay(s.trail.take(bound), s.num_vars)),
        s.trail[bound - 1].reason is Decision,
        holds_lit(entries, s.trail[bound - 1].lit),
    ensures
        entries.len() >= 1,
        entries.last().1 == s.trail[bound - 1].lit,
        entries.len() >= 2 ==> entries[entries.len() - 2].0 < entries.last().0,
{
    let decided = s.trail[bound - 1].lit;
    let q = choose|q: int| 0 <= q < entries.len() && (#[trigger] entries[q]).1 == decided;
    let top = level_at(s.trail, bound - 1);
    lemma_trail_recorded(s.trail, s.num_vars, bound - 1);
    lemma_trail_len(s.trail, s.num_vars);
    lemma_decisions_monotone(s.trail, bound, s.trail.len() as int);
    assert(s.trail.take(s.trail.len() as int) =~= s.trail);
    assert(entries[q].0 == top);
    assert(s.trail.take(bound).drop_last() =~= s.trail.take(bound - 1));
    assert forall|i: int| 0 <= i < entries.len() && i != q implies (#[trigger] entries[i]).0
        < top by {
        let p = lemma_entry_position(s, entries, bound, i);
        if p == bound - 1 {
            assert(entries[i].1 == decided);
            if i < q {
                assert(entry_before(entries[i], entries[q]));
            } else {
                assert(entry_before(entries[q], entries[i]));
            }
        } else {
            lemma_decisions_monotone(s.trail, p + 1, bound - 1);
        }
    }
    if q < entries.len() - 1 {
        assert(entry_before(entries[q], entries[entries.len() - 1]));
        assert(entries[entries.len() - 1].0 < top);
    }
}

/// The learned clause of conflicting literals of which the top one alone is
/// at the highest level is asserting.
pub proof fn lemma_learned_asserting(s: StateView, entries: Seq<(u32, Lit)>)
    requires
        s.wf(),
        entries_wf(entries, s.assignment),
        is_rup(s.clauses, negated_lits(entries)),
        entries.len() >= 1,
        entries.last().0 > second_level(entries),
    ensures
        is_asserting(s, negated_lits(entries), second_level(entries) as nat),
{
    let learned = negated_lits(entries);
    lemma_rup_sound(s.num_vars, s.clauses, learned);
    let level = second_level(entries);
    lemma_replay_len(s.trail, s.num_vars);
    assert(assigned_under(entries, replay(s.trail.take(s.trail.len() as int), s.num_vars))) by {
        assert(s.trail.take(s.trail.len() as int) =~= s.trail);
    }
    let p = lemma_entry_position(s, entries, s.trail.len() as int, entries.len() - 1);
    assert forall|j: int| 0 <= j < learned.len() - 1 implies lit_level(
        s.assignment,
        #[trigger] learned[j],
    )->0 <= level by {
        if j < entries.len() - 2 {
            assert(entry_before(entries[j], entries[entries.len() - 2]));
        }
    }
    assert forall|j: int| 0 <= j < learned.len() implies lit_falsified(
        s.assignment,
        #[trigger] learned[j],
    ) by {
        assert(entries[j].1.in_range(s.num_vars));
    }
    assert forall|j: int| 0 <= j < learned.len() implies (#[trigger] learned[j]).in_range(
        s.num_vars,
    ) by {
        assert(entries[j].1.in_range(s.num_vars));
    }
}

/// After the resolution on entry `bound - 1`, the entries before that one
/// assign all the conflicting literals.
pub proof fn lemma_after_update(
    s: StateView,
    before: Seq<(u32, Lit)>,
    after: Seq<(u32, Lit)>,
    bound: int,
)
    requires
        s.wf(),
        s.justified(),
        0 < bound <= s.trail.len(),
        s.trail[bound - 1].reason is UnitProp,
        entries_wf(before, s.assignment),
        entries_wf(after, s.assignment),
        assigned_under(before, replay(s.trail.take(bound), s.num_vars)),
        forall|l: Lit|
            holds_lit(after, l) <==> l != s.trail[bound - 1].lit && (holds_lit(before, l)
                || used_by(s.trail[bound - 1], l)),
    ensures
        assigned_under(after, replay(s.trail.take(bound - 1), s.num_vars)),
{
    let entry = s.trail[bound - 1];
    let lit = entry.lit;
    let reason = entry.reason->UnitProp_0;
    lemma_reason_literals(s, bound - 1);
    assert forall|i: int| 0 <= i < after.len() implies replay(
        s.trail.take(bound - 1),
        s.num_vars,
    )[(#[trigger] after[i]).1.var.index - 1] is Some by {
        let l = after[i].1;
        assert(holds_lit(after, l));
        if holds_lit(before, l) {
            let b = choose|b: int| 0 <= b < before.len() && (#[trigger] before[b]).1 == l;
            lemma_assigned_earlier(s, before, bound, l);
        } else {
            assert(used_by(entry, l));
            let j = choose|j: int|
                0 <= j < reason.len() && j < reason.len() && (#[trigger] reason[j]).var != lit.var
                    && reason[j].negated() == l;
        }
    }
}

/// After the resolution on entry `bound - 1`, the refutation goes on with
/// that entry derived from its reason as the first step.
pub proof fn lemma_update_refutes(
    s: StateView,
    before: Seq<(u32, Lit)>,
    after: Seq<(u32, Lit)>,
    bound: int,
    trace: Seq<(int, Lit)>,
    k: int,
)
    requires
        s.wf(),
        s.justified(),
        0 < bound <= s.trail.len(),
        s.trail[bound - 1].reason is UnitProp,
        refutes(s.clauses, entry_lits(before), trace, k),
        forall|l: Lit|
            holds_lit(after, l) <==> l != s.trail[bound - 1].lit && (holds_lit(before, l)
                || used_by(s.trail[bound - 1], l)),
    ensures
        refutes(
            s.clauses,
            entry_lits(after),
            seq![(reason_index(s, bound - 1), s.trail[bound - 1].lit)] + trace,
            k,
        ),
{
    let entry = s.trail[bound - 1];
    let lit = entry.lit;
    let reason = entry.reason->UnitProp_0;
    lemma_reason_literals(s, bound - 1);
    let c = reason_index(s, bound - 1);
    assert forall|j: int| 0 <= j < reason.len() && (#[trigger] reason[j]) != lit implies holds_lit(
        after,
        reason[j].negated(),
    ) by {
        assert(reason[j].var != lit.var);
        assert(used_upto(reason, lit.var, reason.len() as int, reason[j].negated()));
    }
    lemma_conflict_resolved(s.clauses, before, after, trace, k, c, lit);
}

/// When the literal of entry `bound - 1` is not conflicting, the entries
/// before that one assign all the conflicting literals.
pub proof fn lemma_after_skip(s: StateView, entries: Seq<(u32, Lit)>, bound: int)
    requires
        s.wf(),
        0 < bound <= s.trail.len(),
        entries_wf(entries, s.assignment),
        assigned_under(entries, replay(s.trail.take(bound), s.num_vars)),
        !holds_lit(entries, s.trail[bound - 1].lit),
    ensures
        assigned_under(entries, replay(s.trail.take(bound - 1), s.num_vars)),
{
    lemma_replay_len(s.trail, s.num_vars);
    assert forall|i: int| 0 <= i < entries.len() implies replay(
        s.trail.take(bound - 1),
        s.num_vars,
    )[(#[trigger] entries[i]).1.var.index - 1] is Some by {
        assert(holds_lit(entries, entries[i].1));
        lemma_assigned_earlier(s, entries, bound, entries[i].1);
    }
}

/// An assignment that satisfies the clauses of a search satisfies the
/// initial ones, and filled it is total.
pub proof fn lemma_satisfied_initial(
    a: Seq<Option<Record>>,
    initial: Seq<Seq<Lit>>,
    clauses: Seq<Seq<Lit>>,
)
    requires
        derived_from(initial, clauses),
        clauses_in_range(clauses, a.len()),
        all_satisfied(a, clauses),
    ensures
        all_satisfied(filled(a), initial),
        is_total(filled(a)),
        filled(a).len() == a.len(),
{
    assert forall|i: int| 0 <= i < initial.len() implies clause_satisfied(
        a,
        #[trigger] initial[i],
    ) && clause_in_range(initial[i], a.len()) by {
        assert(clauses.take(initial.len() as int)[i] == clauses[i]);
    }
    lemma_filled_satisfies(a, initial);
}

/// What a status tells of its literal and its clause: a literal to decide
/// or to infer is unassigned and a variable of the formula; a unit clause is
/// a sound reason for its literal; a falsified clause is a clause of the
/// formula, and falsified.
pub proof fn lemma_status_literal(s: StateView, status: Status)
    requires
        s.wf(),
        is_status_of(s.assignment, s.clauses, status),
    ensures
        match status {
            Status::Satisfied => true,
            Status::Falsified(clause) => {
                &&& s.clauses.contains(clause@)
                &&& clause_in_range(clause@, s.num_vars)
                &&& clause_falsified(s.assignment, clause@)
            },
            Status::UnassignedDecision(lit) => {
                &&& lit.in_range(s.num_vars)
                &&& lit_unassigned(s.assignment, lit)
            },
            Status::UnassignedUnit(lit, clause) => {
                &&& lit.in_range(s.num_vars)
                &&& lit_unassigned(s.assignment, lit)
                &&& reason_valid(s.assignment, s.num_vars, s.clauses, clause@, lit)
            },
        },
{
    match status {
        Status::Satisfied => {},
        Status::Falsified(clause) => {
            let c = choose|c: int|
                first_falsified_at(s.assignment, s.clauses, c) && clause@
                    == s.clauses[c];
            assert(clause_in_range(s.clauses[c], s.num_vars));
        },
        Status::UnassignedDecision(lit) => {
            let (c, k) = choose|c: int, k: int|
                last_open_at(s.assignment, s.clauses, c, k) && lit
                    == s.clauses[c][k];
            assert(clause_in_range(s.clauses[c], s.num_vars));
            assert(s.clauses[c][k].in_range(s.num_vars));
        },
        Status::UnassignedUnit(lit, clause) => {
            let (c, k) = choose|c: int, k: int|
                last_unit_at(s.assignment, s.clauses, c, k) && clause@
                    == s.clauses[c] && lit == s.clauses[c][k];
            assert(clause_in_range(s.clauses[c], s.num_vars));
            assert(s.clauses[c][k].in_range(s.num_vars));
        },
    }
}

/// After an asserting clause is learned and the state has jumped back to
/// its level, the clause is a sound reason for inferring its last literal,
/// and inferring it raises the progress.
pub proof fn lemma_learn_then_jump(s: StateView, learned: Seq<Lit>, level: nat)
    requires
        s.wf(),
        s.justified(),
        is_asserting(s, learned, level),
    ensures
        level < s.decision_level,
        learned.last().in_range(s.num_vars),
        lit_unassigned(
            s.learned(learned).backjumped(level).assignment,
            learned.last(),
        ),
        reason_valid(
            s.learned(learned).backjumped(level).assignment,
            s.num_vars,
            s.learned(learned).clauses,
            learned,
            learned.last(),
        ),
        s.learned(learned).backjumped(level).wf() ==> progress(
            s.learned(learned).backjumped(level).inferred(learned.last(), learned).trail,
            s.num_vars,
        ) > progress(s.trail, s.num_vars),
{
    let s1 = s.learned(learned);
    let s2 = s1.backjumped(level);
    let top = learned.len() - 1;
    lemma_replay_len(s.trail, s.num_vars);
    assert(s1.wf()) by {
        assert forall|i: int| 0 <= i < s1.clauses.len() implies clause_in_range(
            #[trigger] s1.clauses[i],
            s1.num_vars,
        ) by {
            if i < s.clauses.len() {
                assert(s1.clauses[i] == s.clauses[i]);
            }
        }
    }
    assert(learned[top].in_range(s.num_vars));
    assert(lit_falsified(s.assignment, learned[top]));
    lemma_backjump_assignment(s1, level, learned[top].var.index - 1);
    assert forall|j: int| 0 <= j < learned.len() && j != top implies lit_falsified(
        s2.assignment,
        #[trigger] learned[j],
    ) by {
        assert(learned[j].in_range(s.num_vars));
        assert(lit_falsified(s.assignment, learned[j]));
        lemma_backjump_assignment(s1, level, learned[j].var.index - 1);
    }
    assert(unit_at(s2.assignment, learned, top));
    lemma_member_entailed(s.num_vars, s1.clauses, s.clauses.len() as int);
    if s2.wf() {
        lemma_conflict_progress(s1, level, learned.last(), learned);
    }
}

/// The entries hold the conflicting literals of the cut at `bound`, and no others.
#[verifier::opaque]
pub open spec fn holds_cut(
    s: StateView,
    clause: Seq<Lit>,
    bound: int,
    entries: Seq<(u32, Lit)>,
) -> bool {
    forall|lit: Lit|
        #![trigger in_cut(s, clause, bound, lit)]
        #![trigger holds_lit(entries, lit)]
        holds_lit(entries, lit) <==> in_cut(s, clause, bound, lit)
}

/// A literal is among the entries exactly when it is in their cut.
pub proof fn lemma_holds_cut(
    s: StateView,
    clause: Seq<Lit>,
    bound: int,
    entries: Seq<(u32, Lit)>,
    lit: Lit,
)
    requires
        holds_cut(s, clause, bound, entries),
    ensures
        holds_lit(entries, lit) <==> in_cut(s, clause, bound, lit),
{
    reveal(holds_cut);
}

/// Entries in order have their highest level last, and the highest of the
/// rest next to last.
pub proof fn lemma_entry_levels(entries: Seq<(u32, Lit)>, a: Seq<Option<Record>>, i: int)
    requires
        entries_wf(entries, a),
        0 <= i < entries.len(),
    ensures
        entries[i].0 <= entries.last().0,
        i < entries.len() - 1 ==> entries[i].0 <= second_level(entries),
        lit_level(a, entries[i].1) == Some(entries[i].0),
        forall|j: int|
            0 <= j < entries.len() && j != i ==> (#[trigger] entries[j]).1 != entries[i].1,
{
    let len = entries.len() as int;
    if i < len - 1 {
        assert(entry_before(entries[i], entries[len - 1]));
    }
    if i < len - 2 {
        assert(entry_before(entries[i], entries[len - 2]));
    }
    assert forall|j: int| 0 <= j < entries.len() && j != i implies (#[trigger] entries[j]).1
        != entries[i].1 by {
        if j < i {
            assert(entry_before(entries[j], entries[i]));
        } else {
            assert(entry_before(entries[i], entries[j]));
        }
    }
}

/// What the entries say of the cut that they hold: whether it is refuted,
/// and whether one literal is on top alone.
pub proof fn lemma_cut_levels(s: StateView, entries: Seq<(u32, Lit)>, clause: Seq<Lit>, bound: int)
    requires
        entries_wf(entries, s.assignment),
        holds_cut(s, clause, bound, entries),
    ensures
        (entries.len() == 0 || entries.last().0 == 0) <==> cut_refuted(s, clause, bound),
        entries.len() >= 1 ==> ((entries.len() == 1 || second_level(entries) < entries.last().0)
            <==> cut_unique_top(s, clause, bound)),
{
    lemma_cut_refuted(s, entries, clause, bound);
    if entries.len() >= 1 {
        lemma_cut_unique_top(s, entries, clause, bound);
    }
}

/// The cut is refuted exactly when the entries are none or all at level 0.
pub proof fn lemma_cut_refuted(s: StateView, entries: Seq<(u32, Lit)>, clause: Seq<Lit>, bound: int)
    requires
        entries_wf(entries, s.assignment),
        holds_cut(s, clause, bound, entries),
    ensures
        (entries.len() == 0 || entries.last().0 == 0) <==> cut_refuted(s, clause, bound),
{
    reveal(cut_refuted);
    let len = entries.len() as int;
    if len == 0 || entries[len - 1].0 == 0 {
        assert forall|lit: Lit| in_cut(s, clause, bound, lit) implies level_of(s, lit) == 0 by {
            lemma_holds_cut(s, clause, bound, entries, lit);
            let i = choose|i: int| 0 <= i < entries.len() && (#[trigger] entries[i]).1 == lit;
            lemma_entry_levels(entries, s.assignment, i);
        }
    } else {
        let top = entries[len - 1].1;
        assert(holds_lit(entries, top));
        lemma_holds_cut(s, clause, bound, entries, top);
        lemma_entry_levels(entries, s.assignment, len - 1);
        assert(level_of(s, top) != 0);
    }
}

/// One literal of the cut is on top alone exactly when the last entry is at
/// a higher level than the one before it, or is the only one.
pub proof fn lemma_cut_unique_top(
    s: StateView,
    entries: Seq<(u32, Lit)>,
    clause: Seq<Lit>,
    bound: int,
)
    requires
        entries_wf(entries, s.assignment),
        holds_cut(s, clause, bound, entries),
        entries.len() >= 1,
    ensures
        (entries.len() == 1 || second_level(entries) < entries.last().0) <==> cut_unique_top(
            s,
            clause,
            bound,
        ),
{
    reveal(cut_unique_top);
    let len = entries.len() as int;
    let top = entries[len - 1].1;
    lemma_entry_levels(entries, s.assignment, len - 1);
    assert(holds_lit(entries, top));
    lemma_holds_cut(s, clause, bound, entries, top);
    if len == 1 || second_level(entries) < entries[len - 1].0 {
        assert forall|lit: Lit| in_cut(s, clause, bound, lit) && lit != top implies level_of(
            s,
            lit,
        ) < level_of(s, top) by {
            lemma_holds_cut(s, clause, bound, entries, lit);
            let i = choose|i: int| 0 <= i < entries.len() && (#[trigger] entries[i]).1 == lit;
            lemma_entry_levels(entries, s.assignment, i);
        }
    }
    if cut_unique_top(s, clause, bound) && len >= 2 {
        let lit = choose|lit: Lit|
            #[trigger] in_cut(s, clause, bound, lit) && forall|m: Lit|
                in_cut(s, clause, bound, m) && m != lit ==> level_of(s, m) < level_of(s, lit);
        lemma_holds_cut(s, clause, bound, entries, lit);
        let p = choose|p: int| 0 <= p < entries.len() && (#[trigger] entries[p]).1 == lit;
        lemma_entry_levels(entries, s.assignment, p);
        let next = entries[len - 2].1;
        assert(holds_lit(entries, next));
        lemma_holds_cut(s, clause, bound, entries, next);
        lemma_entry_levels(entries, s.assignment, len - 2);
        if p != len - 1 {
            assert(top != lit);
            assert(level_of(s, top) < level_of(s, lit));
        } else {
            assert(next != lit);
        }
    }
}

/// The learned clause holds the negations of the conflicting literals of
/// the cut, and of no other literal.
pub proof fn lemma_learned_members(
    s: StateView,
    clause: Seq<Lit>,
    bound: int,
    entries: Seq<(u32, Lit)>,
)
    requires
        holds_cut(s, clause, bound, entries),
    ensures
        forall|lit: Lit|
            negated_lits(entries).contains(lit.negated()) <==> in_cut(s, clause, bound, lit),
{
    let learned = negated_lits(entries);
    assert forall|lit: Lit| learned.contains(lit.negated()) <==> in_cut(
        s,
        clause,
        bound,
        lit,
    ) by {
        lemma_holds_cut(s, clause, bound, entries, lit);
        if learned.contains(lit.negated()) {
            let i = choose|i: int| 0 <= i < learned.len() && learned[i] == lit.negated();
            lemma_negation(Seq::empty(), lit);
            lemma_negation(Seq::empty(), entries[i].1);
            assert(entries[i].1 == lit);
        }
        if holds_lit(entries, lit) {
            let i = choose|i: int| 0 <= i < entries.len() && (#[trigger] entries[i]).1 == lit;
            assert(learned[i] == lit.negated());
        }
    }
}

/// The walk goes on from the cut at `bound` to the cut before entry
/// `bound - 1`: the entries after the step hold that cut.
pub proof fn lemma_walk_on(
    s: StateView,
    clause: Seq<Lit>,
    policy: UipPolicy,
    bound: int,
    before: Seq<(u32, Lit)>,
    after: Seq<(u32, Lit)>,
)
    requires
        0 < bound <= s.trail.len(),
        holds_cut(s, clause, bound, before),
        walk_reaches(s, clause, policy, bound),
        !cut_refuted(s, clause, bound),
        policy == UipPolicy::First ==> !cut_unique_top(s, clause, bound),
        holds_lit(before, s.trail[bound - 1].lit) ==> s.trail[bound - 1].reason is UnitProp,
        if holds_lit(before, s.trail[bound - 1].lit) {
            forall|l: Lit|
                holds_lit(after, l) <==> l != s.trail[bound - 1].lit && (holds_lit(before, l)
                    || used_by(s.trail[bound - 1], l))
        } else {
            after == before
        },
    ensures
        holds_cut(s, clause, bound - 1, after),
        walk_reaches(s, clause, policy, bound - 1),
{
    let entry = s.trail[bound - 1];
    lemma_holds_cut(s, clause, bound, before, entry.lit);
    assert(holds_cut(s, clause, bound - 1, after)) by {
        reveal(holds_cut);
        assert forall|lit: Lit|
            #![trigger in_cut(s, clause, bound - 1, lit)]
            #![trigger holds_lit(after, lit)]
            holds_lit(after, lit) <==> in_cut(s, clause, bound - 1, lit) by {
            lemma_holds_cut(s, clause, bound, before, lit);
        }
    }
    assert(walk_reaches(s, clause, policy, bound - 1)) by {
        reveal(walk_reaches);
        assert forall|b: int| bound - 1 < b <= s.trail.len() implies !#[trigger] cut_refuted(
            s,
            clause,
            b,
        ) && !cut_stops(s, clause, b, policy) by {
            if b == bound {
                assert(!cut_refuted(s, clause, bound));
                assert(!cut_at_decision(s, clause, bound));
                assert(!cut_stops(s, clause, bound, policy));
            } else {
                assert(bound < b <= s.trail.len());
                assert(!cut_refuted(s, clause, b));
                assert(!cut_stops(s, clause, b, policy));
            }
        }
    }
}

} // verus!
