//! Cube and conquer: the search space is split into cubes by deciding a few
//! variables both ways, and each cube that is still open is handed to the
//! clause-learning solver.

use crate::assignment::{filled, is_total, lit_unassigned, Assignment, Record};
use crate::formula::{
    clause_in_range, clause_views, clauses_in_range, satisfiable, Clause, CnfFormula, Lit, Val,
};
use crate::inspection::{
    all_satisfied, clause_satisfied, clause_unit, first_falsified_at, last_open_at, last_unit_at,
    lemma_filled_satisfies, pending_unit, some_falsified,
};
use crate::progress::{lemma_weight_positive, weight};
use crate::refutation::is_rup_refutation;
use crate::solve_cdcl::solve_cdcl_from_state;
use crate::solve_simple::{
    extendable, lemma_branch_extendable, lemma_falsified_not_extendable, lemma_fresh_extendable,
    lemma_purified_extendable, lemma_unit_extendable, lemma_unsatisfiable_entails,
};
use crate::solver_state::{
    branch_on_variable, decides, inferred_from_formula, is_status_of, lemma_decides_sound,
    lemma_push_wf, lemma_unit_propagation_unique, SolverResult, SolverState, StateView, Status,
};
use crate::trail::{decisions_in, entry_wf, lemma_replay_len, replay, ReasonView};
use vstd::prelude::*;

verus! {

/// One part of the search space.
#[derive(Debug, PartialEq)]
pub enum Cube {
    /// Propagation satisfied the formula: a total assignment that satisfies it.
    Solved(Assignment),
    /// Propagation falsified a clause: no model lies in this part.
    Refuted,
    /// A state that is still to be searched.
    Open(SolverState),
}

/// The mathematical content of a [`Cube`].
pub enum CubeView {
    Solved(Seq<Option<Record>>),
    Refuted,
    Open(StateView),
}

impl View for Cube {
    type V = CubeView;

    open spec fn view(&self) -> CubeView {
        match self {
            Cube::Solved(assignment) => CubeView::Solved(assignment@),
            Cube::Refuted => CubeView::Refuted,
            Cube::Open(state) => CubeView::Open(state@),
        }
    }
}

/// The contents of a list of cubes.
pub open spec fn cube_views(cubes: Seq<Cube>) -> Seq<CubeView> {
    Seq::new(cubes.len(), |i: int| cubes[i]@)
}

/// The state with unit propagation run to its end.
pub open spec fn propagated(s: StateView) -> StateView {
    choose|t: StateView| s.unit_propagated(t)
}

/// The literal that the status offers for a decision.
pub open spec fn decision_literal(a: Seq<Option<Record>>, clauses: Seq<Seq<Lit>>) -> Lit {
    choose|lit: Lit| is_status_of(a, clauses, Status::UnassignedDecision(lit))
}

/// The cubes below a state. At depth 0 the state is the one cube, open.
/// Otherwise unit propagation runs: a satisfied state gives one solved cube,
/// with the assignment filled; a falsified one gives one refuted cube; any
/// other gives the cubes below the state with the variable of the status'
/// literal decided true, then those with it decided false, at one depth less.
pub open spec fn cubes_below(s: StateView, depth: nat) -> Seq<CubeView>
    decreases depth,
{
    if depth == 0 {
        seq![CubeView::Open(s)]
    } else {
        let t = propagated(s);
        if all_satisfied(t.assignment, t.clauses) {
            seq![CubeView::Solved(filled(t.assignment))]
        } else if some_falsified(t.assignment, t.clauses) {
            seq![CubeView::Refuted]
        } else {
            let var = decision_literal(t.assignment, t.clauses).var;
            cubes_below(t.decided(Lit { var, value: Val::True }), (depth - 1) as nat)
                + cubes_below(t.decided(Lit { var, value: Val::False }), (depth - 1) as nat)
        }
    }
}

/// The status offers one literal for a decision at most.
pub proof fn lemma_decision_unique(
    a: Seq<Option<Record>>,
    clauses: Seq<Seq<Lit>>,
    lit: Lit,
    other: Lit,
)
    requires
        is_status_of(a, clauses, Status::UnassignedDecision(lit)),
        is_status_of(a, clauses, Status::UnassignedDecision(other)),
    ensures
        lit == other,
{
    let (i, k) = choose|i: int, k: int| last_open_at(a, clauses, i, k) && lit == clauses[i][k];
    let (j, m) = choose|j: int, m: int| last_open_at(a, clauses, j, m) && other == clauses[j][m];
    if i < j {
        assert(clause_satisfied(a, clauses[j]));
    }
    if j < i {
        assert(clause_satisfied(a, clauses[i]));
    }
    if k < m {
        assert(!lit_unassigned(a, clauses[i][m]));
    }
    if m < k {
        assert(!lit_unassigned(a, clauses[i][k]));
    }
}

/// A solved cube holds a total assignment that satisfies the clauses, and an
/// open cube a well-formed state of the same formula.
pub open spec fn cube_sound(num_vars: nat, clauses: Seq<Seq<Lit>>, cube: Cube) -> bool {
    match cube {
        Cube::Solved(a) => a@.len() == num_vars && is_total(a@) && all_satisfied(a@, clauses),
        Cube::Refuted => true,
        Cube::Open(state) => {
            &&& state.wf()
            &&& state.justified()
            &&& state@.num_vars == num_vars
            &&& state@.clauses == clauses
        },
    }
}

/// Some cube from position `from` on is solved or open.
pub open spec fn some_live(cubes: Seq<Cube>, from: int) -> bool {
    exists|i: int| from <= i < cubes.len() && !(#[trigger] cubes[i] is Refuted)
}

/// Unit propagation keeps a model that agrees with the assignment.
pub proof fn lemma_propagation_extendable(s: StateView, t: StateView, upto: int)
    requires
        s.wf(),
        s.unit_propagated(t),
        s.trail.len() <= upto <= t.trail.len(),
        extendable(s.num_vars, s.clauses, s.assignment),
    ensures
        extendable(s.num_vars, s.clauses, replay(t.trail.take(upto), s.num_vars)),
    decreases upto,
{
    if upto == s.trail.len() {
        assert(t.trail.take(upto) == s.trail);
    } else {
        let i = upto - 1;
        lemma_propagation_extendable(s, t, i);
        let before = replay(t.trail.take(i), s.num_vars);
        lemma_replay_len(t.trail.take(i), s.num_vars);
        assert(inferred_from_formula(t, i));
        let clause = t.trail[i].reason->UnitProp_0;
        let (c, k) = choose|c: int, k: int|
            last_unit_at(before, t.clauses, c, k) && clause == t.clauses[c]
                && t.trail[i].lit == t.clauses[c][k];
        assert(entry_wf(t.trail, t.num_vars, i));
        assert(t.trail.take(upto).drop_last() =~= t.trail.take(i));
        lemma_unit_extendable(
            s.num_vars,
            s.clauses,
            before,
            c,
            k,
            decisions_in(t.trail.take(upto)) as u32,
        );
    }
}

/// Splits the search below a state into cubes and adds them to `cubes`. At
/// depth 0 the state is one open cube. Otherwise unit propagation runs; a
/// satisfied state gives a solved cube, a falsified one a refuted cube, and
/// any other is split on a variable, first true then false, at one depth less.
pub fn split_into(state: SolverState, depth: usize, cubes: &mut Vec<Cube>)
    requires
        state.wf(),
        state.justified(),
    ensures
        old(cubes)@.len() <= final(cubes)@.len(),
        final(cubes)@.take(old(cubes)@.len() as int) == old(cubes)@,
        forall|i: int|
            old(cubes)@.len() <= i < final(cubes)@.len() ==> cube_sound(
                state@.num_vars,
                state@.clauses,
                #[trigger] final(cubes)@[i],
            ),
        extendable(state@.num_vars, state@.clauses, state@.assignment) ==> some_live(
            final(cubes)@,
            old(cubes)@.len() as int,
        ),
        1 <= final(cubes)@.len() - old(cubes)@.len() <= weight(2, depth as nat),
        cube_views(final(cubes)@) == cube_views(old(cubes)@) + cubes_below(state@, depth as nat),
    decreases depth,
{
    let ghost start = state@;
    proof {
        lemma_weight_positive(2, depth as nat);
    }
    let ghost given = cubes@;
    let mut state = state;
    if depth == 0 {
        cubes.push(Cube::Open(state));
        assert(cubes@.take(given.len() as int) =~= given);
        assert(!(cubes@[given.len() as int] is Refuted));
        assert(cube_views(cubes@) =~= cube_views(given) + cubes_below(start, 0));
        return ;
    }
    state.unit_propagate();
    let ghost s = state@;
    proof {
        lemma_unit_propagation_unique(start, propagated(start), s);
        lemma_replay_len(s.trail, s.num_vars);
        if extendable(start.num_vars, start.clauses, start.assignment) {
            lemma_propagation_extendable(start, s, s.trail.len() as int);
            assert(s.trail.take(s.trail.len() as int) =~= s.trail);
        }
    }
    match state.get_status() {
        Status::Satisfied => {
            proof {
                lemma_filled_satisfies(s.assignment, s.clauses);
            }
            cubes.push(Cube::Solved(state.assignment.fill_unassigned()));
            assert(cubes@.take(given.len() as int) =~= given);
            assert(!(cubes@[given.len() as int] is Refuted));
            assert(cube_views(cubes@) =~= cube_views(given) + cubes_below(start, depth as nat));
        },
        Status::Falsified(_) => {
            proof {
                let c = choose|c: int|
                    first_falsified_at(s.assignment, s.clauses, c);
                lemma_falsified_not_extendable(s.num_vars, s.clauses, s.assignment, c);
            }
            cubes.push(Cube::Refuted);
            assert(cubes@.take(given.len() as int) =~= given);
            proof {
                let c = choose|c: int| first_falsified_at(s.assignment, s.clauses, c);
                assert(!clause_satisfied(s.assignment, s.clauses[c]));
                assert(some_falsified(s.assignment, s.clauses));
                assert(cube_views(cubes@) =~= cube_views(given) + cubes_below(
                    start,
                    depth as nat,
                ));
            }
        },
        Status::UnassignedDecision(lit) => {
            proof {
                let (c, k) = choose|c: int, k: int|
                    last_open_at(s.assignment, s.clauses, c, k) && lit
                        == s.clauses[c][k];
                assert(clause_in_range(s.clauses[c], s.num_vars));
                assert(s.clauses[c][k].in_range(s.num_vars));
                if extendable(s.num_vars, s.clauses, s.assignment) {
                    lemma_branch_extendable(
                        s.num_vars,
                        s.clauses,
                        s.assignment,
                        lit.var,
                        (s.decision_level + 1) as u32,
                    );
                }
                lemma_push_wf(
                    s,
                    Lit { var: lit.var, value: Val::True },
                    ReasonView::Decision(s.assignment),
                );
                lemma_decision_unique(
                    s.assignment,
                    s.clauses,
                    lit,
                    decision_literal(s.assignment, s.clauses),
                );
                assert(!clause_satisfied(s.assignment, s.clauses[c]));
            }
            let (tstate, fstate) = branch_on_variable(state, lit.var);
            split_into(tstate, depth - 1, cubes);
            let ghost between = cubes@;
            split_into(fstate, depth - 1, cubes);
            proof {
                let after = cubes@;
                assert(after.take(given.len() as int) =~= between.take(given.len() as int));
                assert forall|i: int| given.len() <= i < after.len() implies cube_sound(
                    start.num_vars,
                    start.clauses,
                    #[trigger] after[i],
                ) by {
                    if i < between.len() {
                        assert(after.take(between.len() as int)[i] == after[i]);
                    }
                }
                if some_live(between, given.len() as int) {
                    let i = choose|i: int|
                        given.len() <= i < between.len() && !(#[trigger] between[i] is Refuted);
                    assert(after.take(between.len() as int)[i] == after[i]);
                }
                let upper = cubes_below(
                    s.decided(Lit { var: lit.var, value: Val::True }),
                    (depth - 1) as nat,
                );
                let lower = cubes_below(
                    s.decided(Lit { var: lit.var, value: Val::False }),
                    (depth - 1) as nat,
                );
                assert(cube_views(given) + upper + lower =~= cube_views(given) + (upper + lower));
            }
        },
        Status::UnassignedUnit(lit, clause) => {
            proof {
                let (c, k) = choose|c: int, k: int|
                    last_unit_at(s.assignment, s.clauses, c, k) && clause@ == s.clauses[c];
                assert(clause_unit(s.assignment, s.clauses[c]));
                assert(pending_unit(s.assignment, s.clauses));
            }
            cubes.push(Cube::Open(state));
            assert(cubes@.take(given.len() as int) =~= given);
        },
    }
}

/// Splits the search below a state into at most `2^depth` cubes.
pub fn split_cubes(state: SolverState, depth: usize) -> (cubes: Vec<Cube>)
    requires
        state.wf(),
        state.justified(),
    ensures
        forall|i: int|
            0 <= i < cubes@.len() ==> cube_sound(
                state@.num_vars,
                state@.clauses,
                #[trigger] cubes@[i],
            ),
        extendable(state@.num_vars, state@.clauses, state@.assignment) ==> some_live(cubes@, 0),
        1 <= cubes@.len() <= weight(2, depth as nat),
        cube_views(cubes@) == cubes_below(state@, depth as nat),
{
    let mut cubes: Vec<Cube> = Vec::new();
    split_into(state, depth, &mut cubes);
    assert(cube_views(cubes@) =~= cubes_below(state@, depth as nat));
    cubes
}

/// Decides one cube: a solved cube gives its assignment, a refuted one
/// nothing, and an open one is searched, which decides its whole formula.
pub fn conquer_cube(cube: Cube) -> (r: Option<SolverResult>)
    requires
        cube matches Cube::Open(state) ==> state.wf() && state.justified(),
    ensures
        match cube {
            Cube::Solved(a) => r == Some(SolverResult::Satisfiable(a)),
            Cube::Refuted => r is None,
            Cube::Open(state) => {
                &&& r matches Some(result) && decides(state@.num_vars, state@.clauses, result)
                &&& r matches Some(SolverResult::Unsatisfiable(refutation))
                    ==> is_rup_refutation(state@.clauses, clause_views(refutation@))
            },
        },
{
    match cube {
        Cube::Solved(assignment) => Some(SolverResult::Satisfiable(assignment)),
        Cube::Refuted => None,
        Cube::Open(state) => Some(solve_cdcl_from_state(state)),
    }
}

/// The answers are those of cubes that cover the formula: each one given
/// is correct for the formula, and if the formula has a model some cube
/// gave an answer.
pub open spec fn answers_cover(
    num_vars: nat,
    clauses: Seq<Seq<Lit>>,
    answers: Seq<Option<SolverResult>>,
) -> bool {
    &&& clauses_in_range(clauses, num_vars)
    &&& forall|i: int|
        0 <= i < answers.len() ==> ((#[trigger] answers[i]) matches Some(result) ==> decides(
            num_vars,
            clauses,
            result,
        ))
    &&& satisfiable(num_vars, clauses) ==> exists|i: int|
        0 <= i < answers.len() && (#[trigger] answers[i]) is Some
}

/// Position `i` holds the first satisfiable answer.
pub open spec fn first_model_at(answers: Seq<Option<SolverResult>>, i: int) -> bool {
    &&& 0 <= i < answers.len()
    &&& answers[i] matches Some(SolverResult::Satisfiable(_))
    &&& forall|j: int|
        0 <= j < i ==> !((#[trigger] answers[j]) matches Some(SolverResult::Satisfiable(_)))
}

/// Position `i` holds the first unsatisfiable answer.
pub open spec fn first_refutation_at(answers: Seq<Option<SolverResult>>, i: int) -> bool {
    &&& 0 <= i < answers.len()
    &&& answers[i] matches Some(SolverResult::Unsatisfiable(_))
    &&& forall|j: int|
        0 <= j < i ==> !((#[trigger] answers[j]) matches Some(SolverResult::Unsatisfiable(_)))
}

/// Makes one answer of the answers of the cubes: the first satisfiable one
/// if there is any; else the first refutation; else the empty clause alone.
pub fn combine_answers(given: Vec<Option<SolverResult>>) -> (r: SolverResult)
    ensures
        r is Satisfiable <==> exists|i: int| first_model_at(given@, i),
        forall|i: int| first_model_at(given@, i) ==> Some(r) == given@[i],
        r is Unsatisfiable ==> forall|i: int|
            first_refutation_at(given@, i) ==> Some(r) == given@[i],
        r matches SolverResult::Unsatisfiable(refutation) ==> (exists|i: int|
            first_refutation_at(given@, i)) || (refutation@.len() == 1 && refutation@[0]@.len()
            == 0),
        forall|num_vars: nat, clauses: Seq<Seq<Lit>>|
            #![trigger answers_cover(num_vars, clauses, given@)]
            answers_cover(num_vars, clauses, given@) ==> decides(num_vars, clauses, r),
{
    let mut answers = given;
    let ghost all = given@;
    let total = answers.len();
    let mut refutation: Option<Vec<Clause>> = None;
    let ghost mut refuted_at: int = -1;
    let mut done: usize = 0;
    while answers.len() > 0
        invariant
            all == given@,
            done + answers@.len() == all.len(),
            all.len() == total,
            answers@ == all.skip(done as int),
            forall|j: int|
                0 <= j < done ==> !((#[trigger] all[j]) matches Some(SolverResult::Satisfiable(_))),
            refutation is None ==> forall|j: int|
                0 <= j < done ==> !((#[trigger] all[j]) matches Some(
                    SolverResult::Unsatisfiable(_),
                )),
            refutation matches Some(learned) ==> first_refutation_at(all, refuted_at) && refuted_at
                < done && all[refuted_at] == Some(SolverResult::Unsatisfiable(learned)),
        ensures
            done == all.len(),
            forall|j: int|
                0 <= j < done ==> !((#[trigger] all[j]) matches Some(SolverResult::Satisfiable(_))),
            refutation is None ==> forall|j: int|
                0 <= j < done ==> !((#[trigger] all[j]) matches Some(
                    SolverResult::Unsatisfiable(_),
                )),
            refutation matches Some(learned) ==> first_refutation_at(all, refuted_at)
                && all[refuted_at] == Some(SolverResult::Unsatisfiable(learned)),
        decreases answers@.len(),
    {
        let answer = answers.remove(0);
        proof {
            assert(answer == all[done as int]);
            assert(answers@ =~= all.skip(done as int + 1));
        }
        match answer {
            Some(SolverResult::Satisfiable(assignment)) => {
                proof {
                    assert(first_model_at(all, done as int));
                    assert forall|i: int| first_model_at(all, i) implies i == done by {
                        if i < done {
                        } else if i > done {
                            assert(all[done as int] matches Some(SolverResult::Satisfiable(_)));
                        }
                    }
                    assert forall|num_vars: nat, clauses: Seq<Seq<Lit>>|
                        #![trigger answers_cover(num_vars, clauses, all)]
                        answers_cover(num_vars, clauses, all) implies decides(
                        num_vars,
                        clauses,
                        SolverResult::Satisfiable(assignment),
                    ) by {
                        assert(all[done as int] is Some);
                    }
                }
                return SolverResult::Satisfiable(assignment);
            },
            Some(SolverResult::Unsatisfiable(learned)) => {
                if refutation.is_none() {
                    refutation = Some(learned);
                    proof {
                        refuted_at = done as int;
                    }
                }
            },
            None => {},
        }
        done += 1;
    }
    proof {
        assert forall|i: int| !first_model_at(all, i) by {
            if first_model_at(all, i) {
                assert(all[i] matches Some(SolverResult::Satisfiable(_)));
            }
        }
    }
    match refutation {
        Some(learned) => {
            proof {
                assert forall|i: int| first_refutation_at(all, i) implies i == refuted_at by {
                    if i < refuted_at {
                        assert(all[i] matches Some(SolverResult::Unsatisfiable(_)));
                    } else if i > refuted_at {
                        assert(all[refuted_at] matches Some(SolverResult::Unsatisfiable(_)));
                    }
                }
                assert forall|num_vars: nat, clauses: Seq<Seq<Lit>>|
                    #![trigger answers_cover(num_vars, clauses, all)]
                    answers_cover(num_vars, clauses, all) implies decides(
                    num_vars,
                    clauses,
                    SolverResult::Unsatisfiable(learned),
                ) by {
                    assert(all[refuted_at] is Some);
                }
            }
            SolverResult::Unsatisfiable(learned)
        },
        None => {
            let mut bare: Vec<Clause> = Vec::new();
            bare.push(Clause { literals: Vec::new() });
            proof {
                assert forall|i: int| !first_refutation_at(all, i) by {
                    if first_refutation_at(all, i) {
                        assert(all[i] matches Some(SolverResult::Unsatisfiable(_)));
                    }
                }
                assert forall|num_vars: nat, clauses: Seq<Seq<Lit>>|
                    #![trigger answers_cover(num_vars, clauses, all)]
                    answers_cover(num_vars, clauses, all) implies decides(
                    num_vars,
                    clauses,
                    SolverResult::Unsatisfiable(bare),
                ) by {
                    if satisfiable(num_vars, clauses) {
                        let i = choose|i: int| 0 <= i < all.len() && (#[trigger] all[i]) is Some;
                        lemma_decides_sound(num_vars, clauses, all[i]->0);
                    }
                    lemma_unsatisfiable_entails(num_vars, clauses, bare@[0]@);
                }
            }
            SolverResult::Unsatisfiable(bare)
        },
    }
}

/// Decides a formula by cube and conquer: pure literals are decided, the
/// search is split into cubes down to `depth`, and the cubes are conquered
/// in order until one gives an assignment.
pub fn solve_cnc(cnf: &CnfFormula, depth: usize) -> (r: SolverResult)
    requires
        cnf.wf(),
        cnf.num_vars <= u32::MAX,
    ensures
        decides(cnf.num_vars as nat, cnf@, r),
        r matches SolverResult::Unsatisfiable(refutation) ==> refutation@.len() == 1
            || is_rup_refutation(cnf@, clause_views(refutation@)),
{
    let ghost n = cnf.num_vars as nat;
    let ghost f = cnf@;
    let mut blank_state = SolverState::from_cnf(cnf);
    let ghost fresh = blank_state@;
    blank_state.pure_literal_eliminate();
    proof {
        lemma_purified_extendable(fresh, fresh.num_vars);
        if satisfiable(n, f) {
            lemma_fresh_extendable(n, f);
        }
    }
    let mut cubes = split_cubes(blank_state, depth);
    let ghost all = cubes@;
    let mut answers: Vec<Option<SolverResult>> = Vec::new();
    while cubes.len() > 0
        invariant
            n == cnf.num_vars,
            f == cnf@,
            cnf.wf(),
            answers@.len() + cubes@.len() == all.len(),
            cubes@ == all.skip(answers@.len() as int),
            forall|i: int| 0 <= i < all.len() ==> cube_sound(n, f, #[trigger] all[i]),
            forall|i: int|
                0 <= i < answers@.len() ==> ((#[trigger] answers@[i]) matches Some(result)
                    ==> decides(n, f, result)),
            forall|i: int|
                0 <= i < answers@.len() ==> (#[trigger] answers@[i] is None <==> all[i] is Refuted),
            forall|i: int|
                0 <= i < answers@.len() ==> ((#[trigger] answers@[i]) matches Some(
                    SolverResult::Unsatisfiable(refutation),
                ) ==> is_rup_refutation(f, clause_views(refutation@))),
        decreases cubes@.len(),
    {
        let ghost at = answers@.len() as int;
        let cube = cubes.remove(0);
        proof {
            assert(cube == all[at]);
            assert(cubes@ =~= all.skip(at + 1));
        }
        let answer = conquer_cube(cube);
        if let Some(SolverResult::Satisfiable(assignment)) = answer {
            return SolverResult::Satisfiable(assignment);
        }
        let ghost before = answers@;
        answers.push(answer);
        proof {
            assert forall|i: int| 0 <= i < answers@.len() implies ((
            #[trigger] answers@[i]) matches Some(result) ==> decides(n, f, result)) by {
                if i < before.len() {
                    assert(answers@[i] == before[i]);
                }
            }
            assert forall|i: int| 0 <= i < answers@.len() implies (#[trigger] answers@[i] is None
                <==> all[i] is Refuted) by {
                if i < before.len() {
                    assert(answers@[i] == before[i]);
                }
            }
            assert forall|i: int| 0 <= i < answers@.len() implies ((
            #[trigger] answers@[i]) matches Some(SolverResult::Unsatisfiable(refutation))
                ==> is_rup_refutation(f, clause_views(refutation@))) by {
                if i < before.len() {
                    assert(answers@[i] == before[i]);
                }
            }
        }
    }
    proof {
        if satisfiable(n, f) {
            let i = choose|i: int| 0 <= i < all.len() && !(#[trigger] all[i] is Refuted);
            assert(answers@[i] is Some);
        }
        assert(answers_cover(n, f, answers@));
    }
    let ghost collected = answers@;
    let result = combine_answers(answers);
    proof {
        if result is Unsatisfiable && exists|i: int| first_refutation_at(collected, i) {
            let i = choose|i: int| first_refutation_at(collected, i);
            assert(Some(result) == collected[i]);
        }
    }
    result
}

} // verus!
