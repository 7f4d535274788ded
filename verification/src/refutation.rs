//! Refutations by reverse unit propagation: what it means for a learned
//! clause to follow from the clauses before it, and why such a refutation
//! shows that a formula has no model.

use crate::formula::{
    clause_holds, entails, is_model, lemma_empty_clause_refutes, lemma_entails_transitive,
    lemma_member_entailed, lemma_negation, lit_holds, satisfiable, Lit,
};
use vstd::prelude::*;

verus! {

/// The negations of the literals of a clause: what is assumed when the
/// clause is put to the test.
pub open spec fn denied(clause: Seq<Lit>) -> Seq<Lit> {
    Seq::new(clause.len(), |i: int| clause[i].negated())
}

/// Whether `lit` is assumed, or derived by one of the first `i` steps of the trace.
pub open spec fn known(assumed: Seq<Lit>, trace: Seq<(int, Lit)>, i: int, lit: Lit) -> bool {
    assumed.contains(lit) || exists|j: int|
        0 <= j < i && j < trace.len() && (#[trigger] trace[j]).1 == lit
}

/// Step `i` of the trace is a unit propagation: it names a clause that
/// holds its literal, and the negation of every other literal of that
/// clause is known by then.
pub open spec fn propagates(
    clauses: Seq<Seq<Lit>>,
    assumed: Seq<Lit>,
    trace: Seq<(int, Lit)>,
    i: int,
) -> bool {
    let clause = clauses[trace[i].0];
    &&& 0 <= trace[i].0 < clauses.len()
    &&& clause.contains(trace[i].1)
    &&& forall|m: int|
        0 <= m < clause.len() && (#[trigger] clause[m]) != trace[i].1 ==> known(
            assumed,
            trace,
            i,
            clause[m].negated(),
        )
}

/// After the trace, the negation of every literal of clause `k` is known:
/// the clause is falsified.
pub open spec fn conflict_at(
    clauses: Seq<Seq<Lit>>,
    assumed: Seq<Lit>,
    trace: Seq<(int, Lit)>,
    k: int,
) -> bool {
    &&& 0 <= k < clauses.len()
    &&& forall|m: int|
        0 <= m < clauses[k].len() ==> known(
            assumed,
            trace,
            trace.len() as int,
            (#[trigger] clauses[k][m]).negated(),
        )
}

/// Every step of the trace is a unit propagation from what is assumed, and
/// clause `k` is falsified in the end.
pub open spec fn refutes(
    clauses: Seq<Seq<Lit>>,
    assumed: Seq<Lit>,
    trace: Seq<(int, Lit)>,
    k: int,
) -> bool {
    &&& forall|i: int| 0 <= i < trace.len() ==> propagates(clauses, assumed, trace, i)
    &&& conflict_at(clauses, assumed, trace, k)
}

/// Whether `clause` follows from `clauses` by reverse unit propagation:
/// with the negations of its literals assumed, unit propagation falsifies a clause.
pub open spec fn is_rup(clauses: Seq<Seq<Lit>>, clause: Seq<Lit>) -> bool {
    exists|trace: Seq<(int, Lit)>, k: int| refutes(clauses, denied(clause), trace, k)
}

/// Whether `refutation` shows clause by clause that `clauses` have no
/// model: each of its clauses follows by reverse unit propagation from
/// `clauses` and the clauses before it, and the last one is the empty clause.
pub open spec fn is_rup_refutation(clauses: Seq<Seq<Lit>>, refutation: Seq<Seq<Lit>>) -> bool {
    &&& refutation.len() >= 1
    &&& refutation.last().len() == 0
    &&& forall|i: int|
        0 <= i < refutation.len() ==> is_rup(
            clauses + refutation.take(i),
            #[trigger] refutation[i],
        )
}

/// A model of the clauses that makes every assumed literal true makes
/// every literal true that the first `i` steps of a trace derive.
pub proof fn lemma_trace_holds(
    clauses: Seq<Seq<Lit>>,
    assumed: Seq<Lit>,
    trace: Seq<(int, Lit)>,
    model: Seq<bool>,
    i: int,
    lit: Lit,
)
    requires
        is_model(model, clauses),
        forall|j: int| 0 <= j < assumed.len() ==> lit_holds(model, #[trigger] assumed[j]),
        forall|j: int| 0 <= j < trace.len() ==> propagates(clauses, assumed, trace, j),
        0 <= i <= trace.len(),
        known(assumed, trace, i, lit),
    ensures
        lit_holds(model, lit),
    decreases i,
{
    if !assumed.contains(lit) {
        let j = choose|j: int| 0 <= j < i && j < trace.len() && (#[trigger] trace[j]).1 == lit;
        assert(propagates(clauses, assumed, trace, j));
        let clause = clauses[trace[j].0];
        assert(clause_holds(model, clause));
        let m = choose|m: int| 0 <= m < clause.len() && lit_holds(model, #[trigger] clause[m]);
        if clause[m] != lit {
            lemma_trace_holds(clauses, assumed, trace, model, j, clause[m].negated());
            lemma_negation(model, clause[m]);
        }
    }
}

/// Reverse unit propagation is sound: a clause that follows by it holds in
/// every model of the clauses.
pub proof fn lemma_rup_sound(num_vars: nat, clauses: Seq<Seq<Lit>>, clause: Seq<Lit>)
    requires
        is_rup(clauses, clause),
    ensures
        entails(num_vars, clauses, clause),
{
    let (trace, k) = choose|trace: Seq<(int, Lit)>, k: int|
        refutes(clauses, denied(clause), trace, k);
    let assumed = denied(clause);
    assert forall|model: Seq<bool>|
        model.len() == num_vars && #[trigger] is_model(model, clauses) implies clause_holds(
        model,
        clause,
    ) by {
        if !clause_holds(model, clause) {
            assert forall|j: int| 0 <= j < assumed.len() implies lit_holds(
                model,
                #[trigger] assumed[j],
            ) by {
                lemma_negation(model, clause[j]);
            }
            assert(clause_holds(model, clauses[k]));
            let m = choose|m: int|
                0 <= m < clauses[k].len() && lit_holds(model, #[trigger] clauses[k][m]);
            lemma_trace_holds(
                clauses,
                assumed,
                trace,
                model,
                trace.len() as int,
                clauses[k][m].negated(),
            );
            lemma_negation(model, clauses[k][m]);
        }
    }
}

/// The first `i` clauses of a refutation by reverse unit propagation all
/// follow from the clauses refuted.
pub proof fn lemma_refutation_prefix(
    num_vars: nat,
    clauses: Seq<Seq<Lit>>,
    refutation: Seq<Seq<Lit>>,
    i: int,
)
    requires
        is_rup_refutation(clauses, refutation),
        0 <= i <= refutation.len(),
    ensures
        forall|j: int| 0 <= j < i ==> entails(num_vars, clauses, #[trigger] refutation[j]),
    decreases i,
{
    if i > 0 {
        lemma_refutation_prefix(num_vars, clauses, refutation, i - 1);
        let grown = clauses + refutation.take(i - 1);
        lemma_rup_sound(num_vars, grown, refutation[i - 1]);
        assert forall|c: int| 0 <= c < grown.len() implies entails(
            num_vars,
            clauses,
            #[trigger] grown[c],
        ) by {
            if c < clauses.len() {
                lemma_member_entailed(num_vars, clauses, c);
            } else {
                assert(grown[c] == refutation[c - clauses.len()]);
            }
        }
        lemma_entails_transitive(num_vars, clauses, grown, refutation[i - 1]);
    }
}

/// A refutation by reverse unit propagation shows that the clauses have no model.
pub proof fn lemma_rup_refutation_sound(
    num_vars: nat,
    clauses: Seq<Seq<Lit>>,
    refutation: Seq<Seq<Lit>>,
)
    requires
        is_rup_refutation(clauses, refutation),
    ensures
        !satisfiable(num_vars, clauses),
{
    lemma_refutation_prefix(num_vars, clauses, refutation, refutation.len() as int);
    let last = refutation.len() - 1;
    assert(entails(num_vars, clauses, refutation[last]));
    assert(refutation[last] =~= Seq::<Lit>::empty());
    lemma_empty_clause_refutes(num_vars, clauses);
}

/// Whether `clauses` are `initial` followed by learned clauses, each of
/// which follows by reverse unit propagation from the clauses before it.
pub open spec fn derived_from(initial: Seq<Seq<Lit>>, clauses: Seq<Seq<Lit>>) -> bool {
    &&& initial.len() <= clauses.len()
    &&& clauses.take(initial.len() as int) == initial
    &&& forall|i: int|
        initial.len() <= i < clauses.len() ==> is_rup(clauses.take(i), #[trigger] clauses[i])
}

/// One more learned clause.
pub proof fn lemma_derived_push(initial: Seq<Seq<Lit>>, clauses: Seq<Seq<Lit>>, learned: Seq<Lit>)
    requires
        derived_from(initial, clauses),
        is_rup(clauses, learned),
    ensures
        derived_from(initial, clauses.push(learned)),
{
    let more = clauses.push(learned);
    assert(more.take(initial.len() as int) =~= clauses.take(initial.len() as int));
    assert forall|i: int| initial.len() <= i < more.len() implies is_rup(
        more.take(i),
        #[trigger] more[i],
    ) by {
        assert(more.take(i) =~= clauses.take(i));
        if i < clauses.len() {
            assert(more[i] == clauses[i]);
        } else {
            assert(clauses.take(i) =~= clauses);
        }
    }
}

/// The initial clauses and the first `i` clauses of the refutation are the
/// first clauses of the search.
pub proof fn lemma_refutation_context(
    initial: Seq<Seq<Lit>>,
    clauses: Seq<Seq<Lit>>,
    refutation: Seq<Seq<Lit>>,
    i: int,
)
    requires
        initial.len() <= clauses.len(),
        clauses.take(initial.len() as int) == initial,
        refutation == clauses.skip(initial.len() as int).push(Seq::<Lit>::empty()),
        0 <= i < refutation.len(),
    ensures
        initial + refutation.take(i) == clauses.take(initial.len() + i),
        i < refutation.len() - 1 ==> refutation[i] == clauses[initial.len() + i],
        i == refutation.len() - 1 ==> refutation[i] == Seq::<Lit>::empty() && clauses.take(
            initial.len() + i,
        ) == clauses,
{
    let first = initial.len() as int;
    let left = initial + refutation.take(i);
    let right = clauses.take(first + i);
    assert(left.len() == right.len());
    assert forall|j: int| 0 <= j < left.len() implies left[j] == right[j] by {
        if j < first {
            assert(clauses.take(first)[j] == clauses[j]);
        }
    }
    assert(left =~= right);
    if i == refutation.len() - 1 {
        assert(clauses.take(first + i) =~= clauses);
    }
}

/// The learned clauses and then the empty clause refute the initial clauses.
pub proof fn lemma_derived_refutation(
    initial: Seq<Seq<Lit>>,
    clauses: Seq<Seq<Lit>>,
    refutation: Seq<Seq<Lit>>,
)
    requires
        derived_from(initial, clauses),
        is_rup(clauses, Seq::<Lit>::empty()),
        refutation == clauses.skip(initial.len() as int).push(Seq::<Lit>::empty()),
    ensures
        is_rup_refutation(initial, refutation),
{
    assert forall|i: int| 0 <= i < refutation.len() implies is_rup(
        initial + refutation.take(i),
        #[trigger] refutation[i],
    ) by {
        lemma_refutation_context(initial, clauses, refutation, i);
    }
}

} // verus!
