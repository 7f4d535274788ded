//! Random k-SAT formulas.

use crate::formula::{clause_in_range, Clause, CnfFormula, Lit, Val, Var};
use vstd::prelude::*;

verus! {

/// The generator that `rand::rng` hands out. Nothing of its inside is
/// known here.
#[verifier::external_type_specification]
#[verifier::external_body]
pub struct ExThreadRng(rand::rngs::ThreadRng);

/// Calls `rand::rng`, which hands out the generator of the current thread.
/// Nothing is claimed of it.
#[verifier::external_body]
fn thread_generator() -> rand::rngs::ThreadRng {
    rand::rng()
}

/// Calls `Rng::random_range` on the inclusive range from `low` to `high`,
/// which is not empty. The number drawn lies in the range; which one it is
/// is left open.
#[verifier::external_body]
fn random_in_range(rng: &mut rand::rngs::ThreadRng, low: usize, high: usize) -> (r: usize)
    requires
        low <= high,
    ensures
        low <= r <= high,
{
    rand::Rng::random_range(rng, low..=high)
}

/// Calls `Rng::random_ratio` for one chance in two. Nothing is claimed of the
/// outcome.
#[verifier::external_body]
fn random_polarity(rng: &mut rand::rngs::ThreadRng) -> bool {
    rand::Rng::random_ratio(rng, 1, 2)
}

/// The numbers are in strictly increasing order.
pub open spec fn increasing(numbers: Seq<usize>) -> bool {
    forall|i: int, j: int| 0 <= i < j < numbers.len() ==> numbers[i] < numbers[j]
}

/// No two literals of the clause are over the same variable.
pub open spec fn distinct_vars(clause: Seq<Lit>) -> bool {
    forall|i: int, j: int|
        0 <= i < j < clause.len() ==> (#[trigger] clause[i]).var != (#[trigger] clause[j]).var
}

/// A formula over `n` variables with `l` clauses of `k` literals each, every
/// clause over `k` different variables.
pub open spec fn is_k_sat(formula: CnfFormula, n: usize, k: usize, l: usize) -> bool {
    &&& formula.num_vars == n
    &&& formula@.len() == l
    &&& forall|i: int|
        0 <= i < formula@.len() ==> {
            &&& (#[trigger] formula@[i]).len() == k
            &&& clause_in_range(formula@[i], n as nat)
            &&& distinct_vars(formula@[i])
        }
}

/// The `rank`-th number, counting from 1, that is not among `chosen`, and
/// the position at which it keeps `chosen` in order. `chosen` holds numbers
/// from 1 up in increasing order.
pub fn pick_unchosen(chosen: &Vec<usize>, rank: usize) -> (r: (usize, usize))
    requires
        increasing(chosen@),
        1 <= rank,
        rank + chosen@.len() <= usize::MAX,
    ensures
        rank <= r.0 <= rank + chosen@.len(),
        r.1 <= chosen@.len(),
        r.0 == rank + r.1,
        !chosen@.contains(r.0),
        forall|i: int| 0 <= i < r.1 ==> chosen@[i] < r.0,
        forall|i: int| r.1 <= i < chosen@.len() ==> r.0 < chosen@[i],
{
    let mut number: usize = rank;
    let mut at: usize = 0;
    while at < chosen.len() && chosen[at] <= number
        invariant
            at <= chosen.len(),
            increasing(chosen@),
            number == rank + at,
            rank + chosen@.len() <= usize::MAX,
            forall|i: int| 0 <= i < at ==> chosen@[i] < number,
        decreases chosen.len() - at,
    {
        number += 1;
        at += 1;
    }
    (number, at)
}

/// A clause of `k` literals over different variables of `1..=n`.
fn generate_random_clause(n: usize, k: usize, rng: &mut rand::rngs::ThreadRng) -> (clause: Clause)
    requires
        k <= n,
    ensures
        clause@.len() == k,
        clause_in_range(clause@, n as nat),
        distinct_vars(clause@),
{
    let mut chosen: Vec<usize> = Vec::new();
    let mut literals: Vec<Lit> = Vec::new();
    while literals.len() < k
        invariant
            k <= n,
            literals@.len() <= k,
            chosen@.len() == literals@.len(),
            increasing(chosen@),
            forall|i: int| 0 <= i < chosen@.len() ==> 1 <= #[trigger] chosen@[i] <= n,
            forall|i: int|
                0 <= i < literals@.len() ==> chosen@.contains((#[trigger] literals@[i]).var.index),
            clause_in_range(literals@, n as nat),
            distinct_vars(literals@),
        decreases k - literals@.len(),
    {
        let rank = random_in_range(rng, 1, n - literals.len());
        let (index, at) = pick_unchosen(&chosen, rank);
        let value = if random_polarity(rng) {
            Val::True
        } else {
            Val::False
        };
        let ghost before = chosen@;
        let ghost lits = literals@;
        chosen.insert(at, index);
        literals.push(Lit { var: Var { index }, value });
        proof {
            assert forall|i: int, j: int| 0 <= i < j < chosen@.len() implies chosen@[i]
                < chosen@[j] by {
                let oi = if i < at { i } else { i - 1 };
                let oj = if j < at { j } else { j - 1 };
                if i != at && j != at {
                    assert(before[oi] < before[oj]);
                }
            }
            assert forall|i: int| 0 <= i < chosen@.len() implies 1 <= #[trigger] chosen@[i]
                <= n by {
                if i != at {
                    let oi = if i < at { i } else { i - 1 };
                    assert(chosen@[i] == before[oi]);
                }
            }
            assert forall|i: int| 0 <= i < literals@.len() implies chosen@.contains(
                (#[trigger] literals@[i]).var.index,
            ) by {
                if i < lits.len() {
                    assert(literals@[i] == lits[i]);
                    let p = choose|p: int| 0 <= p < before.len() && before[p] == lits[i].var.index;
                    let q = if p < at { p } else { p + 1 };
                    assert(chosen@[q] == lits[i].var.index);
                } else {
                    assert(chosen@[at as int] == index);
                }
            }
            assert forall|i: int, j: int| 0 <= i < j < literals@.len() implies (
            #[trigger] literals@[i]).var != (#[trigger] literals@[j]).var by {
                if j < lits.len() {
                    assert(literals@[i] == lits[i] && literals@[j] == lits[j]);
                } else {
                    assert(literals@[i] == lits[i]);
                    assert(before.contains(lits[i].var.index));
                }
            }
            assert forall|i: int| 0 <= i < literals@.len() implies (
            #[trigger] literals@[i]).in_range(n as nat) by {
                if i < lits.len() {
                    assert(literals@[i] == lits[i]);
                }
            }
        }
    }
    Clause { literals }
}

/// A random formula over `n` variables with `l` clauses of `k` literals
/// each: every clause is over `k` different variables, drawn without
/// replacement, each with a sign drawn at even odds.
pub fn generate_random_cnf(n: usize, k: usize, l: usize) -> (formula: CnfFormula)
    requires
        k <= n,
    ensures
        is_k_sat(formula, n, k, l),
        formula.wf(),
{
    let mut rng = thread_generator();
    let mut clauses: Vec<Clause> = Vec::new();
    while clauses.len() < l
        invariant
            k <= n,
            clauses@.len() <= l,
            forall|i: int|
                0 <= i < clauses@.len() ==> {
                    &&& (#[trigger] clauses@[i])@.len() == k
                    &&& clause_in_range(clauses@[i]@, n as nat)
                    &&& distinct_vars(clauses@[i]@)
                },
        decreases l - clauses@.len(),
    {
        let clause = generate_random_clause(n, k, &mut rng);
        clauses.push(clause);
    }
    let formula = CnfFormula { num_vars: n, clauses };
    assert forall|i: int| 0 <= i < formula@.len() implies {
        &&& (#[trigger] formula@[i]).len() == k
        &&& clause_in_range(formula@[i], n as nat)
        &&& distinct_vars(formula@[i])
    } by {
        assert(formula@[i] == formula.clauses@[i]@);
    }
    formula
}

} // verus!
