//! Variables, literals, clauses and formulas, and what it means for a model
//! to satisfy them.

use vstd::prelude::*;

verus! {

/// A propositional variable. Variables are numbered from 1.
#[derive(Debug, Clone, Copy, PartialEq, Eq, Hash, PartialOrd, Ord, Structural)]
pub struct Var {
    pub index: usize,
}

/// A truth value.
#[derive(Debug, Clone, Copy, PartialEq, Eq, Hash, PartialOrd, Ord, Structural)]
pub enum Val {
    True,
    False,
}

impl Val {
    /// The opposite truth value.
    pub open spec fn negated(self) -> Val {
        match self {
            Val::True => Val::False,
            Val::False => Val::True,
        }
    }

    /// The Boolean this value stands for.
    pub open spec fn as_bool(self) -> bool {
        self == Val::True
    }

    /// The opposite value.
    pub fn not(&self) -> (r: Self)
        ensures
            r == self.negated(),
    {
        match self {
            Val::True => Val::False,
            Val::False => Val::True,
        }
    }

    /// The word for this value: `true` or `false`.
    pub fn to_text(&self) -> (r: &'static str)
        ensures
            r@ == (if *self == Val::True {
                "true"@
            } else {
                "false"@
            }),
    {
        match self {
            Val::True => "true",
            Val::False => "false",
        }
    }
}

/// A variable together with the value that satisfies the literal.
#[derive(Debug, Clone, Copy, PartialEq, Eq, Hash, PartialOrd, Ord, Structural)]
pub struct Lit {
    pub var: Var,
    pub value: Val,
}

impl Lit {
    /// The literal over the same variable with the opposite value.
    pub open spec fn negated(self) -> Lit {
        Lit { var: self.var, value: self.value.negated() }
    }

    /// Whether the variable is one of `1..=num_vars`.
    pub open spec fn in_range(self, num_vars: nat) -> bool {
        1 <= self.var.index <= num_vars
    }

    /// The literal over the same variable with the opposite value.
    pub fn not(&self) -> (r: Self)
        ensures
            r == self.negated(),
    {
        Lit { var: self.var, value: self.value.not() }
    }
}

/// A disjunction of literals, in the order they were given.
#[derive(Debug, PartialEq)]
pub struct Clause {
    pub literals: Vec<Lit>,
}

impl View for Clause {
    type V = Seq<Lit>;

    open spec fn view(&self) -> Seq<Lit> {
        self.literals@
    }
}

impl Clone for Clause {
    fn clone(&self) -> (r: Self)
        ensures
            r@ == self@,
    {
        Clause { literals: self.literals.clone() }
    }
}

/// A conjunction of clauses over the variables `1..=num_vars`.
#[derive(Debug, PartialEq)]
pub struct CnfFormula {
    pub num_vars: usize,
    pub clauses: Vec<Clause>,
}

/// The literal sequences of a list of clauses.
pub open spec fn clause_views(clauses: Seq<Clause>) -> Seq<Seq<Lit>> {
    Seq::new(clauses.len(), |i: int| clauses[i]@)
}

impl View for CnfFormula {
    type V = Seq<Seq<Lit>>;

    open spec fn view(&self) -> Seq<Seq<Lit>> {
        clause_views(self.clauses@)
    }
}

impl CnfFormula {
    /// Every literal names a variable of the formula.
    pub open spec fn wf(&self) -> bool {
        clauses_in_range(self@, self.num_vars as nat)
    }

    /// Whether every literal names a variable of the formula.
    pub fn is_well_formed(&self) -> (r: bool)
        ensures
            r == self.wf(),
    {
        let mut i: usize = 0;
        while i < self.clauses.len()
            invariant
                i <= self.clauses.len(),
                forall|j: int|
                    0 <= j < i ==> clause_in_range(#[trigger] self@[j], self.num_vars as nat),
            decreases self.clauses.len() - i,
        {
            let clause = &self.clauses[i];
            assert(clause@ == self@[i as int]);
            let mut k: usize = 0;
            while k < clause.literals.len()
                invariant
                    k <= clause.literals.len(),
                    i < self.clauses.len(),
                    clause@ == self@[i as int],
                    forall|m: int|
                        0 <= m < k ==> (#[trigger] clause@[m]).in_range(self.num_vars as nat),
                decreases clause.literals.len() - k,
            {
                let index = clause.literals[k].var.index;
                if index < 1 || index > self.num_vars {
                    assert(!clause@[k as int].in_range(self.num_vars as nat));
                    assert(!clause_in_range(self@[i as int], self.num_vars as nat));
                    return false;
                }
                k += 1;
            }
            i += 1;
        }
        true
    }
}

/// Copies a list of clauses.
pub fn clone_clauses(clauses: &Vec<Clause>) -> (r: Vec<Clause>)
    ensures
        clause_views(r@) == clause_views(clauses@),
{
    let mut r: Vec<Clause> = Vec::new();
    let mut i: usize = 0;
    while i < clauses.len()
        invariant
            i <= clauses.len(),
            r.len() == i,
            forall|j: int| 0 <= j < i ==> r@[j]@ == clauses@[j]@,
        decreases clauses.len() - i,
    {
        r.push(clauses[i].clone());
        i += 1;
    }
    assert(clause_views(r@) =~= clause_views(clauses@));
    r
}

impl Clone for CnfFormula {
    fn clone(&self) -> (r: Self)
        ensures
            r@ == self@,
            r.num_vars == self.num_vars,
    {
        CnfFormula { num_vars: self.num_vars, clauses: clone_clauses(&self.clauses) }
    }
}

/// Every literal of the clause names a variable in `1..=num_vars`.
pub open spec fn clause_in_range(clause: Seq<Lit>, num_vars: nat) -> bool {
    forall|i: int| 0 <= i < clause.len() ==> (#[trigger] clause[i]).in_range(num_vars)
}

/// Every clause is in range.
pub open spec fn clauses_in_range(clauses: Seq<Seq<Lit>>, num_vars: nat) -> bool {
    forall|i: int| 0 <= i < clauses.len() ==> clause_in_range(#[trigger] clauses[i], num_vars)
}

/// Whether the model makes the literal true. A model gives the value of
/// variable `v` at position `v - 1`.
pub open spec fn lit_holds(model: Seq<bool>, lit: Lit) -> bool {
    model[lit.var.index - 1] == lit.value.as_bool()
}

/// Whether the model makes some literal of the clause true.
pub open spec fn clause_holds(model: Seq<bool>, clause: Seq<Lit>) -> bool {
    exists|i: int| 0 <= i < clause.len() && lit_holds(model, #[trigger] clause[i])
}

/// Whether the model makes every clause true.
pub open spec fn is_model(model: Seq<bool>, clauses: Seq<Seq<Lit>>) -> bool {
    forall|i: int| 0 <= i < clauses.len() ==> clause_holds(model, #[trigger] clauses[i])
}

/// Whether some model over `num_vars` variables makes every clause true.
pub open spec fn satisfiable(num_vars: nat, clauses: Seq<Seq<Lit>>) -> bool {
    exists|model: Seq<bool>| model.len() == num_vars && #[trigger] is_model(model, clauses)
}

/// Whether every model of `clauses` over `num_vars` variables makes `clause` true.
pub open spec fn entails(num_vars: nat, clauses: Seq<Seq<Lit>>, clause: Seq<Lit>) -> bool {
    forall|model: Seq<bool>|
        model.len() == num_vars && #[trigger] is_model(model, clauses) ==> clause_holds(
            model,
            clause,
        )
}

/// A formula that entails the empty clause has no model.
pub proof fn lemma_empty_clause_refutes(num_vars: nat, clauses: Seq<Seq<Lit>>)
    requires
        entails(num_vars, clauses, Seq::<Lit>::empty()),
    ensures
        !satisfiable(num_vars, clauses),
{
    if satisfiable(num_vars, clauses) {
        let model = choose|model: Seq<bool>|
            model.len() == num_vars && #[trigger] is_model(model, clauses);
        assert(clause_holds(model, Seq::<Lit>::empty()));
    }
}

/// A literal holds in a model exactly when its negation does not.
pub proof fn lemma_negation(model: Seq<bool>, lit: Lit)
    ensures
        lit_holds(model, lit.negated()) == !lit_holds(model, lit),
        lit.negated().negated() == lit,
        lit.negated().var == lit.var,
{
}

/// What follows from clauses that all follow from a formula follows from the formula.
pub proof fn lemma_entails_transitive(
    num_vars: nat,
    base: Seq<Seq<Lit>>,
    derived: Seq<Seq<Lit>>,
    clause: Seq<Lit>,
)
    requires
        forall|i: int| 0 <= i < derived.len() ==> entails(num_vars, base, #[trigger] derived[i]),
        entails(num_vars, derived, clause),
    ensures
        entails(num_vars, base, clause),
{
    assert forall|model: Seq<bool>|
        model.len() == num_vars && #[trigger] is_model(model, base) implies clause_holds(
        model,
        clause,
    ) by {
        assert forall|i: int| 0 <= i < derived.len() implies clause_holds(
            model,
            #[trigger] derived[i],
        ) by {
            assert(entails(num_vars, base, derived[i]));
        }
        assert(is_model(model, derived));
    }
}

/// Every clause of a formula follows from the formula.
pub proof fn lemma_member_entailed(num_vars: nat, clauses: Seq<Seq<Lit>>, i: int)
    requires
        0 <= i < clauses.len(),
    ensures
        entails(num_vars, clauses, clauses[i]),
{
}

} // verus!
