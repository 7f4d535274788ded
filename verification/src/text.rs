//! The text forms of literals, clauses, formulas, assignments and states,
//! for messages and logs.

use crate::assignment::{Assignment, Record};
use crate::formula::{Clause, CnfFormula, Lit, Val, Var};
use crate::solver_state::{SolverState, StateView, TrailElement, TrailReason};
use crate::trail::{ReasonView, TrailEntry};
use vstd::prelude::*;
use vstd::string::StringExecFns;

verus! {

/// The character of a decimal digit.
pub open spec fn digit_text(d: nat) -> Seq<char> {
    if d == 0 {
        "0"@
    } else if d == 1 {
        "1"@
    } else if d == 2 {
        "2"@
    } else if d == 3 {
        "3"@
    } else if d == 4 {
        "4"@
    } else if d == 5 {
        "5"@
    } else if d == 6 {
        "6"@
    } else if d == 7 {
        "7"@
    } else if d == 8 {
        "8"@
    } else {
        "9"@
    }
}

/// A number in decimal.
pub open spec fn number_text(n: nat) -> Seq<char>
    decreases n,
{
    if n < 10 {
        digit_text(n)
    } else {
        number_text(n / 10) + digit_text(n % 10)
    }
}

/// The texts with `separator` between each two.
pub open spec fn joined(texts: Seq<Seq<char>>, separator: Seq<char>) -> Seq<char>
    decreases texts.len(),
{
    if texts.len() == 0 {
        Seq::empty()
    } else if texts.len() == 1 {
        texts[0]
    } else {
        joined(texts.drop_last(), separator) + separator + texts.last()
    }
}

/// The views of a list of strings.
pub open spec fn string_views(strings: Seq<String>) -> Seq<Seq<char>> {
    Seq::new(strings.len(), |i: int| strings[i]@)
}

/// `true` or `false`.
pub open spec fn val_text(value: Val) -> Seq<char> {
    if value == Val::True {
        "true"@
    } else {
        "false"@
    }
}

/// `x` and the number of the variable, after `-` for a negative literal.
pub open spec fn lit_text(lit: Lit) -> Seq<char> {
    if lit.value == Val::True {
        "x"@ + number_text(lit.var.index as nat)
    } else {
        "-x"@ + number_text(lit.var.index as nat)
    }
}

/// The literals in brackets, with ` V ` between them.
pub open spec fn clause_text(clause: Seq<Lit>) -> Seq<char> {
    "("@ + joined(Seq::new(clause.len(), |i: int| lit_text(clause[i])), " V "@) + ")"@
}

/// The clauses in brackets, with ` ^ ` between them.
pub open spec fn formula_text(clauses: Seq<Seq<Lit>>) -> Seq<char> {
    "("@ + joined(Seq::new(clauses.len(), |i: int| clause_text(clauses[i])), " ^ "@) + ")"@
}

/// A variable with its value and, in brackets after `d`, its level.
pub open spec fn record_text(index: nat, record: Record) -> Seq<char> {
    "x"@ + number_text(index) + "="@ + val_text(record.value) + "(d"@ + number_text(
        record.decision_level as nat,
    ) + ")"@
}

/// The texts of the assigned variables among the first `upto`.
pub open spec fn record_texts(a: Seq<Option<Record>>, upto: nat) -> Seq<Seq<char>>
    decreases upto,
{
    if upto == 0 {
        Seq::empty()
    } else {
        match a[upto - 1] {
            Some(record) => record_texts(a, (upto - 1) as nat).push(record_text(upto, record)),
            None => record_texts(a, (upto - 1) as nat),
        }
    }
}

/// The assigned variables in square brackets, with `, ` between them.
pub open spec fn assignment_text(a: Seq<Option<Record>>) -> Seq<char> {
    "["@ + joined(record_texts(a, a.len()), ", "@) + "]"@
}

/// The literal, then `(D)` for a decision or `(U)` for an inference.
pub open spec fn entry_text(entry: TrailEntry) -> Seq<char> {
    match entry.reason {
        ReasonView::Decision(_) => lit_text(entry.lit) + "(D)"@,
        ReasonView::UnitProp(_) => lit_text(entry.lit) + "(U)"@,
    }
}

/// The literals with their levels in brackets, ` ^ ` between them, and at
/// the end an arrow to the sign of the empty set: together they lead to a
/// contradiction.
pub open spec fn conflict_text(entries: Seq<(u32, Lit)>) -> Seq<char> {
    joined(
        Seq::new(
            entries.len(),
            |i: int| lit_text(entries[i].1) + "("@ + number_text(entries[i].0 as nat) + ")"@,
        ),
        " ^ "@,
    ) + " -> \u{f8}"@
}

/// The assignment and the formula, each on a line of its own.
pub open spec fn state_text(s: StateView) -> Seq<char> {
    "Assignment: "@ + assignment_text(s.assignment) + "\nFormula: "@ + formula_text(s.clauses)
}

/// Adds a number in decimal to `out`.
pub fn push_number(out: &mut String, n: usize)
    ensures
        final(out)@ == old(out)@ + number_text(n as nat),
    decreases n,
{
    if n >= 10 {
        push_number(out, n / 10);
    }
    let digit = n % 10;
    let text = if digit == 0 {
        "0"
    } else if digit == 1 {
        "1"
    } else if digit == 2 {
        "2"
    } else if digit == 3 {
        "3"
    } else if digit == 4 {
        "4"
    } else if digit == 5 {
        "5"
    } else if digit == 6 {
        "6"
    } else if digit == 7 {
        "7"
    } else if digit == 8 {
        "8"
    } else {
        "9"
    };
    out.append(text);
    assert(out@ =~= old(out)@ + number_text(n as nat));
}

/// Adds the texts to `out`, with `separator` between each two.
pub fn push_joined(out: &mut String, texts: &Vec<String>, separator: &str)
    ensures
        final(out)@ == old(out)@ + joined(string_views(texts@), separator@),
{
    let ghost views = string_views(texts@);
    let mut i: usize = 0;
    assert(out@ =~= old(out)@ + joined(views.take(0), separator@));
    while i < texts.len()
        invariant
            i <= texts.len(),
            views == string_views(texts@),
            out@ == old(out)@ + joined(views.take(i as int), separator@),
        decreases texts.len() - i,
    {
        if i > 0 {
            out.append(separator);
        }
        out.append(texts[i].as_str());
        proof {
            assert(views.take(i as int + 1).drop_last() =~= views.take(i as int));
            assert(views.take(i as int + 1).last() == texts@[i as int]@);
            assert(out@ =~= old(out)@ + joined(views.take(i as int + 1), separator@));
        }
        i += 1;
    }
    assert(views.take(i as int) =~= views);
}

impl Lit {
    /// The literal as text: `x3`, or `-x3`.
    pub fn to_text(&self) -> (r: String)
        ensures
            r@ == lit_text(*self),
    {
        let mut out = String::new();
        if self.value == Val::True {
            out.append("x");
        } else {
            out.append("-x");
        }
        push_number(&mut out, self.var.index);
        assert(out@ =~= lit_text(*self));
        out
    }
}

impl Clause {
    /// The clause as text: `(x1 V -x2)`.
    pub fn to_text(&self) -> (r: String)
        ensures
            r@ == clause_text(self@),
    {
        let mut texts: Vec<String> = Vec::new();
        let mut i: usize = 0;
        while i < self.literals.len()
            invariant
                i <= self.literals.len(),
                texts@.len() == i,
                forall|j: int| 0 <= j < i ==> (#[trigger] texts@[j])@ == lit_text(self@[j]),
            decreases self.literals.len() - i,
        {
            texts.push(self.literals[i].to_text());
            i += 1;
        }
        assert(string_views(texts@) =~= Seq::new(self@.len(), |i: int| lit_text(self@[i])));
        let mut out = String::new();
        out.append("(");
        push_joined(&mut out, &texts, " V ");
        out.append(")");
        assert(out@ =~= clause_text(self@));
        out
    }
}

impl CnfFormula {
    /// The formula as text: `((x1 V -x2) ^ (x3))`.
    pub fn to_text(&self) -> (r: String)
        ensures
            r@ == formula_text(self@),
    {
        let mut texts: Vec<String> = Vec::new();
        let mut i: usize = 0;
        while i < self.clauses.len()
            invariant
                i <= self.clauses.len(),
                texts@.len() == i,
                forall|j: int| 0 <= j < i ==> (#[trigger] texts@[j])@ == clause_text(self@[j]),
            decreases self.clauses.len() - i,
        {
            assert(self@[i as int] == self.clauses@[i as int]@);
            texts.push(self.clauses[i].to_text());
            i += 1;
        }
        assert(string_views(texts@) =~= Seq::new(self@.len(), |i: int| clause_text(self@[i])));
        let mut out = String::new();
        out.append("(");
        push_joined(&mut out, &texts, " ^ ");
        out.append(")");
        assert(out@ =~= formula_text(self@));
        out
    }
}

impl Assignment {
    /// The assignment as text: `[x1=true(d0), x3=false(d2)]`.
    pub fn to_text(&self) -> (r: String)
        ensures
            r@ == assignment_text(self@),
    {
        let n = self.num_vars();
        let mut texts: Vec<String> = Vec::new();
        let mut i: usize = 0;
        while i < n
            invariant
                i <= n,
                n == self@.len(),
                string_views(texts@) == record_texts(self@, i as nat),
            decreases n - i,
        {
            let lit = Lit { var: Var { index: i + 1 }, value: Val::True };
            let ghost before = string_views(texts@);
            match (self.get(&lit), self.get_decision_level(&lit)) {
                (Some(satisfied), Some(level)) => {
                    let mut text = String::new();
                    text.append("x");
                    push_number(&mut text, i + 1);
                    text.append("=");
                    text.append(
                        if satisfied {
                            "true"
                        } else {
                            "false"
                        },
                    );
                    text.append("(d");
                    push_number(&mut text, level as usize);
                    text.append(")");
                    assert(text@ =~= record_text((i + 1) as nat, self@[i as int]->0));
                    texts.push(text);
                    assert(string_views(texts@) =~= before.push(
                        record_text((i + 1) as nat, self@[i as int]->0),
                    ));
                },
                _ => {},
            }
            i += 1;
        }
        let mut out = String::new();
        out.append("[");
        push_joined(&mut out, &texts, ", ");
        out.append("]");
        assert(out@ =~= assignment_text(self@));
        out
    }
}

impl TrailElement {
    /// The element as text: `x3(D)` for a decision, `-x3(U)` for an inference.
    pub fn to_text(&self) -> (r: String)
        ensures
            r@ == entry_text(self@),
    {
        let mut out = self.lit.to_text();
        match self.reason {
            TrailReason::Decision(_) => {
                out.append("(D)");
            },
            TrailReason::UnitProp(_) => {
                out.append("(U)");
            },
        }
        out
    }
}

impl SolverState {
    /// The state as text: the assignment, then the formula.
    pub fn to_text(&self) -> (r: String)
        ensures
            r@ == state_text(self@),
    {
        let mut out = String::new();
        out.append("Assignment: ");
        out.append(self.assignment.to_text().as_str());
        out.append("\nFormula: ");
        out.append(self.formula.to_text().as_str());
        assert(out@ =~= state_text(self@));
        out
    }
}

} // verus!
