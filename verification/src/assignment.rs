//! Partial assignments of truth values to variables.

use crate::formula::{Lit, Val, Var};
use vstd::prelude::*;

verus! {

/// The value given to a variable and the decision level at which it was given.
#[derive(Debug, Clone, Copy, PartialEq, Eq, Structural)]
pub struct Record {
    pub value: Val,
    pub decision_level: u32,
}

/// A partial assignment: position `v - 1` holds the record of variable `v`,
/// or nothing while `v` is unassigned.
#[derive(Debug, PartialEq)]
pub struct Assignment {
    assignment: Vec<Option<Record>>,
}

/// Every total assignment over a number of variables, one after the other.
pub struct AllAssignments {
    product: itertools::structs::MultiProduct<std::vec::IntoIter<bool>>,
}

/// What a partial assignment says of a literal: `Some(true)` when it is
/// satisfied, `Some(false)` when it is falsified, `None` when its variable
/// is unassigned.
pub open spec fn lit_value(a: Seq<Option<Record>>, lit: Lit) -> Option<bool> {
    match a[lit.var.index - 1] {
        Some(record) => Some(record.value == lit.value),
        None => None,
    }
}

/// The level at which the literal's variable was assigned, if it was.
pub open spec fn lit_level(a: Seq<Option<Record>>, lit: Lit) -> Option<u32> {
    match a[lit.var.index - 1] {
        Some(record) => Some(record.decision_level),
        None => None,
    }
}

/// The literal's variable is assigned the literal's value.
pub open spec fn lit_satisfied(a: Seq<Option<Record>>, lit: Lit) -> bool {
    lit_value(a, lit) == Some(true)
}

/// The literal's variable is assigned the other value.
pub open spec fn lit_falsified(a: Seq<Option<Record>>, lit: Lit) -> bool {
    lit_value(a, lit) == Some(false)
}

/// The literal's variable is not assigned.
pub open spec fn lit_unassigned(a: Seq<Option<Record>>, lit: Lit) -> bool {
    a[lit.var.index - 1] is None
}

/// No variable is assigned.
pub open spec fn unassigned_all(num_vars: nat) -> Seq<Option<Record>> {
    Seq::new(num_vars, |i: int| None::<Record>)
}

/// Every variable is assigned.
pub open spec fn is_total(a: Seq<Option<Record>>) -> bool {
    forall|i: int| 0 <= i < a.len() ==> (#[trigger] a[i]) is Some
}

/// The record that completes an assignment: false, at the highest level.
pub open spec fn filler() -> Record {
    Record { value: Val::False, decision_level: u32::MAX }
}

/// The assignment with every unassigned variable set to the filler record.
pub open spec fn filled(a: Seq<Option<Record>>) -> Seq<Option<Record>> {
    Seq::new(
        a.len(),
        |i: int|
            match a[i] {
                Some(record) => Some(record),
                None => Some(filler()),
            },
    )
}

/// The model that a total assignment stands for.
pub open spec fn model_of(a: Seq<Option<Record>>) -> Seq<bool> {
    Seq::new(a.len(), |i: int| a[i] is Some && a[i]->0.value == Val::True)
}

/// Whether the model gives every assigned variable its assigned value.
pub open spec fn agrees(model: Seq<bool>, a: Seq<Option<Record>>) -> bool {
    forall|i: int|
        0 <= i < a.len() && (#[trigger] a[i]) is Some ==> model[i] == a[i]->0.value.as_bool()
}

/// The sequences of `num_vars` Booleans, in lexicographic order with false
/// before true: the first position changes last.
pub open spec fn all_rows(num_vars: nat) -> Seq<Seq<bool>>
    decreases num_vars,
{
    if num_vars == 0 {
        seq![Seq::<bool>::empty()]
    } else {
        let shorter = all_rows((num_vars - 1) as nat);
        with_head(false, shorter) + with_head(true, shorter)
    }
}

/// Each row with `head` put in front.
pub open spec fn with_head(head: bool, rows: Seq<Seq<bool>>) -> Seq<Seq<bool>> {
    Seq::new(rows.len(), |i: int| seq![head] + rows[i])
}

/// The total assignment that gives each variable the value of its position
/// in the row, at level 0.
pub open spec fn assignment_of_row(row: Seq<bool>) -> Seq<Option<Record>> {
    Seq::new(
        row.len(),
        |i: int|
            Some(
                Record {
                    value: if row[i] {
                        Val::True
                    } else {
                        Val::False
                    },
                    decision_level: 0,
                },
            ),
    )
}

impl View for Assignment {
    type V = Seq<Option<Record>>;

    closed spec fn view(&self) -> Seq<Option<Record>> {
        self.assignment@
    }
}

impl Clone for Assignment {
    fn clone(&self) -> (r: Self)
        ensures
            r@ == self@,
    {
        let mut copy: Vec<Option<Record>> = Vec::new();
        let mut i: usize = 0;
        while i < self.assignment.len()
            invariant
                i <= self.assignment.len(),
                copy@ == self.assignment@.take(i as int),
            decreases self.assignment.len() - i,
        {
            copy.push(self.assignment[i]);
            assert(self.assignment@.take(i as int + 1) =~= self.assignment@.take(i as int).push(
                self.assignment@[i as int],
            ));
            i += 1;
        }
        assert(self.assignment@.take(i as int) =~= self.assignment@);
        Assignment { assignment: copy }
    }
}

impl Assignment {
    /// The assignment over `num_vars` variables in which none is assigned.
    pub fn empty(num_vars: usize) -> (r: Self)
        ensures
            r@ == unassigned_all(num_vars as nat),
    {
        let mut assignment: Vec<Option<Record>> = Vec::new();
        let mut i: usize = 0;
        while i < num_vars
            invariant
                i <= num_vars,
                assignment@ == unassigned_all(i as nat),
            decreases num_vars - i,
        {
            assignment.push(None);
            assert(assignment@ =~= unassigned_all((i + 1) as nat));
            i += 1;
        }
        Assignment { assignment }
    }

    /// Whether the literal is satisfied, falsified or unassigned.
    pub fn get(&self, lit: &Lit) -> (r: Option<bool>)
        requires
            lit.in_range(self@.len()),
        ensures
            r == lit_value(self@, *lit),
    {
        match self.assignment[lit.var.index - 1] {
            Some(record) => Some(record.value == lit.value),
            None => None,
        }
    }

    /// The level at which the literal's variable was assigned.
    pub fn get_decision_level(&self, lit: &Lit) -> (r: Option<u32>)
        requires
            lit.in_range(self@.len()),
        ensures
            r == lit_level(self@, *lit),
    {
        match self.assignment[lit.var.index - 1] {
            Some(record) => Some(record.decision_level),
            None => None,
        }
    }

    /// Assigns a variable that is not assigned yet.
    pub fn set(&mut self, var: Var, value: Val, decision_level: u32)
        requires
            1 <= var.index <= old(self)@.len(),
            old(self)@[var.index - 1] is None,
        ensures
            final(self)@ == old(self)@.update(
                var.index - 1,
                Some(Record { value, decision_level }),
            ),
    {
        self.assignment[var.index - 1] = Some(Record { value, decision_level });
    }

    /// The unassigned variable with the lowest index.
    pub fn get_unassigned_var(&self) -> (r: Option<Var>)
        ensures
            match r {
                Some(var) => {
                    &&& 1 <= var.index <= self@.len()
                    &&& self@[var.index - 1] is None
                    &&& forall|i: int| 0 <= i < var.index - 1 ==> (#[trigger] self@[i]) is Some
                },
                None => is_total(self@),
            },
    {
        let mut i: usize = 0;
        while i < self.assignment.len()
            invariant
                i <= self.assignment.len(),
                forall|j: int| 0 <= j < i ==> (#[trigger] self.assignment@[j]) is Some,
            decreases self.assignment.len() - i,
        {
            if self.assignment[i].is_none() {
                return Some(Var { index: i + 1 });
            }
            i += 1;
        }
        None
    }

    /// The same assignment with every unassigned variable set to false.
    pub fn fill_unassigned(self) -> (r: Self)
        ensures
            r@ == filled(self@),
    {
        let mut assignment: Vec<Option<Record>> = Vec::new();
        let mut i: usize = 0;
        while i < self.assignment.len()
            invariant
                i <= self.assignment.len(),
                assignment@ == filled(self.assignment@).take(i as int),
            decreases self.assignment.len() - i,
        {
            let entry = match self.assignment[i] {
                Some(record) => Some(record),
                None => Some(Record { value: Val::False, decision_level: u32::MAX }),
            };
            assignment.push(entry);
            assert(filled(self.assignment@).take(i as int + 1) =~= filled(self.assignment@).take(
                i as int,
            ).push(entry));
            i += 1;
        }
        assert(filled(self.assignment@).take(i as int) =~= filled(self.assignment@));
        Assignment { assignment }
    }

    /// The number of variables, assigned or not.
    pub fn num_vars(&self) -> (r: usize)
        ensures
            r == self@.len(),
    {
        self.assignment.len()
    }

    /// Every total assignment over `num_vars` variables, in lexicographic
    /// order with false before true, each variable assigned at level 0.
    pub fn every_possible(num_vars: usize) -> (r: AllAssignments)
        ensures
            r.remaining() == all_rows(num_vars as nat),
    {
        AllAssignments { product: product_of_pairs(num_vars) }
    }
}

impl AllAssignments {
    /// The rows that are still to come.
    pub closed spec fn remaining(&self) -> Seq<Seq<bool>> {
        product_remaining(self.product)
    }

    /// The next total assignment, or `None` after the last.
    pub fn next(&mut self) -> (r: Option<Assignment>)
        ensures
            match r {
                Some(a) => {
                    &&& old(self).remaining().len() > 0
                    &&& a@ == assignment_of_row(old(self).remaining()[0])
                    &&& final(self).remaining() == old(self).remaining().drop_first()
                },
                None => old(self).remaining().len() == 0 && final(self).remaining().len() == 0,
            },
    {
        match product_next(&mut self.product) {
            Some(row) => {
                let mut assignment: Vec<Option<Record>> = Vec::new();
                let mut i: usize = 0;
                while i < row.len()
                    invariant
                        i <= row.len(),
                        assignment@ == assignment_of_row(row@).take(i as int),
                    decreases row.len() - i,
                {
                    let value = if row[i] {
                        Val::True
                    } else {
                        Val::False
                    };
                    assignment.push(Some(Record { value, decision_level: 0 }));
                    assert(assignment_of_row(row@).take(i as int + 1) =~= assignment_of_row(
                        row@,
                    ).take(i as int).push(Some(Record { value, decision_level: 0 })));
                    i += 1;
                }
                assert(assignment_of_row(row@).take(i as int) =~= assignment_of_row(row@));
                Some(Assignment { assignment })
            },
            None => None,
        }
    }
}

/// What the product iterator has yet to yield, in order.
pub uninterp spec fn product_remaining(
    product: itertools::structs::MultiProduct<std::vec::IntoIter<bool>>,
) -> Seq<Seq<bool>>;

/// The iterator that `Itertools::multi_cartesian_product` returns. Nothing
/// of its inside is known here.
#[verifier::external_type_specification]
#[verifier::external_body]
#[verifier::reject_recursive_types(I)]
pub struct ExMultiProduct<I: Iterator + Clone>(itertools::structs::MultiProduct<I>) where
    I::Item: Clone;

/// Calls `Itertools::multi_cartesian_product` on `num_vars` copies of the
/// pair false, true. The product yields every combination once, as a
/// vector with one item per copy, the last copy's item changing fastest; of
/// no copies it yields the empty vector once.
#[verifier::external_body]
fn product_of_pairs(num_vars: usize) -> (r: itertools::structs::MultiProduct<
    std::vec::IntoIter<bool>,
>)
    ensures
        product_remaining(r) == all_rows(num_vars as nat),
{
    itertools::Itertools::multi_cartesian_product(std::iter::repeat_n(vec![false, true], num_vars))
}

/// Calls `Iterator::next` on the product: it yields the first of the
/// remaining combinations, or nothing when none remains.
#[verifier::external_body]
fn product_next(
    product: &mut itertools::structs::MultiProduct<std::vec::IntoIter<bool>>,
) -> (r: Option<Vec<bool>>)
    ensures
        match r {
            Some(row) => {
                &&& product_remaining(*old(product)).len() > 0
                &&& row@ == product_remaining(*old(product))[0]
                &&& product_remaining(*final(product)) == product_remaining(
                    *old(product),
                ).drop_first()
            },
            None => {
                &&& product_remaining(*old(product)).len() == 0
                &&& product_remaining(*final(product)).len() == 0
            },
        },
{
    product.next()
}

} // verus!
