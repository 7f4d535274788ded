//! The trail as a sequence of entries: the levels of its entries, the
//! assignment that it makes, and what a backjump keeps of it.

use crate::assignment::{lit_unassigned, unassigned_all, Record};
use crate::formula::Lit;
use vstd::prelude::*;

verus! {

/// The mathematical content of a [`TrailReason`].
pub enum ReasonView {
    Decision(Seq<Option<Record>>),
    UnitProp(Seq<Lit>),
}

/// The mathematical content of a [`TrailElement`].
pub struct TrailEntry {
    pub lit: Lit,
    pub reason: ReasonView,
}

/// The number of decisions on a trail. The level of entry `i` is the number
/// of decisions among the entries up to and including `i`.
pub open spec fn decisions_in(trail: Seq<TrailEntry>) -> nat
    decreases trail.len(),
{
    if trail.len() == 0 {
        0
    } else {
        decisions_in(trail.drop_last()) + if trail.last().reason is Decision {
            1nat
        } else {
            0nat
        }
    }
}

/// The level of entry `i` of the trail.
pub open spec fn level_at(trail: Seq<TrailEntry>, i: int) -> nat {
    decisions_in(trail.take(i + 1))
}

/// The assignment that results from making the trail's assignments in order,
/// each at the level of its entry.
pub open spec fn replay(trail: Seq<TrailEntry>, num_vars: nat) -> Seq<Option<Record>>
    decreases trail.len(),
{
    if trail.len() == 0 {
        unassigned_all(num_vars)
    } else {
        let before = replay(trail.drop_last(), num_vars);
        if trail.last().lit.in_range(num_vars) {
            before.update(
                trail.last().lit.var.index - 1,
                Some(
                    Record {
                        value: trail.last().lit.value,
                        decision_level: decisions_in(trail) as u32,
                    },
                ),
            )
        } else {
            before
        }
    }
}

/// Entry `i` assigns a variable of the formula that no earlier entry
/// assigned, and a decision's snapshot is the assignment made by the
/// entries before it.
pub open spec fn entry_wf(trail: Seq<TrailEntry>, num_vars: nat, i: int) -> bool {
    &&& trail[i].lit.in_range(num_vars)
    &&& lit_unassigned(replay(trail.take(i), num_vars), trail[i].lit)
    &&& trail[i].reason matches ReasonView::Decision(snapshot) ==> snapshot == replay(
        trail.take(i),
        num_vars,
    )
}

/// A trail has no more decisions than entries.
pub proof fn lemma_decisions_bound(trail: Seq<TrailEntry>)
    ensures
        decisions_in(trail) <= trail.len(),
    decreases trail.len(),
{
    if trail.len() > 0 {
        lemma_decisions_bound(trail.drop_last());
    }
}

/// The number of decisions does not shrink as the trail grows.
pub proof fn lemma_decisions_monotone(trail: Seq<TrailEntry>, i: int, j: int)
    requires
        0 <= i <= j <= trail.len(),
    ensures
        decisions_in(trail.take(i)) <= decisions_in(trail.take(j)),
    decreases j - i,
{
    if i < j {
        lemma_decisions_monotone(trail, i, j - 1);
        assert(trail.take(j).drop_last() =~= trail.take(j - 1));
    }
}

/// The assignment that a trail makes has one position for each variable.
pub proof fn lemma_replay_len(trail: Seq<TrailEntry>, num_vars: nat)
    ensures
        replay(trail, num_vars).len() == num_vars,
    decreases trail.len(),
{
    if trail.len() > 0 {
        lemma_replay_len(trail.drop_last(), num_vars);
    }
}

/// The number of assigned variables.
pub open spec fn assigned_count(a: Seq<Option<Record>>) -> nat
    decreases a.len(),
{
    if a.len() == 0 {
        0
    } else {
        assigned_count(a.drop_last()) + if a.last() is Some {
            1nat
        } else {
            0nat
        }
    }
}

/// No more variables are assigned than there are, and fewer if one is unassigned.
pub proof fn lemma_assigned_count_bound(a: Seq<Option<Record>>)
    ensures
        assigned_count(a) <= a.len(),
        (exists|i: int| 0 <= i < a.len() && a[i] is None) ==> assigned_count(a) < a.len(),
    decreases a.len(),
{
    if a.len() > 0 {
        lemma_assigned_count_bound(a.drop_last());
        if exists|i: int| 0 <= i < a.len() && a[i] is None {
            let i = choose|i: int| 0 <= i < a.len() && a[i] is None;
            if i < a.len() - 1 {
                assert(a.drop_last()[i] is None);
            }
        }
    }
}

/// Assigning an unassigned variable raises the count by one.
pub proof fn lemma_assigned_count_update(a: Seq<Option<Record>>, i: int, record: Record)
    requires
        0 <= i < a.len(),
        a[i] is None,
    ensures
        assigned_count(a.update(i, Some(record))) == assigned_count(a) + 1,
    decreases a.len(),
{
    let b = a.update(i, Some(record));
    if i == a.len() - 1 {
        assert(b.drop_last() =~= a.drop_last());
    } else {
        lemma_assigned_count_update(a.drop_last(), i, record);
        assert(b.drop_last() =~= a.drop_last().update(i, Some(record)));
    }
}

/// With nothing assigned the count is 0.
pub proof fn lemma_assigned_count_none(num_vars: nat)
    ensures
        assigned_count(unassigned_all(num_vars)) == 0,
    decreases num_vars,
{
    if num_vars > 0 {
        lemma_assigned_count_none((num_vars - 1) as nat);
        assert(unassigned_all(num_vars).drop_last() =~= unassigned_all((num_vars - 1) as nat));
    }
}

/// A well-formed trail assigns as many variables as it has entries, so it is
/// never longer than the number of variables.
pub proof fn lemma_trail_len(trail: Seq<TrailEntry>, num_vars: nat)
    requires
        forall|i: int| 0 <= i < trail.len() ==> entry_wf(trail, num_vars, i),
    ensures
        assigned_count(replay(trail, num_vars)) == trail.len(),
        trail.len() <= num_vars,
        decisions_in(trail) <= num_vars,
    decreases trail.len(),
{
    lemma_replay_len(trail, num_vars);
    if trail.len() == 0 {
        lemma_assigned_count_none(num_vars);
    } else {
        let prefix = trail.drop_last();
        assert forall|i: int| 0 <= i < prefix.len() implies entry_wf(prefix, num_vars, i) by {
            assert(entry_wf(trail, num_vars, i));
            assert(prefix.take(i) =~= trail.take(i));
        }
        lemma_trail_len(prefix, num_vars);
        assert(entry_wf(trail, num_vars, trail.len() - 1));
        assert(trail.take(trail.len() - 1) =~= prefix);
        lemma_replay_len(prefix, num_vars);
        lemma_assigned_count_update(
            replay(prefix, num_vars),
            trail.last().lit.var.index - 1,
            Record { value: trail.last().lit.value, decision_level: decisions_in(trail) as u32 },
        );
    }
    lemma_assigned_count_bound(replay(trail, num_vars));
    lemma_decisions_bound(trail);
}

/// A prefix of a well-formed trail is well formed.
pub proof fn lemma_prefix_entries(trail: Seq<TrailEntry>, num_vars: nat, k: int)
    requires
        forall|i: int| 0 <= i < trail.len() ==> entry_wf(trail, num_vars, i),
        0 <= k <= trail.len(),
    ensures
        forall|i: int| 0 <= i < k ==> entry_wf(trail.take(k), num_vars, i),
{
    assert forall|i: int| 0 <= i < k implies entry_wf(trail.take(k), num_vars, i) by {
        assert(entry_wf(trail, num_vars, i));
        assert(trail.take(k).take(i) =~= trail.take(i));
    }
}

/// Entry `i` of a well-formed trail is recorded in the assignment that the
/// trail makes, with its value and its level.
pub proof fn lemma_trail_recorded(trail: Seq<TrailEntry>, num_vars: nat, i: int)
    requires
        forall|j: int| 0 <= j < trail.len() ==> entry_wf(trail, num_vars, j),
        0 <= i < trail.len(),
    ensures
        replay(trail, num_vars)[trail[i].lit.var.index - 1] == Some(
            Record { value: trail[i].lit.value, decision_level: level_at(trail, i) as u32 },
        ),
    decreases trail.len(),
{
    let last = trail.len() - 1;
    let prefix = trail.drop_last();
    lemma_replay_len(prefix, num_vars);
    assert(entry_wf(trail, num_vars, last));
    assert(entry_wf(trail, num_vars, i));
    assert(trail.take(last) =~= prefix);
    if i == last {
        assert(trail.take(i + 1) =~= trail);
    } else {
        lemma_prefix_entries(trail, num_vars, last);
        lemma_trail_recorded(prefix, num_vars, i);
        assert(prefix.take(i + 1) =~= trail.take(i + 1));
    }
}

/// An assigned variable was assigned by some entry of the trail.
pub proof fn lemma_assigned_on_trail(trail: Seq<TrailEntry>, num_vars: nat, v: int) -> (i: int)
    requires
        0 <= v < num_vars,
        replay(trail, num_vars)[v] is Some,
    ensures
        0 <= i < trail.len(),
        trail[i].lit.var.index - 1 == v,
    decreases trail.len(),
{
    if trail.len() == 0 {
        0
    } else {
        let last = trail.len() - 1;
        lemma_replay_len(trail.drop_last(), num_vars);
        if trail[last].lit.var.index - 1 == v {
            last
        } else {
            lemma_assigned_on_trail(trail.drop_last(), num_vars, v)
        }
    }
}

/// The assignment made by a longer trail extends the one made by a prefix.
pub proof fn lemma_replay_extends(trail: Seq<TrailEntry>, num_vars: nat, k: int, v: int)
    requires
        forall|j: int| 0 <= j < trail.len() ==> entry_wf(trail, num_vars, j),
        0 <= k <= trail.len(),
        0 <= v < num_vars,
        replay(trail.take(k), num_vars)[v] is Some,
    ensures
        replay(trail, num_vars)[v] == replay(trail.take(k), num_vars)[v],
    decreases trail.len() - k,
{
    if k < trail.len() {
        lemma_replay_len(trail.take(k), num_vars);
        assert(entry_wf(trail, num_vars, k));
        assert(trail.take(k + 1).drop_last() =~= trail.take(k));
        lemma_replay_extends(trail, num_vars, k + 1, v);
    } else {
        assert(trail.take(k) =~= trail);
    }
}

/// The length of the longest prefix of the trail with at most `level` decisions.
pub open spec fn kept_len(trail: Seq<TrailEntry>, level: nat) -> nat
    decreases trail.len(),
{
    if trail.len() == 0 {
        0
    } else if decisions_in(trail) <= level {
        trail.len()
    } else {
        kept_len(trail.drop_last(), level)
    }
}

/// A backjump keeps no more entries than there are.
pub proof fn lemma_kept_len_bound(trail: Seq<TrailEntry>, level: nat)
    ensures
        kept_len(trail, level) <= trail.len(),
    decreases trail.len(),
{
    if trail.len() > 0 {
        lemma_kept_len_bound(trail.drop_last(), level);
    }
}

/// The kept prefix ends just before the decision that raises the level above `level`.
pub proof fn lemma_kept_len_at_decision(trail: Seq<TrailEntry>, level: nat, cut: int)
    requires
        0 <= cut < trail.len(),
        trail[cut].reason is Decision,
        decisions_in(trail.take(cut)) == level,
    ensures
        kept_len(trail, level) == cut,
    decreases trail.len(),
{
    assert(trail.take(cut + 1).drop_last() =~= trail.take(cut));
    lemma_decisions_monotone(trail, cut + 1, trail.len() as int);
    assert(trail.take(trail.len() as int) =~= trail);
    if trail.len() == cut + 1 {
        assert(trail.drop_last() =~= trail.take(cut));
        assert(trail.take(cut + 1) =~= trail);
        assert(kept_len(trail.take(cut), level) == cut);
    } else {
        assert(trail.drop_last().take(cut) =~= trail.take(cut));
        lemma_kept_len_at_decision(trail.drop_last(), level, cut);
    }
}

/// The entries that a backjump keeps are those at levels up to `level`.
pub proof fn lemma_kept_levels(trail: Seq<TrailEntry>, level: nat, p: int)
    requires
        0 <= p < trail.len(),
    ensures
        p < kept_len(trail, level) <==> level_at(trail, p) <= level,
    decreases trail.len(),
{
    lemma_kept_len_bound(trail, level);
    if decisions_in(trail) <= level {
        lemma_decisions_monotone(trail, p + 1, trail.len() as int);
        assert(trail.take(trail.len() as int) =~= trail);
    } else {
        if p < trail.len() - 1 {
            lemma_kept_levels(trail.drop_last(), level, p);
            assert(trail.drop_last().take(p + 1) =~= trail.take(p + 1));
        } else {
            lemma_kept_len_bound(trail.drop_last(), level);
            assert(trail.take(p + 1) =~= trail);
        }
    }
}

} // verus!
