//! The measure by which the search is seen to end: every step raises the
//! progress of the trail, and the progress is bounded.

use crate::formula::Lit;
use crate::solver_state::StateView;
use crate::trail::{
    decisions_in, kept_len, lemma_kept_len_bound, lemma_kept_levels, lemma_trail_len, level_at,
    ReasonView, TrailEntry,
};
use vstd::prelude::*;

verus! {

/// `base` to the power `height`.
pub open spec fn weight(base: nat, height: nat) -> nat
    decreases height,
{
    if height == 0 {
        1
    } else {
        base * weight(base, (height - 1) as nat)
    }
}

/// What one trail entry at `level` counts for: the lower the level, the more.
pub open spec fn level_weight(num_vars: nat, level: nat) -> nat {
    if level <= num_vars {
        weight(num_vars + 1, (num_vars - level) as nat)
    } else {
        1
    }
}

/// The measure of how far the search has come: the sum of the weights of the
/// trail's entries. Every step of the search raises it.
pub open spec fn progress(trail: Seq<TrailEntry>, num_vars: nat) -> nat
    decreases trail.len(),
{
    if trail.len() == 0 {
        0
    } else {
        progress(trail.drop_last(), num_vars) + level_weight(
            num_vars,
            decisions_in(trail),
        )
    }
}

/// A bound that the progress of a well-formed trail stays under.
pub open spec fn progress_limit(num_vars: nat) -> nat {
    weight(num_vars + 1, num_vars + 1)
}

/// A power of a positive base is positive.
pub proof fn lemma_weight_positive(base: nat, height: nat)
    requires
        base >= 1,
    ensures
        weight(base, height) >= 1,
    decreases height,
{
    if height > 0 {
        lemma_weight_positive(base, (height - 1) as nat);
        assert(base * weight(base, (height - 1) as nat) >= 1) by (nonlinear_arith)
            requires
                base >= 1,
                weight(base, (height - 1) as nat) >= 1,
        ;
    }
}

/// Powers of a positive base do not fall as the exponent grows.
pub proof fn lemma_weight_monotone(base: nat, lower: nat, higher: nat)
    requires
        base >= 1,
        lower <= higher,
    ensures
        weight(base, lower) <= weight(base, higher),
    decreases higher,
{
    if lower < higher {
        lemma_weight_monotone(base, lower, (higher - 1) as nat);
        lemma_weight_positive(base, (higher - 1) as nat);
        assert(base * weight(base, (higher - 1) as nat) >= weight(base, (higher - 1) as nat))
            by (nonlinear_arith)
            requires
                base >= 1,
                weight(base, (higher - 1) as nat) >= 1,
        ;
    }
}

/// No entry weighs more than one at level 0, and none less than 1.
pub proof fn lemma_level_weight_bounds(num_vars: nat, level: nat)
    ensures
        1 <= level_weight(num_vars, level) <= weight(num_vars + 1, num_vars),
{
    lemma_weight_positive(num_vars + 1, num_vars);
    if level <= num_vars {
        lemma_weight_positive(num_vars + 1, (num_vars - level) as nat);
        lemma_weight_monotone(num_vars + 1, (num_vars - level) as nat, num_vars);
    }
}

/// Pushing an entry raises the progress.
pub proof fn lemma_progress_push(trail: Seq<TrailEntry>, num_vars: nat, entry: TrailEntry)
    ensures
        progress(trail.push(entry), num_vars) == progress(trail, num_vars) + level_weight(
            num_vars,
            decisions_in(trail.push(entry)),
        ),
        progress(trail.push(entry), num_vars) > progress(trail, num_vars),
{
    assert(trail.push(entry).drop_last() =~= trail);
    lemma_level_weight_bounds(num_vars, decisions_in(trail.push(entry)));
}

/// A longer trail has made at least the progress of its prefix.
pub proof fn lemma_progress_extends(trail: Seq<TrailEntry>, num_vars: nat, k: int)
    requires
        0 <= k <= trail.len(),
    ensures
        progress(trail.take(k), num_vars) <= progress(trail, num_vars),
    decreases trail.len(),
{
    if k == trail.len() {
        assert(trail.take(k) =~= trail);
    } else {
        lemma_progress_extends(trail.drop_last(), num_vars, k);
        assert(trail.drop_last().take(k) =~= trail.take(k));
    }
}

/// The entries from `cut` on, all at levels from `floor` up, add to the
/// progress at most their number times the weight of `floor`.
pub proof fn lemma_progress_tail(trail: Seq<TrailEntry>, num_vars: nat, cut: int, floor: nat)
    requires
        0 <= cut <= trail.len(),
        floor <= num_vars,
        forall|i: int| cut <= i < trail.len() ==> #[trigger] level_at(trail, i) >= floor,
    ensures
        progress(trail, num_vars) <= progress(trail.take(cut), num_vars) + (trail.len() - cut)
            * level_weight(num_vars, floor),
    decreases trail.len() - cut,
{
    let w = level_weight(num_vars, floor);
    if cut == trail.len() {
        assert(trail.take(cut) =~= trail);
        assert((trail.len() - cut) * w == 0) by (nonlinear_arith)
            requires
                trail.len() - cut == 0,
        ;
    } else {
        let shorter = trail.drop_last();
        assert forall|i: int| cut <= i < shorter.len() implies #[trigger] level_at(shorter, i)
            >= floor by {
            assert(shorter.take(i + 1) =~= trail.take(i + 1));
            assert(level_at(trail, i) >= floor);
        }
        lemma_progress_tail(shorter, num_vars, cut, floor);
        assert(shorter.take(cut) =~= trail.take(cut));
        let last_level = decisions_in(trail);
        assert(trail.take(trail.len() as int) =~= trail);
        assert(level_at(trail, trail.len() - 1) >= floor);
        assert(level_weight(num_vars, last_level) <= w) by {
            lemma_level_weight_bounds(num_vars, floor);
            if last_level <= num_vars {
                lemma_weight_monotone(
                    num_vars + 1,
                    (num_vars - last_level) as nat,
                    (num_vars - floor) as nat,
                );
            }
        }
        assert((trail.len() - cut) * w == (shorter.len() - cut) * w + w) by (nonlinear_arith)
            requires
                trail.len() == shorter.len() + 1,
        ;
    }
}

/// The progress of a well-formed trail is under the limit.
pub proof fn lemma_progress_below_limit(trail: Seq<TrailEntry>, num_vars: nat)
    requires
        trail.len() <= num_vars,
    ensures
        progress(trail, num_vars) < progress_limit(num_vars),
{
    let top = weight(num_vars + 1, num_vars);
    assert forall|i: int| 0 <= i < trail.len() implies #[trigger] level_at(trail, i) >= 0 by {}
    lemma_progress_tail(trail, num_vars, 0, 0);
    assert(trail.take(0) =~= Seq::<TrailEntry>::empty());
    assert(progress(trail.take(0), num_vars) == 0);
    lemma_weight_positive(num_vars + 1, num_vars);
    assert(level_weight(num_vars, 0) == top);
    assert(trail.len() * top < (num_vars + 1) * top) by (nonlinear_arith)
        requires
            trail.len() <= num_vars,
            top >= 1,
    ;
}

/// Jumping back to a lower level and then inferring one literal there
/// raises the progress: the inferred entry outweighs all that were undone.
pub proof fn lemma_conflict_progress(s: StateView, level: nat, lit: Lit, clause: Seq<Lit>)
    requires
        s.wf(),
        level < s.decision_level,
        s.backjumped(level).wf(),
    ensures
        progress(s.backjumped(level).inferred(lit, clause).trail, s.num_vars) > progress(
            s.trail,
            s.num_vars,
        ),
{
    let n = s.num_vars;
    let kept = kept_len(s.trail, level) as int;
    let back = s.backjumped(level);
    let after = back.inferred(lit, clause);
    lemma_kept_len_bound(s.trail, level);
    lemma_trail_len(s.trail, n);
    assert forall|i: int| kept <= i < s.trail.len() implies #[trigger] level_at(s.trail, i)
        >= level + 1 by {
        lemma_kept_levels(s.trail, level, i);
    }
    lemma_progress_tail(s.trail, n, kept, level + 1);
    let entry = TrailEntry { lit, reason: ReasonView::UnitProp(clause) };
    lemma_progress_push(back.trail, n, entry);
    assert(back.trail.push(entry).drop_last() =~= back.trail);
    assert(decisions_in(after.trail) == level);
    let low = level_weight(n, level + 1);
    assert(level_weight(n, level) == (n + 1) * low);
    lemma_level_weight_bounds(n, level + 1);
    assert((s.trail.len() - kept) * low < (n + 1) * low) by (nonlinear_arith)
        requires
            0 <= s.trail.len() - kept <= n,
            low >= 1,
    ;
}

} // verus!
