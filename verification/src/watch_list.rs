//! The two-watched-literal index: for each literal, the clauses that watch
//! it, and what becomes of them when the literal is falsified.

use crate::assignment::{lit_falsified, lit_satisfied, lit_unassigned, Assignment, Record};
use crate::formula::{clause_in_range, clause_views, clauses_in_range, Clause, Lit, Val, Var};
use crate::inspection::clause_falsified;
use crate::solver_state::Status;
use vstd::prelude::*;

verus! {

/// A clause that watches a literal, with the other literal it watches.
#[derive(Clone, Copy, Debug, PartialEq, Eq, Structural)]
pub struct Watch {
    pub clause_idx: usize,
    pub blocking_lit: Lit,
}

/// For each literal the list of its watches, and the status that the last
/// update found.
#[derive(Debug, PartialEq)]
pub struct WatchList {
    watches: Vec<Vec<Watch>>,
    cached_status: Option<Status>,
}

/// The position of a literal's list: two for each variable, the positive
/// literal first.
pub open spec fn watch_index(lit: Lit) -> int {
    2 * (lit.var.index - 1) + if lit.value == Val::True {
        0int
    } else {
        1int
    }
}

/// The literal whose list is at a position.
pub open spec fn watched_lit(index: int) -> Lit {
    Lit {
        var: Var { index: (index / 2 + 1) as usize },
        value: if index % 2 == 0 {
            Val::True
        } else {
            Val::False
        },
    }
}

/// The watch names a clause that holds both the literal of the list it
/// stands in and its own blocking literal.
pub open spec fn watch_ok(watch: Watch, lit: Lit, num_vars: nat, clauses: Seq<Seq<Lit>>) -> bool {
    &&& watch.clause_idx < clauses.len()
    &&& clauses[watch.clause_idx as int].contains(lit)
    &&& clauses[watch.clause_idx as int].contains(watch.blocking_lit)
    &&& watch.blocking_lit.in_range(num_vars)
}

/// The lists with one watch added at the end of list `index`.
pub open spec fn with_watch(lists: Seq<Seq<Watch>>, index: int, watch: Watch) -> Seq<Seq<Watch>> {
    lists.update(index, lists[index].push(watch))
}

/// The lists after a clause is added: a clause of one literal watches that
/// literal, with itself as the blocking literal; a longer one watches its
/// first two literals, each with the other as the blocking literal.
pub open spec fn with_clause(lists: Seq<Seq<Watch>>, clause_idx: usize, clause: Seq<Lit>) -> Seq<
    Seq<Watch>,
> {
    if clause.len() == 1 {
        with_watch(lists, watch_index(clause[0]), Watch { clause_idx, blocking_lit: clause[0] })
    } else {
        with_watch(
            with_watch(
                lists,
                watch_index(clause[0]),
                Watch { clause_idx, blocking_lit: clause[1] },
            ),
            watch_index(clause[1]),
            Watch { clause_idx, blocking_lit: clause[0] },
        )
    }
}

/// What a cached status claims holds: a falsified clause is a clause of the
/// list and falsified; of a unit clause the given literal is unassigned and
/// every other literal is falsified. No other status is ever cached.
pub open spec fn status_sound(
    status: Option<Status>,
    a: Seq<Option<Record>>,
    clauses: Seq<Seq<Lit>>,
) -> bool {
    match status {
        None => true,
        Some(Status::Falsified(clause)) => exists|i: int|
            0 <= i < clauses.len() && #[trigger] clauses[i] == clause@ && clause_falsified(
                a,
                clause@,
            ),
        Some(Status::UnassignedUnit(lit, clause)) => {
            &&& exists|i: int| 0 <= i < clauses.len() && #[trigger] clauses[i] == clause@
            &&& clause@.contains(lit)
            &&& lit_unassigned(a, lit)
            &&& forall|j: int|
                0 <= j < clause@.len() && (#[trigger] clause@[j]) != lit ==> lit_falsified(
                    a,
                    clause@[j],
                )
        },
        Some(_) => false,
    }
}

/// Every literal of the clause is one of the two given ones or falsified:
/// no other literal can take a watch over.
pub open spec fn no_replacement(
    a: Seq<Option<Record>>,
    clause: Seq<Lit>,
    neg_lit: Lit,
    blocking_lit: Lit,
) -> bool {
    forall|k: int|
        0 <= k < clause.len() ==> (#[trigger] clause[k]) == neg_lit || clause[k] == blocking_lit
            || lit_falsified(a, clause[k])
}

/// `lit` is the first literal of the clause that is neither of the two
/// given ones nor falsified: the one that takes the watch over.
pub open spec fn replaces(
    a: Seq<Option<Record>>,
    clause: Seq<Lit>,
    neg_lit: Lit,
    blocking_lit: Lit,
    lit: Lit,
) -> bool {
    exists|j: int|
        {
            &&& 0 <= j < clause.len()
            &&& #[trigger] clause[j] == lit
            &&& lit != neg_lit
            &&& lit != blocking_lit
            &&& !lit_falsified(a, lit)
            &&& no_replacement(a, clause.take(j), neg_lit, blocking_lit)
        }
}

/// The watch stays where it is: its blocking literal is satisfied, or no
/// literal of its clause can take the watch over.
pub open spec fn stays(
    a: Seq<Option<Record>>,
    clauses: Seq<Seq<Lit>>,
    neg_lit: Lit,
    watch: Watch,
) -> bool {
    lit_satisfied(a, watch.blocking_lit) || no_replacement(
        a,
        clauses[watch.clause_idx as int],
        neg_lit,
        watch.blocking_lit,
    )
}

/// Every watch that list `l` has gained is in the list of the literal that
/// takes it over.
pub open spec fn gained_in_place(
    a: Seq<Option<Record>>,
    clauses: Seq<Seq<Lit>>,
    neg_lit: Lit,
    l: int,
    before: Seq<Watch>,
    after: Seq<Watch>,
) -> bool {
    forall|k: int|
        before.len() <= k < after.len() ==> replaces(
            a,
            clauses[(#[trigger] after[k]).clause_idx as int],
            neg_lit,
            after[k].blocking_lit,
            watched_lit(l),
        )
}

/// Whether `watch` is one of the watches of the list.
pub open spec fn has_watch(list: Seq<Watch>, watch: Watch) -> bool {
    exists|j: int| 0 <= j < list.len() && #[trigger] list[j] == watch
}

/// `after` is `before` with watches added at the end, all taken from `source`.
pub open spec fn grown_from(before: Seq<Watch>, after: Seq<Watch>, source: Seq<Watch>) -> bool {
    &&& before.len() <= after.len()
    &&& forall|k: int| 0 <= k < before.len() ==> #[trigger] after[k] == before[k]
    &&& forall|k: int| before.len() <= k < after.len() ==> has_watch(source, #[trigger] after[k])
}

/// Whether `watch` is still among the watches of list `index`, or was added
/// at the end of another list.
pub open spec fn kept_or_moved(
    before: Seq<Seq<Watch>>,
    after: Seq<Seq<Watch>>,
    index: int,
    watch: Watch,
) -> bool {
    has_watch(after[index], watch) || exists|l: int, k: int|
        0 <= l < after.len() && l != index && before[l].len() <= k < after[l].len()
            && #[trigger] after[l][k] == watch
}

impl WatchList {
    /// The lists of watches, by position.
    pub closed spec fn watchers(&self) -> Seq<Seq<Watch>> {
        Seq::new(self.watches@.len(), |i: int| self.watches@[i]@)
    }

    /// The cached status.
    pub closed spec fn status(&self) -> Option<Status> {
        self.cached_status
    }

    /// There are two lists for each variable, and every watch is in order.
    pub open spec fn wf(&self, num_vars: nat, clauses: Seq<Seq<Lit>>) -> bool {
        &&& self.watchers().len() == 2 * num_vars
        &&& forall|l: int, i: int|
            0 <= l < self.watchers().len() && 0 <= i < self.watchers()[l].len() ==> watch_ok(
                #[trigger] self.watchers()[l][i],
                watched_lit(l),
                num_vars,
                clauses,
            )
    }

    /// Empty lists for `num_vars` variables, and no status.
    pub fn new(num_vars: usize) -> (r: Self)
        requires
            num_vars * 2 <= usize::MAX,
        ensures
            r.watchers() == Seq::new((2 * num_vars) as nat, |i: int| Seq::<Watch>::empty()),
            r.status() is None,
    {
        let mut watches: Vec<Vec<Watch>> = Vec::new();
        let mut i: usize = 0;
        while i < num_vars * 2
            invariant
                num_vars * 2 <= usize::MAX,
                i <= num_vars * 2,
                watches@.len() == i,
                forall|j: int| 0 <= j < i ==> (#[trigger] watches@[j])@ == Seq::<Watch>::empty(),
            decreases num_vars * 2 - i,
        {
            watches.push(Vec::new());
            i += 1;
        }
        let r = WatchList { watches, cached_status: None };
        assert(r.watchers() =~= Seq::new((2 * num_vars) as nat, |i: int| Seq::<Watch>::empty()));
        r
    }

    fn to_watch_index(lit: Lit) -> (r: usize)
        requires
            lit.var.index >= 1,
            watch_index(lit) <= usize::MAX,
        ensures
            r == watch_index(lit),
            watched_lit(r as int) == lit,
    {
        let var_idx = lit.var.index - 1;
        match lit.value {
            Val::True => var_idx * 2,
            Val::False => var_idx * 2 + 1,
        }
    }

    /// Lets a clause watch its first two literals, or its only one.
    pub fn add_clause(&mut self, clause_idx: usize, clause: &Clause)
        requires
            clause@.len() >= 1,
            forall|j: int|
                0 <= j < clause@.len() ==> 0 <= watch_index(#[trigger] clause@[j]) < old(
                    self,
                ).watchers().len() && clause@[j].var.index >= 1,
        ensures
            final(self).watchers() == with_clause(old(self).watchers(), clause_idx, clause@),
            final(self).status() == old(self).status(),
            forall|num_vars: nat, clauses: Seq<Seq<Lit>>|
                #![trigger final(self).wf(num_vars, clauses)]
                old(self).wf(num_vars, clauses) && clause_idx < clauses.len()
                    && clauses[clause_idx as int] == clause@ ==> final(self).wf(
                    num_vars,
                    clauses,
                ),
    {
        let ghost before = self.watchers();
        let lists = self.watches.len();
        assert(lists == before.len());
        let lit0 = clause.literals[0];
        assert(0 <= watch_index(clause@[0]) < before.len());
        if clause.literals.len() == 1 {
            let at = Self::to_watch_index(lit0);
            self.watches[at].push(Watch { clause_idx, blocking_lit: lit0 });
            assert(self.watchers() =~= with_clause(before, clause_idx, clause@));
        } else {
            let lit1 = clause.literals[1];
            assert(0 <= watch_index(clause@[1]) < before.len());
            let at0 = Self::to_watch_index(lit0);
            let at1 = Self::to_watch_index(lit1);
            self.watches[at0].push(Watch { clause_idx, blocking_lit: lit1 });
            self.watches[at1].push(Watch { clause_idx, blocking_lit: lit0 });
            assert(self.watchers() =~= with_clause(before, clause_idx, clause@));
        }
        proof {
            let after = self.watchers();
            assert forall|num_vars: nat, clauses: Seq<Seq<Lit>>|
                #![trigger self.wf(num_vars, clauses)]
                old(self).wf(num_vars, clauses) && clause_idx < clauses.len()
                    && clauses[clause_idx as int] == clause@ implies self.wf(num_vars, clauses) by {
                assert forall|l: int, i: int|
                    0 <= l < after.len() && 0 <= i < after[l].len() implies watch_ok(
                    #[trigger] after[l][i],
                    watched_lit(l),
                    num_vars,
                    clauses,
                ) by {
                    if i < before[l].len() {
                        assert(after[l][i] == before[l][i]);
                    } else {
                        assert(clause@[0] == lit0);
                        assert(clause@.contains(clause@[0]));
                        if clause@.len() > 1 {
                            assert(clause@.contains(clause@[1]));
                        }
                        assert(lit0.in_range(num_vars)) by {
                            assert(0 <= watch_index(clause@[0]) < 2 * num_vars);
                        }
                        if clause@.len() > 1 {
                            assert(clause@[1].in_range(num_vars)) by {
                                assert(0 <= watch_index(clause@[1]) < 2 * num_vars);
                            }
                        }
                    }
                }
            }
        }
    }

    /// The status that the last update found, if any.
    pub fn get_cached_status(&self) -> (r: Option<&Status>)
        ensures
            match self.status() {
                Some(status) => r == Some(&status),
                None => r is None,
            },
    {
        self.cached_status.as_ref()
    }

    /// Forgets the cached status.
    pub fn clear_status(&mut self)
        ensures
            final(self).status() is None,
            final(self).watchers() == old(self).watchers(),
    {
        self.cached_status = None;
    }

    /// Brings the lists up to date after `assigned_lit` was assigned, which
    /// falsifies its negation. Each clause that watches the negation is
    /// looked at in turn. One whose blocking literal is satisfied stays.
    /// Otherwise its first literal that is neither of the two watched ones
    /// nor falsified takes the watch over. Where there is none, the clause
    /// stays: if its blocking literal is falsified the clause is cached as
    /// falsified and the update ends; if it is unassigned and no status is
    /// cached yet, the clause is cached as unit.
    pub fn update_for_assignment(
        &mut self,
        assigned_lit: Lit,
        assignment: &Assignment,
        clauses: &[Clause],
    )
        requires
            old(self).wf(assignment@.len(), clause_views(clauses@)),
            clauses_in_range(clause_views(clauses@), assignment@.len()),
            assigned_lit.in_range(assignment@.len()),
            lit_satisfied(assignment@, assigned_lit),
        ensures
            final(self).wf(assignment@.len(), clause_views(clauses@)),
            status_sound(final(self).status(), assignment@, clause_views(clauses@)),
            final(self).status() is None ==> forall|k: int|
                0 <= k < final(self).watchers()[watch_index(assigned_lit.negated())].len()
                    ==> lit_satisfied(
                    assignment@,
                    (#[trigger] final(self).watchers()[watch_index(
                        assigned_lit.negated(),
                    )][k]).blocking_lit,
                ),
            forall|k: int|
                0 <= k < final(self).watchers()[watch_index(assigned_lit.negated())].len()
                    ==> has_watch(
                    old(self).watchers()[watch_index(assigned_lit.negated())],
                    #[trigger] final(self).watchers()[watch_index(assigned_lit.negated())][k],
                ),
            forall|l: int|
                0 <= l < final(self).watchers().len() && l != watch_index(
                    assigned_lit.negated(),
                ) ==> grown_from(
                    old(self).watchers()[l],
                    #[trigger] final(self).watchers()[l],
                    old(self).watchers()[watch_index(assigned_lit.negated())],
                ) && gained_in_place(
                    assignment@,
                    clause_views(clauses@),
                    assigned_lit.negated(),
                    l,
                    old(self).watchers()[l],
                    final(self).watchers()[l],
                ),
            !(final(self).status() matches Some(Status::Falsified(_))) ==> forall|k: int|
                0 <= k < final(self).watchers()[watch_index(assigned_lit.negated())].len()
                    ==> stays(
                    assignment@,
                    clause_views(clauses@),
                    assigned_lit.negated(),
                    #[trigger] final(self).watchers()[watch_index(assigned_lit.negated())][k],
                ),
            forall|j: int|
                0 <= j < old(self).watchers()[watch_index(assigned_lit.negated())].len()
                    ==> kept_or_moved(
                    old(self).watchers(),
                    final(self).watchers(),
                    watch_index(assigned_lit.negated()),
                    #[trigger] old(self).watchers()[watch_index(assigned_lit.negated())][j],
                ),
    {
        let ghost a = assignment@;
        let ghost cl = clause_views(clauses@);
        let ghost n = a.len();
        let ghost old_w = self.watchers();
        self.cached_status = None;
        let neg_lit = assigned_lit.not();
        let lists = self.watches.len();
        assert(lists == 2 * n);
        let neg = Self::to_watch_index(neg_lit);
        assert(lit_falsified(a, neg_lit));
        let mut i: usize = 0;
        proof {
            assert(self.watchers() =~= old_w);
            assert forall|j: int| 0 <= j < old_w[neg as int].len() implies kept_or_moved(
                old_w,
                self.watchers(),
                neg as int,
                #[trigger] old_w[neg as int][j],
            ) by {
                assert(self.watchers()[neg as int][j] == old_w[neg as int][j]);
            }
        }
        while i < self.watches[neg].len()
            invariant
                a == assignment@,
                cl == clause_views(clauses@),
                n == a.len(),
                clauses_in_range(cl, n),
                neg_lit == assigned_lit.negated(),
                neg_lit.in_range(n),
                lit_falsified(a, neg_lit),
                neg == watch_index(neg_lit),
                watched_lit(neg as int) == neg_lit,
                old_w == old(self).watchers(),
                old_w.len() == 2 * n,
                2 * n <= usize::MAX,
                self.watches@.len() == 2 * n,
                neg < 2 * n,
                i <= self.watches@[neg as int]@.len(),
                self.wf(n, cl),
                status_sound(self.cached_status, a, cl),
                !(self.cached_status matches Some(Status::Falsified(_))),
                self.cached_status is None ==> forall|k: int|
                    0 <= k < i ==> lit_satisfied(
                        a,
                        (#[trigger] self.watchers()[neg as int][k]).blocking_lit,
                    ),
                forall|k: int|
                    0 <= k < self.watchers()[neg as int].len() ==> has_watch(
                        old_w[neg as int],
                        #[trigger] self.watchers()[neg as int][k],
                    ),
                forall|j: int|
                    0 <= j < old_w[neg as int].len() ==> kept_or_moved(
                        old_w,
                        self.watchers(),
                        neg as int,
                        #[trigger] old_w[neg as int][j],
                    ),
                forall|l: int|
                    0 <= l < 2 * n && l != neg ==> grown_from(
                        old_w[l],
                        #[trigger] self.watchers()[l],
                        old_w[neg as int],
                    ) && gained_in_place(a, cl, neg_lit, l, old_w[l], self.watchers()[l]),
                forall|k: int|
                    0 <= k < i ==> stays(a, cl, neg_lit, #[trigger] self.watchers()[neg as int][k]),
            decreases self.watches@[neg as int]@.len() - i,
        {
            let ghost cur = self.watchers();
            let watch = self.watches[neg][i];
            assert(watch == cur[neg as int][i as int]);
            assert(watch_ok(watch, watched_lit(neg as int), n, cl));
            let blocked = assignment.get(&watch.blocking_lit);
            let clause = &clauses[watch.clause_idx];
            assert(clause@ == cl[watch.clause_idx as int]);
            assert(clause_in_range(cl[watch.clause_idx as int], n));
            match blocked {
                Some(true) => {
                    i += 1;
                },
                _ => {
                    match find_replacement(clause, neg_lit, watch.blocking_lit, assignment) {
                        Some(new_watch_lit) => {
                            proof {
                                let j = choose|j: int|
                                    0 <= j < clause@.len() && #[trigger] clause@[j]
                                        == new_watch_lit;
                                assert(clause@[j].in_range(n));
                                assert(clause@.contains(new_watch_lit));
                                assert(replaces(
                                    a,
                                    cl[watch.clause_idx as int],
                                    neg_lit,
                                    watch.blocking_lit,
                                    new_watch_lit,
                                ));
                            }
                            let removed = self.watches[neg].swap_remove(i);
                            let at = Self::to_watch_index(new_watch_lit);
                            assert(at != neg);
                            self.watches[at].push(
                                Watch {
                                    clause_idx: removed.clause_idx,
                                    blocking_lit: watch.blocking_lit,
                                },
                            );
                            proof {
                                let now = self.watchers();
                                assert(now[neg as int] =~= cur[neg as int].update(
                                    i as int,
                                    cur[neg as int].last(),
                                ).drop_last());
                                assert(now[at as int] =~= cur[at as int].push(watch));
                                assert forall|l: int, k: int|
                                    0 <= l < now.len() && 0 <= k < now[l].len() implies watch_ok(
                                    #[trigger] now[l][k],
                                    watched_lit(l),
                                    n,
                                    cl,
                                ) by {
                                    if l == neg {
                                        if k == i {
                                            assert(now[l][k] == cur[l][cur[l].len() - 1]);
                                        } else {
                                            assert(now[l][k] == cur[l][k]);
                                        }
                                    } else if l == at {
                                        if k < cur[l].len() {
                                            assert(now[l][k] == cur[l][k]);
                                        }
                                    } else {
                                        assert(now[l] == cur[l]);
                                        assert(now[l][k] == cur[l][k]);
                                    }
                                }
                                assert forall|k: int|
                                    0 <= k < now[neg as int].len() implies has_watch(
                                    old_w[neg as int],
                                    #[trigger] now[neg as int][k],
                                ) by {
                                    if k == i {
                                        let last = cur[neg as int].len() - 1;
                                        assert(now[neg as int][k] == cur[neg as int][last]);
                                    } else {
                                        assert(now[neg as int][k] == cur[neg as int][k]);
                                    }
                                }
                                assert forall|l: int| 0 <= l < 2 * n && l != neg implies grown_from(
                                    old_w[l],
                                    #[trigger] now[l],
                                    old_w[neg as int],
                                ) && gained_in_place(a, cl, neg_lit, l, old_w[l], now[l]) by {
                                    assert(grown_from(old_w[l], cur[l], old_w[neg as int]));
                                    assert(gained_in_place(a, cl, neg_lit, l, old_w[l], cur[l]));
                                    if l == at {
                                        assert forall|k: int|
                                            old_w[l].len() <= k < now[l].len() implies replaces(
                                            a,
                                            cl[(#[trigger] now[l][k]).clause_idx as int],
                                            neg_lit,
                                            now[l][k].blocking_lit,
                                            watched_lit(l),
                                        ) by {
                                            if k < cur[l].len() {
                                                assert(now[l][k] == cur[l][k]);
                                            }
                                        }
                                        let moved = cur[neg as int][i as int];
                                        assert(has_watch(old_w[neg as int], moved));
                                        assert forall|k: int|
                                            old_w[l].len() <= k < now[l].len() implies has_watch(
                                            old_w[neg as int],
                                            #[trigger] now[l][k],
                                        ) by {
                                            if k < cur[l].len() {
                                                assert(now[l][k] == cur[l][k]);
                                            }
                                        }
                                        assert forall|k: int|
                                            0 <= k < old_w[l].len() implies #[trigger] now[l][k]
                                            == old_w[l][k] by {
                                            assert(now[l][k] == cur[l][k]);
                                        }
                                    } else {
                                        assert(now[l] == cur[l]);
                                    }
                                }
                                if self.cached_status is None {
                                    assert forall|k: int| 0 <= k < i implies lit_satisfied(
                                        a,
                                        (#[trigger] now[neg as int][k]).blocking_lit,
                                    ) by {
                                        assert(now[neg as int][k] == cur[neg as int][k]);
                                    }
                                }
                                assert forall|k: int| 0 <= k < i implies stays(
                                    a,
                                    cl,
                                    neg_lit,
                                    #[trigger] now[neg as int][k],
                                ) by {
                                    assert(now[neg as int][k] == cur[neg as int][k]);
                                }
                                lemma_watch_moved(old_w, cur, now, neg as int, i as int, at as int);
                            }
                        },
                        None => {
                            proof {
                                assert forall|j: int|
                                    0 <= j < clause@.len() && (#[trigger] clause@[j])
                                        != watch.blocking_lit implies lit_falsified(
                                    a,
                                    clause@[j],
                                ) by {}
                                assert(stays(a, cl, neg_lit, watch));
                            }
                            match blocked {
                                Some(false) => {
                                    let falsified = clause.clone();
                                    assert(self.watchers() == cur);
                                    proof {
                                        assert forall|j: int|
                                            0 <= j < clause@.len() implies lit_falsified(
                                            a,
                                            #[trigger] clause@[j],
                                        ) by {}
                                        assert(cl[watch.clause_idx as int] == falsified@);
                                    }
                                    self.cached_status = Some(Status::Falsified(falsified));
                                    return ;
                                },
                                _ => {
                                    if self.cached_status.is_none() {
                                        let unit = clause.clone();
                                        proof {
                                            assert(cl[watch.clause_idx as int] == unit@);
                                        }
                                        self.cached_status = Some(
                                            Status::UnassignedUnit(watch.blocking_lit, unit),
                                        );
                                    }
                                },
                            }
                            i += 1;
                        },
                    }
                },
            }
        }
    }
}

/// The first literal of the clause that is neither of the two given ones
/// nor falsified.
fn find_replacement(
    clause: &Clause,
    neg_lit: Lit,
    blocking_lit: Lit,
    assignment: &Assignment,
) -> (r: Option<Lit>)
    requires
        clause_in_range(clause@, assignment@.len()),
    ensures
        match r {
            Some(lit) => replaces(assignment@, clause@, neg_lit, blocking_lit, lit),
            None => no_replacement(assignment@, clause@, neg_lit, blocking_lit),
        },
{
    let mut j: usize = 0;
    while j < clause.literals.len()
        invariant
            j <= clause.literals.len(),
            clause_in_range(clause@, assignment@.len()),
            forall|k: int|
                0 <= k < j ==> (#[trigger] clause@[k]) == neg_lit || clause@[k] == blocking_lit
                    || lit_falsified(assignment@, clause@[k]),
        decreases clause.literals.len() - j,
    {
        let lit = clause.literals[j];
        assert(clause@[j as int].in_range(assignment@.len()));
        if lit != neg_lit && lit != blocking_lit {
            match assignment.get(&lit) {
                Some(false) => {},
                _ => {
                    assert(no_replacement(
                        assignment@,
                        clause@.take(j as int),
                        neg_lit,
                        blocking_lit,
                    )) by {
                        assert forall|k: int| 0 <= k < j implies (#[trigger] clause@.take(
                            j as int,
                        )[k]) == neg_lit || clause@.take(j as int)[k] == blocking_lit
                            || lit_falsified(assignment@, clause@.take(j as int)[k]) by {
                            assert(clause@.take(j as int)[k] == clause@[k]);
                        }
                    }
                    return Some(lit);
                },
            }
        }
        j += 1;
    }
    None
}

/// Moving the watch at position `i` of list `index` to the end of list
/// `to` loses no watch.
pub proof fn lemma_watch_moved(
    before: Seq<Seq<Watch>>,
    cur: Seq<Seq<Watch>>,
    now: Seq<Seq<Watch>>,
    index: int,
    i: int,
    to: int,
)
    requires
        before.len() == cur.len() == now.len(),
        0 <= index < cur.len(),
        0 <= to < cur.len(),
        to != index,
        0 <= i < cur[index].len(),
        forall|l: int|
            0 <= l < cur.len() && l != index ==> before[l].len() <= (#[trigger] cur[l]).len(),
        now[index] == cur[index].update(i, cur[index].last()).drop_last(),
        now[to] == cur[to].push(cur[index][i]),
        forall|l: int| 0 <= l < cur.len() && l != index && l != to ==> #[trigger] now[l] == cur[l],
        forall|j: int|
            0 <= j < before[index].len() ==> kept_or_moved(
                before,
                cur,
                index,
                #[trigger] before[index][j],
            ),
    ensures
        forall|j: int|
            0 <= j < before[index].len() ==> kept_or_moved(
                before,
                now,
                index,
                #[trigger] before[index][j],
            ),
{
    assert forall|j: int| 0 <= j < before[index].len() implies kept_or_moved(
        before,
        now,
        index,
        #[trigger] before[index][j],
    ) by {
        let watch = before[index][j];
        assert(kept_or_moved(before, cur, index, watch));
        if has_watch(cur[index], watch) {
            let p = choose|p: int| 0 <= p < cur[index].len() && #[trigger] cur[index][p] == watch;
            if p == i {
                assert(now[to][cur[to].len() as int] == watch);
            } else if p == cur[index].len() - 1 {
                assert(now[index][i] == watch);
            } else {
                assert(now[index][p] == watch);
            }
        } else {
            let (l, k) = choose|l: int, k: int|
                0 <= l < cur.len() && l != index && before[l].len() <= k < cur[l].len()
                    && #[trigger] cur[l][k] == watch;
            assert(now[l][k] == watch);
        }
    }
}

} // verus!
