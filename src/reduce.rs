//! Clause database reduction.
use vstd::prelude::*;

use crate::clauses::{lits_in_range, Clauses, SolverClauseData};
use crate::search::{reason_ok, reasons_ok, Search};
use crate::trail::{Reason, Trail};

verus! {

/// A deletion candidate: the reduction score (not recently used, glue, length) followed by the
/// clause's handle. Tuples order lexicographically, so a greater candidate is a better one to
/// delete.
pub type Candidate = (u8, usize, usize, usize);

/// Lexicographic order on candidates, as tuples are ordered.
pub open spec fn candidate_le(a: Candidate, b: Candidate) -> bool {
    a.0 < b.0 || (a.0 == b.0 && (a.1 < b.1 || (a.1 == b.1 && (a.2 < b.2 || (a.2 == b.2 && a.3
        <= b.3)))))
}

/// Relies on `slice::select_nth_unstable`: it only permutes the elements, and afterwards the
/// element at `index` is preceded by no greater element and followed by no smaller one.
#[verifier::external_body]
fn select_nth(v: &mut Vec<Candidate>, index: usize)
    requires
        index < old(v)@.len(),
    ensures
        final(v)@.to_multiset() == old(v)@.to_multiset(),
        forall|i: int| 0 <= i < index ==> candidate_le(#[trigger] final(v)@[i], final(v)@[index as int]),
        forall|i: int|
            index < i < final(v)@.len() ==> candidate_le(final(v)@[index as int], #[trigger] final(v)@[i]),
{
    v.select_nth_unstable(index);
}

/// The handle of a long reason; -1 for any other reason.
pub open spec fn reason_handle(reason: Reason) -> int {
    match reason {
        Reason::Long(h) => h as int,
        _ => -1,
    }
}

/// Whether the long clause `h` is the reason of some trail step.
pub open spec fn is_reason(trail: &Trail, h: int) -> bool {
    exists|i: int| 0 <= i < trail.steps@.len() && reason_handle(#[trigger] trail.steps@[i].reason) == h
}

/// Whether the long clause `h` is the reason of one of the first `n` trail steps.
pub open spec fn is_reason_before(trail: &Trail, h: int, n: int) -> bool {
    exists|i: int| 0 <= i < n && reason_handle(#[trigger] trail.steps@[i].reason) == h
}

/// A clause that reduction must keep: an input clause, one with glue at most two, or a protected
/// one.
pub open spec fn must_keep(data: SolverClauseData) -> bool {
    data.protected || !data.redundant || data.glue <= 2
}

/// `c1` holds a subset of the long clauses of `c0`, unchanged, and the same binary clauses.
pub open spec fn kept_subset(c0: &Clauses, c1: &Clauses) -> bool {
    &&& c1.binary@ == c0.binary@
    &&& c1.var_count == c0.var_count
    &&& c1.long.clauses@.len() == c0.long.clauses@.len()
    &&& forall|g: int|
        #[trigger] c1.long.is_live(g) ==> c0.long.is_live(g) && c1.long.lits_of(g) == c0.long.lits_of(
            g,
        )
}

/// Every candidate names a live long clause of `c` that reduction may delete.
pub open spec fn candidates_ok(cands: Seq<Candidate>, c: &Clauses) -> bool {
    forall|k: int|
        0 <= k < cands.len() ==> (#[trigger] cands[k]).3 < c.long.clauses@.len() && !must_keep(
            c.long.data_of(cands[k].3 as int),
        ) && c.long.is_live(cands[k].3 as int)
}

/// The first score field of a candidate: how long ago the clause was last used, from 0 for a
/// saturated counter to 3 for an unused one.
pub open spec fn not_recent(used: u8) -> u8 {
    if used >= 3 {
        0
    } else {
        (3 - used) as u8
    }
}

/// The used counter of long clause `g` of `c` after a reduction scan: one less for a live clause
/// that is not kept by `must_keep` and was used; unchanged otherwise.
pub open spec fn decremented(c: &Clauses, g: int) -> u8 {
    if c.long.is_live(g) && !must_keep(c.long.data_of(g)) && c.long.data_of(g).used > 0 {
        (c.long.data_of(g).used - 1) as u8
    } else {
        c.long.data_of(g).used
    }
}

/// A clause with this metadata becomes a deletion candidate: it is learned, unprotected, not a
/// core clause, and not a medium clause used since the last reduction.
pub open spec fn eligible(data: SolverClauseData) -> bool {
    !must_keep(data) && !(data.used > 0 && data.glue <= 5)
}

/// The long clause `h` of `c` is a deletion candidate of a reduction on trail `trail`.
pub open spec fn reducible(trail: &Trail, c: &Clauses, h: int) -> bool {
    c.long.is_live(h) && !is_reason(trail, h) && eligible(c.long.data_of(h))
}

/// The two databases agree on the glue, redundant and protected flags of every long clause.
pub open spec fn same_flags(a: &Clauses, b: &Clauses) -> bool {
    &&& a.long.clauses@.len() == b.long.clauses@.len()
    &&& forall|g: int|
        0 <= g < a.long.clauses@.len() ==> {
            let da = #[trigger] a.long.data_of(g);
            let db = b.long.data_of(g);
            &&& da.glue == db.glue
            &&& da.redundant == db.redundant
            &&& da.protected == db.protected
        }
}

/// Dropping long clauses that no trail step names as reason keeps the search consistent.
pub proof fn lemma_kept_subset_wf(trail: &Trail, c0: &Clauses, c1: &Clauses)
    requires
        trail.wf(),
        c0.wf(),
        trail.var_count() == c0.var_count,
        reasons_ok(trail, c0),
        kept_subset(c0, c1),
        forall|h: int| is_reason(trail, h) && #[trigger] c0.long.is_live(h) ==> c1.long.is_live(h),
    ensures
        c1.wf(),
        reasons_ok(trail, c1),
{
    assert forall|h: int| #[trigger] c1.long.is_live(h) implies lits_in_range(
        c1.long.lits_of(h),
        c1.var_count as nat,
    ) && c1.long.lits_of(h).len() >= 3 by {
        assert(c0.long.is_live(h));
    }
    assert forall|i: int| 0 <= i < trail.steps@.len() implies #[trigger] reason_ok(trail, c1, i) by {
        assert(reason_ok(trail, c0, i));
        match trail.steps@[i].reason {
            Reason::Long(h) => {
                assert(reason_handle(trail.steps@[i].reason) == h);
                assert(is_reason(trail, h as int));
                assert(c0.long.is_live(h as int));
                assert(c1.long.is_live(h as int));
            },
            _ => {},
        }
    }
}

/// Reusable state of clause database reduction.
pub struct ReduceOps {
    /// Buffer for the clauses that may be deleted.
    pub deletion_candidates: Vec<Candidate>,
}

impl ReduceOps {
    /// Reduction state with an empty candidate buffer.
    pub fn new() -> (r: ReduceOps)
        ensures
            r.deletion_candidates@.len() == 0,
    {
        ReduceOps { deletion_candidates: Vec::new() }
    }

    /// Sets (or resets) the protected flag of every long clause that is the reason of a trail
    /// step, leaving all other metadata alone.
    #[verifier::rlimit(40)]
    fn protect_clauses(search: &mut Search, protected: bool)
        requires
            old(search).wf(),
        ensures
            final(search).wf(),
            final(search).trail == old(search).trail,
            final(search).stats == old(search).stats,
            final(search).schedule == old(search).schedule,
            crate::search::same_clauses(&old(search).clauses, &final(search).clauses),
            forall|g: int|
                0 <= g < old(search).clauses.long.clauses@.len() ==> #[trigger] final(search).clauses.long.data_of(g)
                    == (SolverClauseData {
                    protected: if is_reason(&old(search).trail, g) {
                        protected
                    } else {
                        old(search).clauses.long.data_of(g).protected
                    },
                    ..old(search).clauses.long.data_of(g)
                }),
    {
        let ghost c0 = search.clauses;
        let mut i: usize = 0;
        while i < search.trail.steps.len()
            invariant
                search.wf(),
                search.trail == old(search).trail,
                search.stats == old(search).stats,
                search.schedule == old(search).schedule,
                crate::search::same_clauses(&c0, &search.clauses),
                c0 == old(search).clauses,
                i <= search.trail.steps@.len(),
                forall|g: int|
                    0 <= g < c0.long.clauses@.len() ==> {
                        let d0 = #[trigger] c0.long.data_of(g);
                        let d1 = search.clauses.long.data_of(g);
                        &&& d1.glue == d0.glue
                        &&& d1.redundant == d0.redundant
                        &&& d1.used == d0.used
                        &&& d1.protected == if is_reason_before(&search.trail, g, i as int) {
                            protected
                        } else {
                            d0.protected
                        }
                    },
            decreases search.trail.steps@.len() - i,
        {
            let reason = search.trail.steps[i].reason;
            match reason {
                Reason::Long(h) => {
                    assert(reason_ok(&search.trail, &search.clauses, i as int));
                    let ghost c1 = search.clauses;
                    let mut data = search.clauses.long.data(h);
                    data.set_protected(protected);
                    search.clauses.long.set_data(h, data);
                    proof {
                        assert forall|g: int|
                            0 <= g < c1.long.clauses@.len() implies #[trigger] c1.long.lits_of(g)
                            == search.clauses.long.lits_of(g) && c1.long.is_live(g)
                            == search.clauses.long.is_live(g) by {
                            if g != h {
                                assert(c1.long.clauses@[g] == search.clauses.long.clauses@[g]);
                            }
                        }
                        crate::propagate::lemma_same_clauses_keep_reasons(
                            &search.trail,
                            &c1,
                            &search.clauses,
                        );
                        assert forall|g: int|
                            0 <= g < c0.long.clauses@.len() implies #[trigger] c0.long.lits_of(g)
                            == search.clauses.long.lits_of(g) && c0.long.is_live(g)
                            == search.clauses.long.is_live(g) by {
                            assert(c1.long.lits_of(g) == search.clauses.long.lits_of(g));
                        }
                        assert forall|g: int| 0 <= g < c0.long.clauses@.len() implies {
                            let d0 = #[trigger] c0.long.data_of(g);
                            let d1 = search.clauses.long.data_of(g);
                            &&& d1.glue == d0.glue
                            &&& d1.redundant == d0.redundant
                            &&& d1.used == d0.used
                            &&& d1.protected == if is_reason_before(
                                &search.trail,
                                g,
                                i + 1,
                            ) {
                                protected
                            } else {
                                d0.protected
                            }
                        } by {
                            if g == h {
                                assert(reason_handle(search.trail.steps@[i as int].reason) == g);
                            } else {
                                assert(c1.long.clauses@[g] == search.clauses.long.clauses@[g]);
                                if is_reason_before(&search.trail, g, i + 1) {
                                    let j = choose|j: int|
                                        0 <= j < i + 1 && reason_handle(#[trigger] search.trail.steps@[j].reason)
                                            == g;
                                    assert(j != i);
                                    assert(is_reason_before(&search.trail, g, i as int));
                                }
                            }
                        }
                    }
                },
                _ => {
                    proof {
                        assert forall|g: int| 0 <= g < c0.long.clauses@.len() implies {
                            let d0 = #[trigger] c0.long.data_of(g);
                            let d1 = search.clauses.long.data_of(g);
                            &&& d1.glue == d0.glue
                            &&& d1.redundant == d0.redundant
                            &&& d1.used == d0.used
                            &&& d1.protected == if is_reason_before(
                                &search.trail,
                                g,
                                i + 1,
                            ) {
                                protected
                            } else {
                                d0.protected
                            }
                        } by {
                            if is_reason_before(&search.trail, g, i + 1) {
                                let j = choose|j: int|
                                    0 <= j < i + 1 && reason_handle(#[trigger] search.trail.steps@[j].reason)
                                        == g;
                                assert(j != i);
                            }
                        }
                    }
                },
            }
            i = i + 1;
        }
    }

    /// Looks at the live long clause `h` during reduction: decrements its used counter and
    /// records it as a deletion candidate unless it is to be kept.
    fn consider(&mut self, search: &mut Search, h: usize)
        requires
            old(search).wf(),
            h < old(search).clauses.long.clauses@.len(),
            old(search).clauses.long.is_live(h as int),
            candidates_ok(old(self).deletion_candidates@, &old(search).clauses),
        ensures
            final(search).wf(),
            final(search).trail == old(search).trail,
            final(search).stats == old(search).stats,
            final(search).schedule == old(search).schedule,
            crate::search::same_clauses(&old(search).clauses, &final(search).clauses),
            same_flags(&old(search).clauses, &final(search).clauses),
            candidates_ok(final(self).deletion_candidates@, &final(search).clauses),
            forall|g: int|
                0 <= g < old(search).clauses.long.clauses@.len() && g != h
                    ==> #[trigger] final(search).clauses.long.data_of(g)
                    == old(search).clauses.long.data_of(g),
            eligible(old(search).clauses.long.data_of(h as int)) ==> {
                &&& final(self).deletion_candidates@.len() == old(self).deletion_candidates@.len() + 1
                &&& final(self).deletion_candidates@.take(old(self).deletion_candidates@.len() as int)
                    == old(self).deletion_candidates@
                &&& final(self).deletion_candidates@.last().3 == h
            },
            !eligible(old(search).clauses.long.data_of(h as int)) ==> final(self).deletion_candidates@
                == old(self).deletion_candidates@,
            final(search).clauses.long.data_of(h as int).used == decremented(&old(search).clauses, h as int),
            eligible(old(search).clauses.long.data_of(h as int)) ==> final(self).deletion_candidates@.last()
                == (
                not_recent(final(search).clauses.long.data_of(h as int).used),
                old(search).clauses.long.data_of(h as int).glue,
                old(search).clauses.long.lits_of(h as int).len() as usize,
                h,
            ),
    {
        let len = search.clauses.long.clause_len(h);
        let mut data = search.clauses.long.data(h);
        if data.protected() || !data.redundant() || data.glue() <= 2 {
            return ;
        }
        if data.used() > 0 {
            data.used = data.used() - 1;
            let ghost c2 = search.clauses;
            search.clauses.long.set_data(h, data);
            proof {
                assert forall|g: int|
                    0 <= g < c2.long.clauses@.len() implies #[trigger] c2.long.lits_of(g)
                    == search.clauses.long.lits_of(g) && c2.long.is_live(g)
                    == search.clauses.long.is_live(g) by {
                    if g != h {
                        assert(c2.long.clauses@[g] == search.clauses.long.clauses@[g]);
                    }
                }
                crate::propagate::lemma_same_clauses_keep_reasons(&search.trail, &c2, &search.clauses);
                assert forall|g: int| 0 <= g < c2.long.clauses@.len() implies {
                    let da = #[trigger] c2.long.data_of(g);
                    let db = search.clauses.long.data_of(g);
                    &&& da.glue == db.glue
                    &&& da.redundant == db.redundant
                    &&& da.protected == db.protected
                } by {
                    if g != h {
                        assert(c2.long.clauses@[g] == search.clauses.long.clauses@[g]);
                    }
                }
                assert forall|k: int| 0 <= k < self.deletion_candidates@.len() implies
                    (#[trigger] self.deletion_candidates@[k]).3 < search.clauses.long.clauses@.len()
                    && !must_keep(search.clauses.long.data_of(self.deletion_candidates@[k].3 as int)) by {
                    let g = self.deletion_candidates@[k].3 as int;
                    assert(c2.long.data_of(g).glue == search.clauses.long.data_of(g).glue);
                    assert(c2.long.is_live(g) == search.clauses.long.is_live(g));
                }
            }
            if data.glue() <= 5 {
                return ;
            }
        }
        let used = data.used();
        let inv_used: u8 = if used >= 3 {
            0
        } else {
            3 - used
        };
        self.deletion_candidates.push((inv_used, data.glue(), len, h));
        assert(search.clauses.long.data_of(h as int).glue == data.glue);
        assert(self.deletion_candidates@.take(old(self).deletion_candidates@.len() as int) =~= old(self).deletion_candidates@);
    }

    /// Deletes the worse half of the learned clauses that are neither core clauses (glue at
    /// most two), nor reasons of trail steps, nor recently used with a glue of at most five.
    ///
    /// Every scanned learned clause that is not a core clause or a reason has its used counter
    /// decremented. The candidates are scored by (not recently used, glue, length); of `n`
    /// candidates the `n / 2` with the greatest scores are deleted. Every long clause that the
    /// trail uses as a reason, every clause with glue at most two, every input clause and every
    /// clause already protected survives with its literals unchanged.
    pub fn reduce(&mut self, search: &mut Search)
        requires
            old(search).wf(),
        ensures
            final(search).wf(),
            final(search).trail == old(search).trail,
            final(search).stats == old(search).stats,
            final(search).schedule == old(search).schedule,
            kept_subset(&old(search).clauses, &final(search).clauses),
            forall|h: int|
                #[trigger] old(search).clauses.long.is_live(h) && (is_reason(&old(search).trail, h)
                    || must_keep(old(search).clauses.long.data_of(h)))
                    ==> final(search).clauses.long.is_live(h),
            forall|h: int|
                0 <= h < old(search).clauses.long.clauses@.len() && is_reason(&old(search).trail, h)
                    ==> !(#[trigger] final(search).clauses.long.data_of(h)).protected,
            forall|h: int|
                0 <= h < old(search).clauses.long.clauses@.len() ==> (#[trigger] final(search).clauses.long.data_of(h)).glue
                    == old(search).clauses.long.data_of(h).glue
                    && final(search).clauses.long.data_of(h).redundant
                    == old(search).clauses.long.data_of(h).redundant
                    && final(search).clauses.long.data_of(h).protected == if is_reason(
                    &old(search).trail,
                    h,
                ) {
                    false
                } else {
                    old(search).clauses.long.data_of(h).protected
                },
            ({
                let cands = final(self).deletion_candidates@;
                let mid: int = if cands.len() > 0 {
                    cands.len() - 1 - cands.len() / 2
                } else {
                    0
                };
                &&& forall|h: int|
                    #[trigger] reducible(&old(search).trail, &old(search).clauses, h) ==> exists|k: int|
                        0 <= k < cands.len() && (#[trigger] cands[k]).3 == h
                &&& forall|k: int|
                    0 <= k < cands.len() ==> old(search).clauses.long.is_live(
                        (#[trigger] cands[k]).3 as int,
                    ) && !is_reason(&old(search).trail, cands[k].3 as int) && eligible(
                        old(search).clauses.long.data_of(cands[k].3 as int),
                    )
                &&& forall|k: int| 0 <= k < mid ==> candidate_le(#[trigger] cands[k], cands[mid])
                &&& forall|k: int|
                    mid < k < cands.len() ==> candidate_le(cands[mid], #[trigger] cands[k])
                &&& forall|k: int|
                    mid < k < cands.len() ==> !final(search).clauses.long.is_live(
                        (#[trigger] cands[k]).3 as int,
                    )
                &&& forall|h: int|
                    #[trigger] old(search).clauses.long.is_live(h)
                        && !final(search).clauses.long.is_live(h) ==> exists|k: int|
                        mid < k < cands.len() && (#[trigger] cands[k]).3 == h
                &&& cands.len() > 0 ==> cands.len() - 1 - mid == cands.len() / 2
                &&& forall|k1: int, k2: int|
                    0 <= k1 < cands.len() && 0 <= k2 < cands.len() && k1 != k2
                        ==> (#[trigger] cands[k1]).3 != (#[trigger] cands[k2]).3
                &&& forall|k: int|
                    0 <= k < cands.len() ==> #[trigger] cands[k] == (
                        not_recent(final(search).clauses.long.data_of(cands[k].3 as int).used),
                        old(search).clauses.long.data_of(cands[k].3 as int).glue,
                        old(search).clauses.long.lits_of(cands[k].3 as int).len() as usize,
                        cands[k].3,
                    )
            }),
            forall|h: int|
                0 <= h < old(search).clauses.long.clauses@.len()
                    ==> (#[trigger] final(search).clauses.long.data_of(h)).used
                    == if old(search).clauses.long.is_live(h) && !is_reason(&old(search).trail, h)
                    && !must_keep(old(search).clauses.long.data_of(h))
                    && old(search).clauses.long.data_of(h).used > 0 {
                    (old(search).clauses.long.data_of(h).used - 1) as u8
                } else {
                    old(search).clauses.long.data_of(h).used
                },
    {
        let ghost c0 = search.clauses;
        Self::protect_clauses(search, true);
        let ghost c1 = search.clauses;

        self.deletion_candidates.clear();
        let mut cursor: usize = 0;
        loop
            invariant_except_break
                cursor <= search.clauses.long.clauses@.len(),
            invariant
                search.wf(),
                search.trail == old(search).trail,
                search.stats == old(search).stats,
                search.schedule == old(search).schedule,
                crate::search::same_clauses(&c1, &search.clauses),
                c1.wf(),
                forall|g: int|
                    0 <= g < c1.long.clauses@.len() ==> {
                        let d1 = #[trigger] c1.long.data_of(g);
                        let d = search.clauses.long.data_of(g);
                        &&& d.glue == d1.glue
                        &&& d.redundant == d1.redundant
                        &&& d.protected == d1.protected
                    },
                candidates_ok(self.deletion_candidates@, &search.clauses),
                forall|g: int|
                    cursor <= g < c1.long.clauses@.len() ==> #[trigger] search.clauses.long.data_of(g)
                        == c1.long.data_of(g),
                forall|g: int|
                    0 <= g < cursor && #[trigger] c1.long.is_live(g) && eligible(c1.long.data_of(g))
                        ==> exists|k: int|
                        0 <= k < self.deletion_candidates@.len()
                            && (#[trigger] self.deletion_candidates@[k]).3 == g,
                forall|k: int|
                    0 <= k < self.deletion_candidates@.len() ==> eligible(
                        c1.long.data_of((#[trigger] self.deletion_candidates@[k]).3 as int),
                    ),
                forall|k: int|
                    0 <= k < self.deletion_candidates@.len() ==> (#[trigger] self.deletion_candidates@[k]).3
                        < cursor,
                forall|k1: int, k2: int|
                    0 <= k1 < k2 < self.deletion_candidates@.len() ==> (#[trigger] self.deletion_candidates@[k1]).3
                        < (#[trigger] self.deletion_candidates@[k2]).3,
                forall|k: int|
                    0 <= k < self.deletion_candidates@.len() ==> #[trigger] self.deletion_candidates@[k] == (
                        not_recent(search.clauses.long.data_of(self.deletion_candidates@[k].3 as int).used),
                        c1.long.data_of(self.deletion_candidates@[k].3 as int).glue,
                        c1.long.lits_of(self.deletion_candidates@[k].3 as int).len() as usize,
                        self.deletion_candidates@[k].3,
                    ),
                forall|g: int|
                    0 <= g < cursor && g < c1.long.clauses@.len()
                        ==> (#[trigger] search.clauses.long.data_of(g)).used == decremented(&c1, g),
            ensures
                cursor >= search.clauses.long.clauses@.len(),
            decreases search.clauses.long.clauses@.len() - cursor,
        {
            let ghost cs = search.clauses;
            let ghost cursor0 = cursor;
            let ghost cands0 = self.deletion_candidates@;
            match search.clauses.long.next_clause(&mut cursor) {
                None => {
                    break;
                },
                Some(h) => {
                    self.consider(search, h);
                    proof {
                        assert forall|g: int|
                            0 <= g < c1.long.clauses@.len() implies #[trigger] c1.long.lits_of(g)
                            == search.clauses.long.lits_of(g) && c1.long.is_live(g)
                            == search.clauses.long.is_live(g) by {
                            assert(cs.long.lits_of(g) == search.clauses.long.lits_of(g));
                            assert(cs.long.is_live(g) == search.clauses.long.is_live(g));
                            assert(c1.long.lits_of(g) == cs.long.lits_of(g));
                            assert(c1.long.is_live(g) == cs.long.is_live(g));
                        }
                        assert(search.clauses.binary@ == c1.binary@);
                        assert(search.clauses.var_count == c1.var_count);
                        assert(crate::search::same_clauses(&c1, &search.clauses));
                        assert forall|g: int| 0 <= g < c1.long.clauses@.len() implies {
                            let d1 = #[trigger] c1.long.data_of(g);
                            let d = search.clauses.long.data_of(g);
                            &&& d.glue == d1.glue
                            &&& d.redundant == d1.redundant
                            &&& d.protected == d1.protected
                        } by {
                            assert(cs.long.data_of(g).glue == search.clauses.long.data_of(g).glue);
                        }
                        assert forall|g: int|
                            cursor <= g < c1.long.clauses@.len() implies #[trigger] search.clauses.long.data_of(g)
                                == c1.long.data_of(g) by {
                            assert(cs.long.data_of(g) == c1.long.data_of(g));
                        }
                        assert forall|k: int|
                            0 <= k < self.deletion_candidates@.len() implies (#[trigger] self.deletion_candidates@[k]).3
                                < cursor && self.deletion_candidates@[k] == (
                                not_recent(search.clauses.long.data_of(self.deletion_candidates@[k].3 as int).used),
                                c1.long.data_of(self.deletion_candidates@[k].3 as int).glue,
                                c1.long.lits_of(self.deletion_candidates@[k].3 as int).len() as usize,
                                self.deletion_candidates@[k].3,
                            ) by {
                            if k < cands0.len() {
                                assert(self.deletion_candidates@.take(cands0.len() as int) == cands0);
                                assert(self.deletion_candidates@[k] == cands0[k]);
                                let g = cands0[k].3 as int;
                                assert(cs.long.data_of(g) == search.clauses.long.data_of(g));
                            } else {
                                assert(cs.long.data_of(h as int) == c1.long.data_of(h as int));
                                assert(cs.long.lits_of(h as int) == c1.long.lits_of(h as int));
                            }
                        }
                        assert forall|k1: int, k2: int|
                            0 <= k1 < k2 < self.deletion_candidates@.len() implies (#[trigger] self.deletion_candidates@[k1]).3
                                < (#[trigger] self.deletion_candidates@[k2]).3 by {
                            assert(self.deletion_candidates@.take(cands0.len() as int) == cands0);
                            assert(self.deletion_candidates@[k1] == cands0[k1]);
                            if k2 < cands0.len() {
                                assert(self.deletion_candidates@[k2] == cands0[k2]);
                            }
                        }
                        assert forall|g: int|
                            0 <= g < cursor && g < c1.long.clauses@.len() implies (#[trigger] search.clauses.long.data_of(g)).used
                                == decremented(&c1, g) by {
                            if g < cursor0 {
                                assert(cs.long.data_of(g).used == decremented(&c1, g));
                            } else if g < h {
                                assert(cs.long.data_of(g) == c1.long.data_of(g));
                                assert(c1.long.lits_of(g) == cs.long.lits_of(g));
                                assert(cs.long.is_live(g) == c1.long.is_live(g));
                            } else {
                                assert(cs.long.data_of(h as int) == c1.long.data_of(h as int));
                                assert(c1.long.lits_of(h as int) == cs.long.lits_of(h as int));
                                assert(cs.long.is_live(h as int) == c1.long.is_live(h as int));
                            }
                        }
                        assert forall|k: int|
                            0 <= k < self.deletion_candidates@.len() implies eligible(
                                c1.long.data_of((#[trigger] self.deletion_candidates@[k]).3 as int),
                            ) by {
                            if k < cands0.len() {
                                assert(self.deletion_candidates@.take(cands0.len() as int) == cands0);
                                assert(self.deletion_candidates@[k] == cands0[k]);
                            } else {
                                assert(cs.long.data_of(h as int) == c1.long.data_of(h as int));
                            }
                        }
                        assert forall|g: int|
                            0 <= g < cursor && #[trigger] c1.long.is_live(g) && eligible(c1.long.data_of(g))
                                implies exists|k: int|
                                0 <= k < self.deletion_candidates@.len()
                                    && (#[trigger] self.deletion_candidates@[k]).3 == g by {
                            if g < cursor0 {
                                let k = choose|k: int|
                                    0 <= k < cands0.len() && (#[trigger] cands0[k]).3 == g;
                                assert(self.deletion_candidates@.take(cands0.len() as int) == cands0);
                                assert(self.deletion_candidates@[k] == cands0[k]);
                            } else if g < h {
                                assert(cs.long.is_live(g) == c1.long.is_live(g));
                            } else {
                                assert(cs.long.data_of(h as int) == c1.long.data_of(h as int));
                                let k = self.deletion_candidates@.len() - 1;
                                assert(self.deletion_candidates@[k].3 == h);
                            }
                        }
                    }
                },
            }
        }
        proof {
            assert forall|g: int|
                #[trigger] c1.long.is_live(g) && eligible(c1.long.data_of(g)) implies exists|k: int|
                    0 <= k < self.deletion_candidates@.len()
                        && (#[trigger] self.deletion_candidates@[k]).3 == g by {
                if g >= cursor {
                    assert(search.clauses.long.is_live(g));
                }
            }
        }
        let count = self.deletion_candidates.len();
        let ghost c3 = search.clauses;
        assert forall|k: int|
            0 <= k < self.deletion_candidates@.len() implies (#[trigger] self.deletion_candidates@[k]).3
                < c1.long.clauses@.len() && !must_keep(
                c1.long.data_of(self.deletion_candidates@[k].3 as int),
            ) by {
            let g = self.deletion_candidates@[k].3 as int;
            assert(c1.long.data_of(g).glue == c3.long.data_of(g).glue);
        }
        assert forall|k: int|
            0 <= k < self.deletion_candidates@.len() implies c1.long.is_live(
                (#[trigger] self.deletion_candidates@[k]).3 as int,
            ) by {
            let g = self.deletion_candidates@[k].3 as int;
            assert(c1.long.is_live(g) == c3.long.is_live(g));
        }
        let ghost unsorted = self.deletion_candidates@;
        // The worse half: the `count / 2` candidates after position `pivot`.
        let pivot: usize = if count > 0 {
            count - 1 - count / 2
        } else {
            0
        };
        if count > 0 {
            let ghost before = self.deletion_candidates@;
            select_nth(&mut self.deletion_candidates, pivot);
            proof {
                broadcast use vstd::seq_lib::group_to_multiset_ensures;

                assert(self.deletion_candidates@.to_multiset().len() == before.to_multiset().len());
                assert(self.deletion_candidates@.len() == before.len());
            }
            assert forall|k: int|
                0 <= k < self.deletion_candidates@.len() implies (#[trigger] self.deletion_candidates@[k]).3
                    < c1.long.clauses@.len() && !must_keep(
                    c1.long.data_of(self.deletion_candidates@[k].3 as int),
                ) by {
                broadcast use vstd::seq_lib::group_to_multiset_ensures;

                let x = self.deletion_candidates@[k];
                assert(self.deletion_candidates@.to_multiset().count(x) > 0);
                assert(before.contains(x));
                let j = choose|j: int| 0 <= j < before.len() && before[j] == x;
                assert(before[j] == x);
            }
            assert forall|k: int|
                0 <= k < self.deletion_candidates@.len() implies c1.long.is_live(
                    (#[trigger] self.deletion_candidates@[k]).3 as int,
                ) by {
                broadcast use vstd::seq_lib::group_to_multiset_ensures;

                let x = self.deletion_candidates@[k];
                assert(self.deletion_candidates@.to_multiset().count(x) > 0);
                assert(before.contains(x));
                let j = choose|j: int| 0 <= j < before.len() && before[j] == x;
                assert(before[j] == x);
            }
            assert forall|k: int|
                0 <= k < self.deletion_candidates@.len() implies eligible(
                    c1.long.data_of((#[trigger] self.deletion_candidates@[k]).3 as int),
                ) by {
                broadcast use vstd::seq_lib::group_to_multiset_ensures;

                let x = self.deletion_candidates@[k];
                assert(self.deletion_candidates@.to_multiset().count(x) > 0);
                assert(before.contains(x));
                let j = choose|j: int| 0 <= j < before.len() && before[j] == x;
                assert(before[j] == x);
            }
            assert forall|g: int|
                #[trigger] c1.long.is_live(g) && eligible(c1.long.data_of(g)) implies exists|k: int|
                    0 <= k < self.deletion_candidates@.len()
                        && (#[trigger] self.deletion_candidates@[k]).3 == g by {
                broadcast use vstd::seq_lib::group_to_multiset_ensures;

                let j = choose|j: int| 0 <= j < before.len() && (#[trigger] before[j]).3 == g;
                let x = before[j];
                assert(before.to_multiset().count(x) > 0);
                assert(self.deletion_candidates@.contains(x));
                let k = choose|k: int| 0 <= k < self.deletion_candidates@.len() && self.deletion_candidates@[k] == x;
                assert(self.deletion_candidates@[k].3 == g);
            }
            proof {
                broadcast use vstd::seq_lib::group_to_multiset_ensures;

                assert(before.no_duplicates()) by {
                    assert forall|a: int, b: int| 0 <= a < before.len() && 0 <= b < before.len() && a != b
                        implies before[a] != before[b] by {
                        if a < b {
                            assert(before[a].3 < before[b].3);
                        } else {
                            assert(before[b].3 < before[a].3);
                        }
                    }
                }
                before.lemma_multiset_has_no_duplicates();
                self.deletion_candidates@.lemma_multiset_has_no_duplicates_conv();
            }
            assert forall|k: int|
                0 <= k < self.deletion_candidates@.len() implies #[trigger] self.deletion_candidates@[k] == (
                    not_recent(c3.long.data_of(self.deletion_candidates@[k].3 as int).used),
                    c1.long.data_of(self.deletion_candidates@[k].3 as int).glue,
                    c1.long.lits_of(self.deletion_candidates@[k].3 as int).len() as usize,
                    self.deletion_candidates@[k].3,
                ) by {
                broadcast use vstd::seq_lib::group_to_multiset_ensures;

                let x = self.deletion_candidates@[k];
                assert(self.deletion_candidates@.to_multiset().count(x) > 0);
                assert(before.contains(x));
                let j = choose|j: int| 0 <= j < before.len() && before[j] == x;
                assert(before[j] == x);
            }
            assert forall|k1: int, k2: int|
                0 <= k1 < self.deletion_candidates@.len() && 0 <= k2 < self.deletion_candidates@.len()
                    && k1 != k2 implies (#[trigger] self.deletion_candidates@[k1]).3
                    != (#[trigger] self.deletion_candidates@[k2]).3 by {
                let x1 = self.deletion_candidates@[k1];
                let x2 = self.deletion_candidates@[k2];
                assert(x1 == (
                    not_recent(c3.long.data_of(x1.3 as int).used),
                    c1.long.data_of(x1.3 as int).glue,
                    c1.long.lits_of(x1.3 as int).len() as usize,
                    x1.3,
                ));
                assert(x2 == (
                    not_recent(c3.long.data_of(x2.3 as int).used),
                    c1.long.data_of(x2.3 as int).glue,
                    c1.long.lits_of(x2.3 as int).len() as usize,
                    x2.3,
                ));
            }
            let ghost sel = self.deletion_candidates@;
            let mut k: usize = pivot + 1;
            while k < count
                invariant
                    count == self.deletion_candidates@.len(),
                    self.deletion_candidates@ == sel,
                    search.trail == old(search).trail,
                    search.stats == old(search).stats,
                    search.schedule == old(search).schedule,
                    kept_subset(&c3, &search.clauses),
                    forall|k: int|
                        0 <= k < self.deletion_candidates@.len() ==> (#[trigger] self.deletion_candidates@[k]).3
                            < c1.long.clauses@.len() && !must_keep(
                            c1.long.data_of(self.deletion_candidates@[k].3 as int),
                        ),
                    forall|g: int|
                        0 <= g < c3.long.clauses@.len() ==> #[trigger] search.clauses.long.data_of(g)
                            == c3.long.data_of(g),
                    forall|g: int|
                        #[trigger] c3.long.is_live(g) && must_keep(c1.long.data_of(g))
                            ==> search.clauses.long.is_live(g),
                    c3.long.clauses@.len() == c1.long.clauses@.len(),
                    forall|g: int|
                        0 <= g < c1.long.clauses@.len() ==> {
                            let d1 = #[trigger] c1.long.data_of(g);
                            let d = c3.long.data_of(g);
                            &&& d.glue == d1.glue
                            &&& d.redundant == d1.redundant
                            &&& d.protected == d1.protected
                        },
                    pivot + 1 <= k,
                    k <= count,
                    forall|j: int|
                        pivot < j < k ==> !search.clauses.long.is_live(
                            (#[trigger] self.deletion_candidates@[j]).3 as int,
                        ),
                    forall|g: int|
                        #[trigger] c3.long.is_live(g) && !search.clauses.long.is_live(g)
                            ==> exists|j: int|
                            pivot < j < k && (#[trigger] self.deletion_candidates@[j]).3 == g,
                decreases count - k,
            {
                let h = self.deletion_candidates[k].3;
                assert(!must_keep(c1.long.data_of(h as int)));
                let ghost c4 = search.clauses;
                search.clauses.long.delete_clause(h);
                proof {
                    assert forall|g: int| #[trigger] search.clauses.long.is_live(g) implies c3.long.is_live(g)
                        && search.clauses.long.lits_of(g) == c3.long.lits_of(g) by {
                        assert(c4.long.clauses@[g] == search.clauses.long.clauses@[g]);
                        assert(c4.long.is_live(g));
                    }
                    assert forall|g: int| 0 <= g < c3.long.clauses@.len() implies #[trigger] search.clauses.long.data_of(g)
                            == c3.long.data_of(g) by {
                        assert(c4.long.data_of(g) == c3.long.data_of(g));
                        if g != h {
                            assert(c4.long.clauses@[g] == search.clauses.long.clauses@[g]);
                        }
                    }
                    assert forall|g: int|
                        #[trigger] c3.long.is_live(g) && must_keep(c1.long.data_of(g))
                            implies search.clauses.long.is_live(g) by {
                        assert(c4.long.is_live(g));
                        assert(g != h);
                        assert(c4.long.clauses@[g] == search.clauses.long.clauses@[g]);
                    }
                    assert forall|j: int|
                        pivot < j < k + 1 implies !search.clauses.long.is_live(
                            (#[trigger] self.deletion_candidates@[j]).3 as int,
                        ) by {
                        if j < k {
                            let g = self.deletion_candidates@[j].3 as int;
                            assert(!c4.long.is_live(g));
                            if g != h {
                                assert(c4.long.clauses@[g] == search.clauses.long.clauses@[g]);
                            }
                        }
                    }
                    assert forall|g: int|
                        #[trigger] c3.long.is_live(g) && !search.clauses.long.is_live(g)
                            implies exists|j: int|
                            pivot < j < k + 1 && (#[trigger] self.deletion_candidates@[j]).3 == g by {
                        if g == h {
                            assert(self.deletion_candidates@[k as int].3 == g);
                        } else {
                            assert(c4.long.clauses@[g] == search.clauses.long.clauses@[g]);
                        }
                    }
                }
                k = k + 1;
            }
        }
        assert forall|k1: int, k2: int|
            0 <= k1 < self.deletion_candidates@.len() && 0 <= k2 < self.deletion_candidates@.len()
                && k1 != k2 implies (#[trigger] self.deletion_candidates@[k1]).3
                != (#[trigger] self.deletion_candidates@[k2]).3 by {}
        assert forall|k: int|
            0 <= k < self.deletion_candidates@.len() implies #[trigger] self.deletion_candidates@[k] == (
                not_recent(c3.long.data_of(self.deletion_candidates@[k].3 as int).used),
                c1.long.data_of(self.deletion_candidates@[k].3 as int).glue,
                c1.long.lits_of(self.deletion_candidates@[k].3 as int).len() as usize,
                self.deletion_candidates@[k].3,
            ) by {}
        assert forall|g: int|
            #[trigger] c3.long.is_live(g) && !search.clauses.long.is_live(g) implies exists|j: int|
                pivot < j < count && (#[trigger] self.deletion_candidates@[j]).3 == g by {
            if count == 0 {
                assert(search.clauses.long.clauses@[g] == c3.long.clauses@[g]);
            }
        }
        proof {
            assert forall|h: int| is_reason(&search.trail, h) && #[trigger] c3.long.is_live(h) implies search.clauses.long.is_live(h) by {
                assert(h < c0.long.clauses@.len());
                assert(is_reason(&old(search).trail, h));
                assert(c1.long.data_of(h).protected == if is_reason(&old(search).trail, h) {
                    true
                } else {
                    c0.long.data_of(h).protected
                });
                assert(c1.long.data_of(h).protected);
            }
            lemma_kept_subset_wf(&search.trail, &c3, &search.clauses);
        }
        let ghost c5 = search.clauses;
        Self::protect_clauses(search, false);
        proof {
            assert forall|g: int| #[trigger] search.clauses.long.is_live(g) implies c0.long.is_live(g)
                && search.clauses.long.lits_of(g) == c0.long.lits_of(g) by {
                assert(c5.long.lits_of(g) == search.clauses.long.lits_of(g));
                assert(c5.long.is_live(g));
                assert(c3.long.is_live(g));
                assert(c1.long.lits_of(g) == c3.long.lits_of(g));
                assert(c0.long.lits_of(g) == c1.long.lits_of(g));
            }
            assert forall|h: int|
                #[trigger] c0.long.is_live(h) && (is_reason(&old(search).trail, h)
                    || must_keep(c0.long.data_of(h)))
                    implies search.clauses.long.is_live(h) by {
                assert(c0.long.lits_of(h) == c1.long.lits_of(h));
                assert(c1.long.is_live(h));
                assert(c1.long.lits_of(h) == c3.long.lits_of(h));
                assert(c3.long.is_live(h));
                assert(c1.long.data_of(h).protected || must_keep(c0.long.data_of(h)));
                assert(must_keep(c1.long.data_of(h)));
                assert(c5.long.is_live(h));
                assert(c5.long.lits_of(h) == search.clauses.long.lits_of(h));
            }
            assert forall|h: int| 0 <= h < c0.long.clauses@.len() implies (#[trigger] search.clauses.long.data_of(h)).glue
                    == c0.long.data_of(h).glue
                    && search.clauses.long.data_of(h).redundant == c0.long.data_of(h).redundant
                    && search.clauses.long.data_of(h).protected == if is_reason(&old(search).trail, h) {
                    false
                } else {
                    c0.long.data_of(h).protected
                } by {
                assert(c1.long.data_of(h).glue == c0.long.data_of(h).glue);
                assert(c3.long.data_of(h).glue == c1.long.data_of(h).glue);
                assert(c5.long.data_of(h) == c3.long.data_of(h));
                assert(c3.long.data_of(h).protected == c1.long.data_of(h).protected);
            }
            let cands = self.deletion_candidates@;
            let mid: int = if cands.len() > 0 {
                cands.len() - 1 - cands.len() / 2
            } else {
                0
            };
            assert forall|h: int|
                #[trigger] reducible(&old(search).trail, &c0, h) implies exists|k: int|
                    0 <= k < cands.len() && (#[trigger] cands[k]).3 == h by {
                assert(c0.long.lits_of(h) == c1.long.lits_of(h));
                assert(c1.long.data_of(h) == c0.long.data_of(h));
                assert(c1.long.is_live(h));
            }
            assert forall|k: int|
                0 <= k < cands.len() implies c0.long.is_live((#[trigger] cands[k]).3 as int)
                    && !is_reason(&old(search).trail, cands[k].3 as int) && eligible(
                    c0.long.data_of(cands[k].3 as int),
                ) by {
                let g = cands[k].3 as int;
                assert(c0.long.lits_of(g) == c1.long.lits_of(g));
            }
            assert forall|k: int|
                mid < k < cands.len() implies !search.clauses.long.is_live(
                    (#[trigger] cands[k]).3 as int,
                ) by {
                let g = cands[k].3 as int;
                assert(c5.long.lits_of(g) == search.clauses.long.lits_of(g));
            }
            assert forall|h: int|
                #[trigger] c0.long.is_live(h) && !search.clauses.long.is_live(h) implies exists|k: int|
                    mid < k < cands.len() && (#[trigger] cands[k]).3 == h by {
                assert(c5.long.lits_of(h) == search.clauses.long.lits_of(h));
                assert(c0.long.lits_of(h) == c1.long.lits_of(h));
                assert(c1.long.lits_of(h) == c3.long.lits_of(h));
                assert(c3.long.is_live(h));
            }
            assert forall|k: int| 0 <= k < cands.len() implies #[trigger] cands[k] == (
                not_recent(search.clauses.long.data_of(cands[k].3 as int).used),
                c0.long.data_of(cands[k].3 as int).glue,
                c0.long.lits_of(cands[k].3 as int).len() as usize,
                cands[k].3,
            ) by {
                let g = cands[k].3 as int;
                assert(c5.long.data_of(g) == c3.long.data_of(g));
                assert(c0.long.lits_of(g) == c1.long.lits_of(g));
                assert(c1.long.data_of(g).glue == c0.long.data_of(g).glue);
            }
            assert forall|h: int|
                0 <= h < c0.long.clauses@.len() implies (#[trigger] search.clauses.long.data_of(h)).used
                    == if c0.long.is_live(h) && !is_reason(&old(search).trail, h)
                    && !must_keep(c0.long.data_of(h)) && c0.long.data_of(h).used > 0 {
                    (c0.long.data_of(h).used - 1) as u8
                } else {
                    c0.long.data_of(h).used
                } by {
                assert(c5.long.data_of(h) == c3.long.data_of(h));
                assert(c3.long.data_of(h).used == decremented(&c1, h));
                assert(c0.long.lits_of(h) == c1.long.lits_of(h));
                assert(c1.long.data_of(h).glue == c0.long.data_of(h).glue);
            }
        }
    }
}

} // verus!
