//! Unit propagation to a fixpoint.
use vstd::prelude::*;

use crate::clauses::{copy_lits, lits_in_range, Clauses, MAX_USED};
use crate::lit::Lit;
use crate::search::{
    all_false, clause_ok, fixpoint, in_database, reason_ok, reasons_ok, same_clauses, same_kinds,
    Search,
};
use crate::trail::{Reason, Step, Trail};

verus! {

/// What a clause needs under the current assignment.
pub enum ClauseStatus {
    /// Nothing: a literal is true or two are not false.
    Settled,
    /// The literal at this index is unassigned and every other literal is false.
    Unit(usize),
    /// Every literal is false.
    Falsified,
}

/// Classifies the clause `lits` under the assignment of `trail`.
pub fn clause_status(trail: &Trail, lits: &Vec<Lit>) -> (r: ClauseStatus)
    requires
        trail.wf(),
        lits_in_range(lits@, trail.var_count()),
    ensures
        match r {
            ClauseStatus::Settled => clause_ok(trail, lits@),
            ClauseStatus::Unit(u) => {
                &&& u < lits@.len()
                &&& !trail.assigned(lits@[u as int].var_spec())
                &&& forall|m: int| 0 <= m < lits@.len() && m != u ==> trail.lit_false(#[trigger] lits@[m])
            },
            ClauseStatus::Falsified => all_false(trail, lits@),
        },
{
    let mut open: Option<usize> = None;
    let mut k: usize = 0;
    while k < lits.len()
        invariant
            trail.wf(),
            lits_in_range(lits@, trail.var_count()),
            k <= lits@.len(),
            match open {
                Some(f) => f < k && !trail.assigned(lits@[f as int].var_spec()),
                None => true,
            },
            forall|m: int|
                0 <= m < k && open != Some(m as usize) ==> trail.lit_false(#[trigger] lits@[m]),
        decreases lits@.len() - k,
    {
        let lit = lits[k];
        if trail.is_true(lit) {
            return ClauseStatus::Settled;
        }
        if !trail.is_false(lit) {
            match open {
                Some(f) => {
                    assert(!trail.lit_false(lits@[f as int]));
                    assert(!trail.lit_false(lits@[k as int]));
                    return ClauseStatus::Settled;
                },
                None => {
                    open = Some(k);
                },
            }
        }
        k = k + 1;
    }
    match open {
        Some(f) => ClauseStatus::Unit(f),
        None => ClauseStatus::Falsified,
    }
}

/// Adding one justified step at the end of the trail keeps every step justified.
pub proof fn lemma_push_keeps_reasons(t0: &Trail, t1: &Trail, clauses: &Clauses)
    requires
        t0.wf(),
        t1.wf(),
        reasons_ok(t0, clauses),
        t1.steps@.len() == t0.steps@.len() + 1,
        t1.position@.len() == t0.position@.len(),
        forall|i: int| 0 <= i < t0.steps@.len() ==> #[trigger] t1.steps@[i] == t0.steps@[i],
        t1.position@ == t0.position@.update(
            t1.steps@.last().assigned_lit.var_spec() as int,
            t0.steps@.len() as usize,
        ),
        !t0.assigned(t1.steps@.last().assigned_lit.var_spec()),
        reason_ok(t1, clauses, t0.steps@.len() as int),
    ensures
        reasons_ok(t1, clauses),
{
    let n = t0.steps@.len() as int;
    let v = t1.steps@.last().assigned_lit.var_spec();
    assert(t1.steps@[n].assigned_lit.var_spec() < t1.position@.len());
    assert(v < t0.position@.len());
    assert forall|i: int| 0 <= i < t1.steps@.len() implies #[trigger] reason_ok(t1, clauses, i) by {
        if i < n {
            assert(reason_ok(t0, clauses, i));
            let step = t0.steps@[i];
            assert(t1.steps@[i] == step);
            match step.reason {
                Reason::Long(h) => {
                    let lits = clauses.long.lits_of(h as int);
                    assert forall|m: int|
                        0 <= m < lits.len() && lits[m] != step.assigned_lit implies t1.lit_false(
                            #[trigger] lits[m],
                        ) && t1.pos_of(lits[m]) < i by {
                        assert(t0.lit_false(lits[m]));
                        let w = lits[m].var_spec();
                        assert(w != v);
                        let p = t0.position@[w as int];
                        assert(t1.position@[w as int] == p);
                        assert(t1.steps@[p as int] == t0.steps@[p as int]);
                    }
                },
                Reason::Binary(other) => {
                    assert(t0.lit_false(other));
                    let w = other.var_spec();
                    assert(w != v);
                    let p = t0.position@[w as int];
                    assert(t1.position@[w as int] == p);
                    assert(t1.steps@[p as int] == t0.steps@[p as int]);
                },
                _ => {},
            }
        }
    }
}

/// Justification of the trail depends only on the clauses, not on their metadata.
pub proof fn lemma_same_clauses_keep_reasons(trail: &Trail, c0: &Clauses, c1: &Clauses)
    requires
        reasons_ok(trail, c0),
        c0.wf(),
        same_clauses(c0, c1),
    ensures
        reasons_ok(trail, c1),
        c1.wf(),
{
    assert forall|i: int| 0 <= i < trail.steps@.len() implies #[trigger] reason_ok(trail, c1, i) by {
        assert(reason_ok(trail, c0, i));
        match trail.steps@[i].reason {
            Reason::Long(h) => {
                assert(c0.long.lits_of(h as int) == c1.long.lits_of(h as int));
            },
            _ => {},
        }
    }
    assert forall|h: int| #[trigger] c1.long.is_live(h) implies lits_in_range(
        c1.long.lits_of(h),
        c1.var_count as nat,
    ) && c1.long.lits_of(h).len() >= 3 by {
        assert(c0.long.lits_of(h) == c1.long.lits_of(h));
        assert(c0.long.is_live(h));
    }
}

impl Search {
    /// Assigns `lit`, forced by `reason`, at the current decision level.
    pub(crate) fn assign_forced(&mut self, lit: Lit, reason: Reason)
        requires
            old(self).wf(),
            lit.var_spec() < old(self).trail.var_count(),
            !old(self).trail.assigned(lit.var_spec()),
            match reason {
                Reason::Long(h) => {
                    let lits = old(self).clauses.long.lits_of(h as int);
                    &&& old(self).clauses.long.is_live(h as int)
                    &&& lits.contains(lit)
                    &&& forall|m: int|
                        0 <= m < lits.len() && lits[m] != lit ==> old(self).trail.lit_false(
                            #[trigger] lits[m],
                        )
                },
                Reason::Binary(other) => {
                    &&& other.var_spec() < old(self).trail.var_count()
                    &&& old(self).trail.lit_false(other)
                },
                _ => false,
            },
        ensures
            final(self).wf(),
            final(self).clauses == old(self).clauses,
            final(self).schedule == old(self).schedule,
            final(self).trail.level == old(self).trail.level,
            final(self).trail.steps@ == old(self).trail.steps@.push(
                Step { assigned_lit: lit, decision_level: old(self).trail.level, reason },
            ),
            final(self).trail.lit_true(lit),
            final(self).stats == old(self).stats,
    {
        let level = self.trail.level;
        let ghost t0 = self.trail;
        self.trail.assign(Step { assigned_lit: lit, decision_level: level, reason });
        proof {
            let n = t0.steps@.len() as int;
            assert forall|l: Lit| t0.lit_false(l) implies self.trail.lit_false(l) && self.trail.pos_of(l) < n by {
                assert(l.var_spec() != lit.var_spec());
            }
            match reason {
                Reason::Long(h) => {
                    let lits = self.clauses.long.lits_of(h as int);
                    assert forall|m: int|
                        0 <= m < lits.len() && lits[m] != lit implies self.trail.lit_false(
                            #[trigger] lits[m],
                        ) && self.trail.pos_of(lits[m]) < n by {
                        assert(t0.lit_false(lits[m]));
                    }
                },
                Reason::Binary(other) => {
                    assert(t0.lit_false(other));
                },
                _ => {},
            }
            assert(reason_ok(&self.trail, &self.clauses, n));
            lemma_push_keeps_reasons(&t0, &self.trail, &self.clauses);
        }
    }
}

/// Two trails with the same steps and positions settle the same binary clauses.
pub proof fn lemma_clause_ok_same_trail(t0: &Trail, t1: &Trail, c0: &Clauses, c1: &Clauses)
    requires
        t0.steps@ == t1.steps@,
        t0.position@ == t1.position@,
        c0.binary@ == c1.binary@,
    ensures
        forall|lits: Seq<Lit>| clause_ok(t0, lits) ==> #[trigger] clause_ok(t1, lits),
        forall|j: int|
            0 <= j < c0.binary@.len() && clause_ok(
                t0,
                seq![(#[trigger] c0.binary@[j]).0, c0.binary@[j].1],
            ) ==> clause_ok(t1, seq![c1.binary@[j].0, c1.binary@[j].1]),
{
    assert forall|lits: Seq<Lit>| clause_ok(t0, lits) implies #[trigger] clause_ok(t1, lits) by {
        assert forall|l: Lit| t0.lit_true(l) == t1.lit_true(l) && t0.lit_false(l) == t1.lit_false(l) by {}
    }
}

impl Search {
    /// Counts one more use of the long clause `h` in propagation.
    fn mark_used(&mut self, h: usize)
        requires
            old(self).wf(),
            h < old(self).clauses.long.clauses@.len(),
        ensures
            final(self).wf(),
            final(self).trail == old(self).trail,
            same_clauses(&old(self).clauses, &final(self).clauses),
            same_kinds(&old(self).clauses, &final(self).clauses),
            final(self).stats == old(self).stats,
            final(self).schedule == old(self).schedule,
    {
        let mut data = self.clauses.long.data(h);
        if data.used() < MAX_USED {
            data.set_used(data.used() + 1);
        }
        let ghost c0 = self.clauses;
        self.clauses.long.set_data(h, data);
        proof {
            assert forall|g: int| 0 <= g < c0.long.clauses@.len() implies #[trigger] c0.long.lits_of(g)
                == self.clauses.long.lits_of(g) && c0.long.is_live(g) == self.clauses.long.is_live(g) by {
                if g != h {
                    assert(c0.long.clauses@[g] == self.clauses.long.clauses@[g]);
                }
            }
            lemma_same_clauses_keep_reasons(&self.trail, &c0, &self.clauses);
            assert forall|g: int| 0 <= g < c0.long.clauses@.len() implies (#[trigger] c0.long.data_of(g)).redundant
                == self.clauses.long.data_of(g).redundant by {
                if g != h {
                    assert(c0.long.clauses@[g] == self.clauses.long.clauses@[g]);
                }
            }
        }
    }

    /// Counts one propagated literal.
    fn count_propagation(&mut self)
        ensures
            final(self).trail == old(self).trail,
            final(self).clauses == old(self).clauses,
            final(self).schedule == old(self).schedule,
            final(self).stats.rounds == old(self).stats.rounds,
    {
        if self.stats.propagations < u64::MAX {
            self.stats.propagations = self.stats.propagations + 1;
        }
    }

    /// Propagates the long clause `h`, if it is live.
    fn propagate_long(&mut self, h: usize) -> (r: Option<Vec<Lit>>)
        requires
            old(self).wf(),
            h < old(self).clauses.long.clauses@.len(),
        ensures
            final(self).wf(),
            same_clauses(&old(self).clauses, &final(self).clauses),
            same_kinds(&old(self).clauses, &final(self).clauses),
            final(self).trail.level == old(self).trail.level,
            final(self).trail.var_count() == old(self).trail.var_count(),
            final(self).trail.steps@.len() >= old(self).trail.steps@.len(),
            final(self).trail.steps@.take(old(self).trail.steps@.len() as int)
                == old(self).trail.steps@,
            final(self).schedule == old(self).schedule,
            final(self).stats.rounds == old(self).stats.rounds,
            match r {
                None => final(self).trail.steps@.len() == old(self).trail.steps@.len() ==> {
                    &&& final(self).trail.steps@ == old(self).trail.steps@
                    &&& final(self).trail.position@ == old(self).trail.position@
                    &&& final(self).clauses.long.is_live(h as int) ==> clause_ok(
                        &final(self).trail,
                        final(self).clauses.long.lits_of(h as int),
                    )
                },
                Some(c) => in_database(&final(self).clauses, c@) && all_false(
                    &final(self).trail,
                    c@,
                ) && lits_in_range(c@, final(self).trail.var_count()),
            },
    {
        if self.clauses.long.clauses[h].live {
            let ghost t0 = self.trail;
            assert(self.clauses.long.is_live(h as int));
            let status = clause_status(&self.trail, &self.clauses.long.clauses[h].lits);
            match status {
                ClauseStatus::Falsified => {
                    let conflict = copy_lits(self.clauses.long.lits(h));
                    self.mark_used(h);
                    proof {
                        assert(self.clauses.long.is_live(h as int));
                        assert(self.trail.steps@.take(t0.steps@.len() as int) =~= t0.steps@);
                    }
                    return Some(conflict);
                },
                ClauseStatus::Unit(u) => {
                    let lit = self.clauses.long.clauses[h].lits[u];
                    proof {
                        assert(self.clauses.long.lits_of(h as int)[u as int] == lit);
                    }
                    self.assign_forced(lit, Reason::Long(h));
                    self.count_propagation();
                    self.mark_used(h);
                    assert(self.trail.steps@.take(t0.steps@.len() as int) =~= t0.steps@);
                    return None;
                },
                ClauseStatus::Settled => {},
            }
        }
        assert(self.trail.steps@.take(self.trail.steps@.len() as int) =~= self.trail.steps@);
        None
    }

    /// Unit propagation: assigns every literal forced by a clause, until a fixpoint or a
    /// falsified clause.
    ///
    /// Returns `None` at a fixpoint, where every clause has a true literal or two literals that
    /// are not false; otherwise a copy of a clause of the database whose literals are all false.
    #[verifier::rlimit(100)]
    pub fn propagate(&mut self) -> (r: Option<Vec<Lit>>)
        requires
            old(self).wf(),
        ensures
            final(self).wf(),
            same_clauses(&old(self).clauses, &final(self).clauses),
            same_kinds(&old(self).clauses, &final(self).clauses),
            final(self).trail.level == old(self).trail.level,
            final(self).trail.var_count() == old(self).trail.var_count(),
            final(self).trail.steps@.len() >= old(self).trail.steps@.len(),
            final(self).trail.steps@.take(old(self).trail.steps@.len() as int)
                == old(self).trail.steps@,
            final(self).schedule == old(self).schedule,
            final(self).stats.rounds == old(self).stats.rounds,
            match r {
                None => fixpoint(&final(self).trail, &final(self).clauses),
                Some(c) => in_database(&final(self).clauses, c@) && all_false(
                    &final(self).trail,
                    c@,
                ) && lits_in_range(c@, final(self).trail.var_count()),
            },
    {
        let ghost start = self.trail.steps@;
        loop
            invariant
                self.wf(),
                same_clauses(&old(self).clauses, &self.clauses),
                same_kinds(&old(self).clauses, &self.clauses),
                self.trail.level == old(self).trail.level,
                self.trail.var_count() == old(self).trail.var_count(),
                self.trail.steps@.len() >= start.len(),
                self.trail.steps@.take(start.len() as int) == start,
                start == old(self).trail.steps@,
                self.schedule == old(self).schedule,
                self.stats.rounds == old(self).stats.rounds,
            decreases self.trail.var_count() - self.trail.steps@.len(),
        {
            proof {
                self.trail.lemma_steps_bounded();
            }
            let before = self.trail.steps.len();
            let ghost steps0 = self.trail.steps@;
            let ghost position0 = self.trail.position@;
            let mut k: usize = 0;
            while k < self.clauses.binary.len()
                invariant
                    self.wf(),
                    same_clauses(&old(self).clauses, &self.clauses),
                    same_kinds(&old(self).clauses, &self.clauses),
                    self.trail.level == old(self).trail.level,
                    self.trail.var_count() == old(self).trail.var_count(),
                    self.trail.steps@.len() >= before,
                    self.trail.steps@.take(before as int) == steps0,
                    before == steps0.len(),
                    steps0.take(start.len() as int) == start,
                    steps0.len() >= start.len(),
                    start == old(self).trail.steps@,
                    self.schedule == old(self).schedule,
                    self.stats.rounds == old(self).stats.rounds,
                    self.trail.steps@.len() == before ==> self.trail.steps@ == steps0
                        && self.trail.position@ == position0 && forall|j: int|
                        0 <= j < k ==> clause_ok(
                            &self.trail,
                            seq![(#[trigger] self.clauses.binary@[j]).0, self.clauses.binary@[j].1],
                        ),
                decreases self.clauses.binary@.len() - k,
            {
                let (a, b) = self.clauses.binary[k];
                let pair = vec![a, b];
                assert(pair@ == seq![a, b]);
                let ghost t0 = self.trail;
                match clause_status(&self.trail, &pair) {
                    ClauseStatus::Falsified => {
                        proof {
                            assert(self.clauses.binary@[k as int] == (a, b));
                            assert(in_database(&self.clauses, pair@));
                            assert(self.trail.steps@.take(start.len() as int) == start);
                        }
                        return Some(pair);
                    },
                    ClauseStatus::Unit(u) => {
                        let (lit, other) = if u == 0 {
                            (a, b)
                        } else {
                            (b, a)
                        };
                        self.assign_forced(lit, Reason::Binary(other));
                        self.count_propagation();
                        assert(self.trail.steps@.take(before as int) == steps0) by {
                            assert(self.trail.steps@.take(before as int) =~= t0.steps@.take(before as int));
                        }
                    },
                    ClauseStatus::Settled => {},
                }
                k = k + 1;
            }
            let mut h: usize = 0;
            while h < self.clauses.long.clauses.len()
                invariant
                    self.wf(),
                    same_clauses(&old(self).clauses, &self.clauses),
                    same_kinds(&old(self).clauses, &self.clauses),
                    self.trail.level == old(self).trail.level,
                    self.trail.var_count() == old(self).trail.var_count(),
                    self.trail.steps@.len() >= before,
                    self.trail.steps@.take(before as int) == steps0,
                    before == steps0.len(),
                    steps0.take(start.len() as int) == start,
                    steps0.len() >= start.len(),
                    start == old(self).trail.steps@,
                    self.schedule == old(self).schedule,
                    self.stats.rounds == old(self).stats.rounds,
                    self.trail.steps@.len() == before ==> self.trail.steps@ == steps0
                        && self.trail.position@ == position0 && (forall|j: int|
                        0 <= j < self.clauses.binary@.len() ==> clause_ok(
                            &self.trail,
                            seq![(#[trigger] self.clauses.binary@[j]).0, self.clauses.binary@[j].1],
                        )) && forall|g: int|
                        0 <= g < h && #[trigger] self.clauses.long.is_live(g) ==> clause_ok(
                            &self.trail,
                            self.clauses.long.lits_of(g),
                        ),
                decreases self.clauses.long.clauses@.len() - h,
            {
                let ghost t0 = self.trail;
                let ghost c0 = self.clauses;
                match self.propagate_long(h) {
                    Some(conflict) => {
                        proof {
                            assert(self.trail.steps@.take(start.len() as int) == start) by {
                                assert(self.trail.steps@.take(start.len() as int) =~= self.trail.steps@.take(before as int).take(start.len() as int));
                            }
                        }
                        return Some(conflict);
                    },
                    None => {
                        assert(self.trail.steps@.take(before as int) == steps0) by {
                            assert(self.trail.steps@.take(before as int) =~= self.trail.steps@.take(t0.steps@.len() as int).take(before as int));
                        }
                        proof {
                            if self.trail.steps@.len() == before {
                                lemma_clause_ok_same_trail(&t0, &self.trail, &c0, &self.clauses);
                                assert forall|g: int| 0 <= g <= h && #[trigger] self.clauses.long.is_live(g) implies clause_ok(
                                    &self.trail,
                                    self.clauses.long.lits_of(g),
                                ) by {
                                    assert(c0.long.lits_of(g) == self.clauses.long.lits_of(g));
                                    assert(c0.long.is_live(g));
                                }
                            }
                        }
                    },
                }
                h = h + 1;
            }
            if self.trail.steps.len() == before {
                return None;
            }
            assert(self.trail.steps@.take(start.len() as int) == start) by {
                assert(self.trail.steps@.take(start.len() as int) =~= self.trail.steps@.take(before as int).take(start.len() as int));
            }
            proof {
                self.trail.lemma_steps_bounded();
            }
        }
    }
}

} // verus!
