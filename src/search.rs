//! The search state shared by propagation, conflict analysis and reduction, and its invariants.
use vstd::prelude::*;

use crate::analyze::{learned_ok, Learned};
use crate::clauses::{lits_in_range, Clauses, SolverClauseData};
use crate::lit::Lit;
use crate::propagate::lemma_push_keeps_reasons;
use crate::trail::{Reason, Step, Trail};

verus! {

/// Counters of the work done by the search.
#[derive(Copy, Clone, Debug)]
pub struct Stats {
    /// Conflicts found by propagation.
    pub conflicts: u64,
    /// Decisions made.
    pub decisions: u64,
    /// Literals assigned by propagation.
    pub propagations: u64,
    /// Rounds of the search loop: each propagates once, then decides or learns.
    pub rounds: u64,
}

/// When to restart and when to reduce the clause database, counted in conflicts.
#[derive(Copy, Clone, Debug)]
pub struct Schedule {
    /// Conflicts between two restarts.
    pub restart_interval: u64,
    /// The conflict count at which the next reduction happens.
    pub next_reduce: u64,
    /// Conflicts between the last reduction and the next one.
    pub reduce_interval: u64,
    /// How much the reduction interval grows after each reduction.
    pub reduce_increment: u64,
}

/// The state of one search: trail, clause database, counters and schedule.
pub struct Search {
    /// The assignment trail.
    pub trail: Trail,
    /// The clause database.
    pub clauses: Clauses,
    /// Work counters.
    pub stats: Stats,
    /// Restart and reduction schedule.
    pub schedule: Schedule,
}

/// The `i`-th step of the trail is justified: a long reason is a live clause that holds the
/// assigned literal and whose other literals are false and assigned earlier; a binary reason's
/// other literal is false and assigned earlier.
pub open spec fn reason_ok(trail: &Trail, clauses: &Clauses, i: int) -> bool {
    let step = trail.steps@[i];
    match step.reason {
        Reason::Long(h) => {
            let lits = clauses.long.lits_of(h as int);
            &&& clauses.long.is_live(h as int)
            &&& lits.contains(step.assigned_lit)
            &&& forall|m: int|
                0 <= m < lits.len() && lits[m] != step.assigned_lit ==> trail.lit_false(
                    #[trigger] lits[m],
                ) && trail.pos_of(lits[m]) < i
        },
        Reason::Binary(other) => {
            &&& other.var_spec() < trail.var_count()
            &&& trail.lit_false(other)
            &&& trail.pos_of(other) < i
        },
        _ => true,
    }
}

/// Every step of the trail is justified.
pub open spec fn reasons_ok(trail: &Trail, clauses: &Clauses) -> bool {
    forall|i: int| 0 <= i < trail.steps@.len() ==> #[trigger] reason_ok(trail, clauses, i)
}

/// The clause `lits` needs no propagation: a literal is true, or two literals are not false.
pub open spec fn clause_ok(trail: &Trail, lits: Seq<Lit>) -> bool {
    (exists|k: int| 0 <= k < lits.len() && trail.lit_true(#[trigger] lits[k])) || (exists|
        k1: int,
        k2: int,
    |
        0 <= k1 < lits.len() && 0 <= k2 < lits.len() && k1 != k2 && !trail.lit_false(
            #[trigger] lits[k1],
        ) && !trail.lit_false(#[trigger] lits[k2]))
}

/// Every literal of `lits` is false.
pub open spec fn all_false(trail: &Trail, lits: Seq<Lit>) -> bool {
    forall|k: int| 0 <= k < lits.len() ==> trail.lit_false(#[trigger] lits[k])
}

/// Every clause of the database needs no propagation.
pub open spec fn fixpoint(trail: &Trail, clauses: &Clauses) -> bool {
    &&& forall|k: int|
        0 <= k < clauses.binary@.len() ==> clause_ok(
            trail,
            seq![(#[trigger] clauses.binary@[k]).0, clauses.binary@[k].1],
        )
    &&& forall|h: int| #[trigger] clauses.long.is_live(h) ==> clause_ok(trail, clauses.long.lits_of(h))
}

/// `lits` is a clause of the database: a binary pair or a live long clause.
pub open spec fn in_database(clauses: &Clauses, lits: Seq<Lit>) -> bool {
    (exists|k: int|
        0 <= k < clauses.binary@.len() && lits == seq![
            (#[trigger] clauses.binary@[k]).0,
            clauses.binary@[k].1,
        ]) || (exists|h: int| #[trigger] clauses.long.is_live(h) && lits == clauses.long.lits_of(h))
}

/// The two databases hold the same clauses; only metadata may differ.
pub open spec fn same_clauses(a: &Clauses, b: &Clauses) -> bool {
    &&& a.binary@ == b.binary@
    &&& a.var_count == b.var_count
    &&& a.long.clauses@.len() == b.long.clauses@.len()
    &&& forall|g: int|
        0 <= g < a.long.clauses@.len() ==> #[trigger] a.long.lits_of(g) == b.long.lits_of(g)
            && a.long.is_live(g) == b.long.is_live(g)
}

/// The two databases agree on which long clauses are learned.
pub open spec fn same_kinds(a: &Clauses, b: &Clauses) -> bool {
    &&& a.long.clauses@.len() == b.long.clauses@.len()
    &&& forall|g: int|
        0 <= g < a.long.clauses@.len() ==> (#[trigger] a.long.data_of(g)).redundant
            == b.long.data_of(g).redundant
}

impl Search {
    /// Trail and database agree on the variable count, both are consistent, and every trail
    /// step is justified.
    pub open spec fn wf(&self) -> bool {
        &&& self.trail.wf()
        &&& self.clauses.wf()
        &&& self.trail.var_count() == self.clauses.var_count
        &&& reasons_ok(&self.trail, &self.clauses)
    }
}

/// Every clause of the database has a true literal.
pub open spec fn satisfied(trail: &Trail, clauses: &Clauses) -> bool {
    &&& forall|k: int|
        0 <= k < clauses.binary@.len() ==> trail.lit_true((#[trigger] clauses.binary@[k]).0)
            || trail.lit_true(clauses.binary@[k].1)
    &&& forall|h: int|
        #[trigger] clauses.long.is_live(h) ==> exists|k: int|
            0 <= k < clauses.long.lits_of(h).len() && trail.lit_true(
                #[trigger] clauses.long.lits_of(h)[k],
            )
}

/// `c1` holds every clause of `c0`, unchanged, and possibly more.
pub open spec fn extends(c0: &Clauses, c1: &Clauses) -> bool {
    &&& c1.var_count == c0.var_count
    &&& c0.binary@.len() <= c1.binary@.len()
    &&& c1.binary@.take(c0.binary@.len() as int) == c0.binary@
    &&& c0.long.clauses@.len() <= c1.long.clauses@.len()
    &&& forall|g: int|
        0 <= g < c0.long.clauses@.len() ==> #[trigger] c1.long.clauses@[g] == c0.long.clauses@[g]
}

/// Shortening the trail to a prefix keeps the remaining steps justified, and literals false
/// through a remaining step stay false.
pub proof fn lemma_backtrack_keeps_reasons(t0: &Trail, t1: &Trail, clauses: &Clauses)
    requires
        t0.wf(),
        t1.wf(),
        reasons_ok(t0, clauses),
        t1.position@ == t0.position@,
        t1.steps@.len() <= t0.steps@.len(),
        t1.steps@ == t0.steps@.take(t1.steps@.len() as int),
    ensures
        reasons_ok(t1, clauses),
        forall|l: Lit|
            #[trigger] t0.lit_false(l) && t0.pos_of(l) < t1.steps@.len() ==> t1.lit_false(l),
{
    assert forall|l: Lit| #[trigger] t0.lit_false(l) && t0.pos_of(l) < t1.steps@.len() implies t1.lit_false(l) by {
        let p = t0.pos_of(l);
        assert(t1.steps@[p] == t0.steps@[p]);
    }
    assert forall|i: int| 0 <= i < t1.steps@.len() implies #[trigger] reason_ok(t1, clauses, i) by {
        assert(reason_ok(t0, clauses, i));
        assert(t1.steps@[i] == t0.steps@[i]);
        let step = t0.steps@[i];
        match step.reason {
            Reason::Long(h) => {
                let lits = clauses.long.lits_of(h as int);
                assert forall|m: int|
                    0 <= m < lits.len() && lits[m] != step.assigned_lit implies t1.lit_false(
                        #[trigger] lits[m],
                    ) && t1.pos_of(lits[m]) < i by {
                    assert(t0.lit_false(lits[m]));
                }
            },
            Reason::Binary(other) => {
                assert(t0.lit_false(other));
            },
            _ => {},
        }
    }
}

/// Adding clauses keeps every trail step justified.
pub proof fn lemma_extends_keeps_reasons(trail: &Trail, c0: &Clauses, c1: &Clauses)
    requires
        reasons_ok(trail, c0),
        extends(c0, c1),
    ensures
        reasons_ok(trail, c1),
{
    assert forall|i: int| 0 <= i < trail.steps@.len() implies #[trigger] reason_ok(trail, c1, i) by {
        assert(reason_ok(trail, c0, i));
        match trail.steps@[i].reason {
            Reason::Long(h) => {
                assert(c1.long.clauses@[h as int] == c0.long.clauses@[h as int]);
            },
            _ => {},
        }
    }
}

impl Search {
    /// An empty search over `var_count` variables.
    #[verifier::rlimit(100)]
    pub fn new(var_count: usize) -> (r: Search)
        requires
            var_count <= crate::lit::MAX_VAR_COUNT,
        ensures
            r.wf(),
            r.trail.var_count() == var_count,
            r.trail.steps@.len() == 0,
            r.trail.level == 0,
            r.clauses.binary@.len() == 0,
            r.clauses.long.clauses@.len() == 0,
    {
        let trail = Trail::new(var_count);
        let clauses = Clauses::new(var_count);
        assert(reasons_ok(&trail, &clauses));
        Search {
            trail,
            clauses,
            stats: Stats { conflicts: 0, decisions: 0, propagations: 0, rounds: 0 },
            schedule: Schedule {
                restart_interval: 512,
                next_reduce: 2000,
                reduce_interval: 2000,
                reduce_increment: 300,
            },
        }
    }

    /// Backjumps to the learned clause's backjump level, adds the clause to the database as a
    /// learned clause and assigns its first literal with the clause as reason (a unit clause
    /// becomes a level 0 assignment).
    pub fn learn(&mut self, learned: Learned)
        requires
            old(self).wf(),
            learned_ok(
                &old(self).trail,
                learned.lits@,
                learned.backjump as nat,
                old(self).trail.level as nat,
            ),
        ensures
            final(self).wf(),
            extends(&old(self).clauses, &final(self).clauses),
            final(self).trail.level == learned.backjump,
            final(self).trail.lit_true(learned.lits@[0]),
            final(self).trail.steps@.len() > 0,
            final(self).trail.steps@.last().assigned_lit == learned.lits@[0],
            learned.lits@.len() == 1 ==> final(self).trail.steps@.last().reason == Reason::Unit,
            learned.lits@.len() == 2 ==> final(self).trail.steps@.last().reason == Reason::Binary(learned.lits@[1])
                && final(self).clauses.binary@ == old(self).clauses.binary@.push((learned.lits@[0], learned.lits@[1])),
            learned.lits@.len() > 2 ==> final(self).trail.steps@.last().reason == Reason::Long(
                old(self).clauses.long.clauses@.len() as usize,
            ) && final(self).clauses.long.lits_of(old(self).clauses.long.clauses@.len() as int) == learned.lits@
                && final(self).clauses.long.data_of(old(self).clauses.long.clauses@.len() as int).redundant,
            final(self).stats == old(self).stats,
            final(self).schedule == old(self).schedule,
    {
        let ghost t0 = self.trail;
        let ghost c0 = self.clauses;
        self.trail.backtrack(learned.backjump);
        proof {
            lemma_backtrack_keeps_reasons(&t0, &self.trail, &self.clauses);
            assert forall|k: int| 1 <= k < learned.lits@.len() implies self.trail.lit_false(
                #[trigger] learned.lits@[k],
            ) by {
                let l = learned.lits@[k];
                assert(t0.lit_false(l));
                assert(t0.assigned(l.var_spec()));
                assert(self.trail.assigned(l.var_spec()));
                let p = t0.pos_of(l);
                assert(self.trail.steps@[p] == t0.steps@[p]);
            }
            let l0 = learned.lits@[0];
            assert(t0.lit_false(l0));
            assert(t0.assigned(l0.var_spec()));
            assert(!self.trail.assigned(l0.var_spec()));
        }
        self.push_learned(&learned.lits, learned.glue);
    }

    /// Adds the learned clause `lits` with the given glue to the database and assigns its first
    /// literal, which is unassigned while all others are false, with the clause as reason.
    fn push_learned(&mut self, lits: &Vec<Lit>, glue: usize)
        requires
            old(self).wf(),
            lits@.len() >= 1,
            lits_in_range(lits@, old(self).trail.var_count()),
            !old(self).trail.assigned(lits@[0].var_spec()),
            forall|k: int| 1 <= k < lits@.len() ==> old(self).trail.lit_false(#[trigger] lits@[k]),
            lits@.len() == 1 ==> old(self).trail.level == 0,
        ensures
            final(self).wf(),
            extends(&old(self).clauses, &final(self).clauses),
            final(self).trail.level == old(self).trail.level,
            final(self).trail.lit_true(lits@[0]),
            final(self).trail.steps@.len() > 0,
            final(self).trail.steps@.last().assigned_lit == lits@[0],
            lits@.len() == 1 ==> final(self).trail.steps@.last().reason == Reason::Unit,
            lits@.len() == 2 ==> final(self).trail.steps@.last().reason == Reason::Binary(lits@[1])
                && final(self).clauses.binary@ == old(self).clauses.binary@.push((lits@[0], lits@[1])),
            lits@.len() > 2 ==> final(self).trail.steps@.last().reason == Reason::Long(
                old(self).clauses.long.clauses@.len() as usize,
            ) && final(self).clauses.long.lits_of(old(self).clauses.long.clauses@.len() as int) == lits@
                && final(self).clauses.long.data_of(old(self).clauses.long.clauses@.len() as int).redundant,
            final(self).stats == old(self).stats,
            final(self).schedule == old(self).schedule,
    {
        let ghost c0 = self.clauses;
        let lit = lits[0];
        let n = lits.len();
        if n == 1 {
            let level = self.trail.level;
            let ghost t1 = self.trail;
            self.trail.assign(Step { assigned_lit: lit, decision_level: level, reason: Reason::Unit });
            proof {
                assert(self.clauses.binary@.take(c0.binary@.len() as int) =~= c0.binary@);
                lemma_push_keeps_reasons(&t1, &self.trail, &self.clauses);
            }
        } else {
            let data = SolverClauseData::new_learned_clause(glue);
            let added = self.clauses.add_clause(data, lits.as_slice());
            proof {
                assert(extends(&c0, &self.clauses)) by {
                    if n == 2 {
                        assert(self.clauses.binary@.take(c0.binary@.len() as int) =~= c0.binary@);
                    } else {
                        assert(self.clauses.binary@.take(c0.binary@.len() as int) =~= c0.binary@);
                    }
                }
                lemma_extends_keeps_reasons(&self.trail, &c0, &self.clauses);
            }
            match added {
                None => {
                    let other = lits[1];
                    self.assign_forced(lit, Reason::Binary(other));
                },
                Some(h) => {
                    proof {
                        assert(n != 2);
                        assert(self.clauses.long.lits_of(h as int) == lits@);
                        assert(lits@[0] == lit);
                        assert forall|m: int|
                            0 <= m < lits@.len() && lits@[m] != lit implies self.trail.lit_false(
                                #[trigger] lits@[m],
                            ) by {
                            assert(m != 0);
                        }
                    }
                    self.assign_forced(lit, Reason::Long(h));
                },
            }
        }
    }

    /// Backtracks to decision level `level`, keeping all clauses. Literals false at a level up
    /// to `level` stay false, at the same level.
    pub fn backtrack_to(&mut self, level: usize)
        requires
            old(self).wf(),
            level <= old(self).trail.level,
        ensures
            final(self).wf(),
            final(self).clauses == old(self).clauses,
            final(self).trail.level == level,
            final(self).trail.var_count() == old(self).trail.var_count(),
            final(self).stats == old(self).stats,
            final(self).schedule == old(self).schedule,
            forall|l: Lit|
                #[trigger] old(self).trail.lit_false(l) && old(self).trail.level_of(l.var_spec())
                    <= level ==> final(self).trail.lit_false(l) && final(self).trail.level_of(
                    l.var_spec(),
                ) == old(self).trail.level_of(l.var_spec()),
    {
        let ghost t0 = self.trail;
        self.trail.backtrack(level);
        proof {
            lemma_backtrack_keeps_reasons(&t0, &self.trail, &self.clauses);
            assert forall|l: Lit|
                #[trigger] t0.lit_false(l) && t0.level_of(l.var_spec()) <= level implies self.trail.lit_false(l)
                    && self.trail.level_of(l.var_spec()) == t0.level_of(l.var_spec()) by {
                assert(t0.assigned(l.var_spec()));
                let p = t0.pos_of(l);
                assert(self.trail.steps@[p] == t0.steps@[p]);
            }
        }
    }

    /// Counts one round of the search loop, saturating at `u64::MAX`.
    pub fn count_round(&mut self)
        ensures
            final(self).trail == old(self).trail,
            final(self).clauses == old(self).clauses,
            final(self).schedule == old(self).schedule,
            final(self).stats.rounds == if old(self).stats.rounds < u64::MAX {
                (old(self).stats.rounds + 1) as u64
            } else {
                u64::MAX
            },
    {
        if self.stats.rounds < u64::MAX {
            self.stats.rounds = self.stats.rounds + 1;
        }
    }

    /// Abandons every decision: backtracks to decision level 0, keeping all clauses.
    pub fn restart(&mut self)
        requires
            old(self).wf(),
        ensures
            final(self).wf(),
            final(self).clauses == old(self).clauses,
            final(self).trail.level == 0,
            final(self).trail.var_count() == old(self).trail.var_count(),
            final(self).stats == old(self).stats,
    {
        let ghost t0 = self.trail;
        self.trail.backtrack(0);
        proof {
            lemma_backtrack_keeps_reasons(&t0, &self.trail, &self.clauses);
        }
    }

    /// Opens a new decision level with `lit` as its decision.
    pub fn decide(&mut self, lit: Lit)
        requires
            old(self).wf(),
            lit.var_spec() < old(self).trail.var_count(),
            !old(self).trail.assigned(lit.var_spec()),
        ensures
            final(self).wf(),
            final(self).clauses == old(self).clauses,
            final(self).schedule == old(self).schedule,
            final(self).trail.level == old(self).trail.level + 1,
            final(self).trail.lit_true(lit),
            final(self).stats.rounds == old(self).stats.rounds,
    {
        let ghost t0 = self.trail;
        self.trail.decide(lit);
        if self.stats.decisions < u64::MAX {
            self.stats.decisions = self.stats.decisions + 1;
        }
        proof {
            assert(reason_ok(&self.trail, &self.clauses, t0.steps@.len() as int));
            lemma_push_keeps_reasons(&t0, &self.trail, &self.clauses);
        }
    }

    /// Decides the first unassigned variable, negatively, at a new decision level; returns
    /// false, changing nothing, when every variable is assigned.
    pub fn decide_next(&mut self) -> (r: bool)
        requires
            old(self).wf(),
        ensures
            final(self).wf(),
            final(self).clauses == old(self).clauses,
            final(self).schedule == old(self).schedule,
            r ==> final(self).trail.level == old(self).trail.level + 1,
            final(self).stats.rounds == old(self).stats.rounds,
            !r ==> final(self).trail == old(self).trail && forall|v: nat|
                v < old(self).trail.var_count() ==> #[trigger] old(self).trail.assigned(v),
    {
        match self.trail.first_unassigned() {
            None => false,
            Some(index) => {
                let lit = Lit::from_index(index, false);
                assert(lit.var_spec() == index);
                self.decide(lit);
                true
            },
        }
    }
}

} // verus!
