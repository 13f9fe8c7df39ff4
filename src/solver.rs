//! The top-level solver: loading a formula and the search loop.
use vstd::prelude::*;

use crate::clauses::{lits_in_range, Clauses, SolverClauseData};
use crate::lit::{Lit, Var};
use crate::reduce::{must_keep, ReduceOps};
use crate::search::{
    all_false, clause_ok, extends, fixpoint, in_database, lemma_extends_keeps_reasons, satisfied,
    Search,
};
use crate::trail::{Reason, Step, Trail};

verus! {

/// The outcome of a bounded search.
#[derive(Copy, Clone, PartialEq, Eq, Structural, Debug)]
pub enum Verdict {
    /// Every clause is satisfied by the assignment on the trail.
    Sat,
    /// The formula has no satisfying assignment.
    Unsat,
    /// The budget of search rounds ran out first.
    Unknown,
}

/// Every input clause of `c0` (a binary clause, or a live long clause that was not learned) is
/// still in `c1`, unchanged and not learned.
pub open spec fn inputs_kept(c0: &Clauses, c1: &Clauses) -> bool {
    &&& c1.var_count == c0.var_count
    &&& c0.binary@.len() <= c1.binary@.len()
    &&& c1.binary@.take(c0.binary@.len() as int) == c0.binary@
    &&& c0.long.clauses@.len() <= c1.long.clauses@.len()
    &&& forall|g: int|
        #[trigger] c0.long.is_live(g) && !c0.long.data_of(g).redundant ==> c1.long.is_live(g)
            && c1.long.lits_of(g) == c0.long.lits_of(g) && !c1.long.data_of(g).redundant
}

/// Keeping the input clauses is transitive.
pub proof fn lemma_inputs_kept_trans(c0: &Clauses, c1: &Clauses, c2: &Clauses)
    requires
        inputs_kept(c0, c1),
        inputs_kept(c1, c2),
    ensures
        inputs_kept(c0, c2),
{
    assert(c2.binary@.take(c0.binary@.len() as int) =~= c2.binary@.take(c1.binary@.len() as int).take(
        c0.binary@.len() as int,
    ));
    assert forall|g: int| #[trigger] c0.long.is_live(g) && !c0.long.data_of(g).redundant implies c2.long.is_live(g)
        && c2.long.lits_of(g) == c0.long.lits_of(g) && !c2.long.data_of(g).redundant by {
        assert(c1.long.is_live(g));
    }
}

/// A database with the same clauses and kinds keeps the input clauses.
pub proof fn lemma_same_keeps_inputs(c0: &Clauses, c1: &Clauses)
    requires
        crate::search::same_clauses(c0, c1),
        crate::search::same_kinds(c0, c1),
    ensures
        inputs_kept(c0, c1),
{
    assert(c1.binary@.take(c0.binary@.len() as int) =~= c0.binary@);
    assert forall|g: int| #[trigger] c0.long.is_live(g) && !c0.long.data_of(g).redundant implies c1.long.is_live(g)
        && c1.long.lits_of(g) == c0.long.lits_of(g) && !c1.long.data_of(g).redundant by {
        assert(c0.long.lits_of(g) == c1.long.lits_of(g));
        assert(c0.long.data_of(g).redundant == c1.long.data_of(g).redundant);
    }
}

/// At a fixpoint of propagation where every variable is assigned, every clause has a true
/// literal.
pub proof fn lemma_complete_fixpoint_satisfies(trail: &Trail, clauses: &Clauses)
    requires
        trail.wf(),
        clauses.wf(),
        trail.var_count() == clauses.var_count,
        fixpoint(trail, clauses),
        forall|v: nat| v < trail.var_count() ==> #[trigger] trail.assigned(v),
    ensures
        satisfied(trail, clauses),
{
    assert forall|k: int| 0 <= k < clauses.binary@.len() implies trail.lit_true(
        (#[trigger] clauses.binary@[k]).0,
    ) || trail.lit_true(clauses.binary@[k].1) by {
        let (a, b) = clauses.binary@[k];
        let pair = seq![a, b];
        assert(clause_ok(trail, pair));
        assert(trail.assigned(a.var_spec()));
        assert(trail.assigned(b.var_spec()));
        assert(pair[0] == a && pair[1] == b);
    }
    assert forall|h: int| #[trigger] clauses.long.is_live(h) implies exists|k: int|
        0 <= k < clauses.long.lits_of(h).len() && trail.lit_true(
            #[trigger] clauses.long.lits_of(h)[k],
        ) by {
        let lits = clauses.long.lits_of(h);
        assert(clause_ok(trail, lits));
        if !(exists|k: int| 0 <= k < lits.len() && trail.lit_true(#[trigger] lits[k])) {
            let (k1, k2) = choose|k1: int, k2: int|
                0 <= k1 < lits.len() && 0 <= k2 < lits.len() && k1 != k2 && !trail.lit_false(
                    #[trigger] lits[k1],
                ) && !trail.lit_false(#[trigger] lits[k2]);
            assert(trail.assigned(lits[k1].var_spec()));
            assert(trail.lit_true(lits[k1]));
        }
    }
}

/// A SAT solver: a formula is loaded with `set_var_count` and `add_clause`, then `solve` decides
/// it.
pub struct Solver {
    /// Search state: trail, clause database, counters.
    pub search: Search,
    /// Clause database reduction state.
    pub reduce_ops: ReduceOps,
    /// Set once the input holds an empty clause or two opposite unit clauses.
    pub inconsistent: bool,
}

impl Solver {
    /// The solver is ready for loading: its search is consistent and at decision level 0.
    pub open spec fn loading(&self) -> bool {
        self.search.wf() && self.search.trail.level == 0
    }

    /// A solver for the empty formula over no variables.
    pub fn new() -> (r: Solver)
        ensures
            r.loading(),
            !r.inconsistent,
            r.search.trail.var_count() == 0,
    {
        Solver { search: Search::new(0), reduce_ops: ReduceOps::new(), inconsistent: false }
    }

    /// Starts over with an empty formula over `count` variables.
    pub fn set_var_count(&mut self, count: usize)
        requires
            count <= crate::lit::MAX_VAR_COUNT,
        ensures
            final(self).loading(),
            !final(self).inconsistent,
            final(self).search.trail.var_count() == count,
            final(self).search.trail.steps@.len() == 0,
            final(self).search.clauses.binary@.len() == 0,
            final(self).search.clauses.long.clauses@.len() == 0,
    {
        self.search = Search::new(count);
        self.inconsistent = false;
    }

    /// The number of variables.
    pub fn var_count(&self) -> (r: usize)
        ensures
            r == self.search.trail.var_count(),
    {
        self.search.trail.position.len()
    }

    /// Adds a unit clause of the input: `lit` becomes true at level 0, unless it already is;
    /// if it is false, the formula is marked inconsistent.
    pub fn add_unit(&mut self, lit: Lit)
        requires
            old(self).loading(),
            lit.var_spec() < old(self).search.trail.var_count(),
        ensures
            final(self).loading(),
            final(self).search.clauses == old(self).search.clauses,
            final(self).search.trail.var_count() == old(self).search.trail.var_count(),
            final(self).inconsistent == (old(self).inconsistent || old(self).search.trail.lit_false(
                lit,
            )),
            !old(self).search.trail.lit_false(lit) ==> final(self).search.trail.lit_true(lit),
    {
        if self.search.trail.is_false(lit) {
            self.inconsistent = true;
        } else if !self.search.trail.is_true(lit) {
            let ghost t0 = self.search.trail;
            self.search.trail.assign(Step { assigned_lit: lit, decision_level: 0, reason: Reason::Unit });
            proof {
                crate::propagate::lemma_push_keeps_reasons(&t0, &self.search.trail, &self.search.clauses);
            }
        }
    }

    /// Adds a clause of the input: an empty clause makes the formula inconsistent, a unit clause
    /// is assigned as by `add_unit`, longer clauses go to the database as input clauses.
    #[verifier::rlimit(100)]
    pub fn add_clause(&mut self, lits: &[Lit])
        requires
            old(self).loading(),
            lits_in_range(lits@, old(self).search.trail.var_count()),
        ensures
            final(self).loading(),
            final(self).search.trail.var_count() == old(self).search.trail.var_count(),
            lits@.len() == 0 ==> final(self).inconsistent,
            lits@.len() == 1 ==> final(self).inconsistent == (old(self).inconsistent
                || old(self).search.trail.lit_false(lits@[0])),
            lits@.len() >= 2 ==> final(self).inconsistent == old(self).inconsistent,
            lits@.len() == 2 ==> final(self).search.clauses.binary@
                == old(self).search.clauses.binary@.push((lits@[0], lits@[1])),
            lits@.len() > 2 ==> exists|h: int|
                #[trigger] final(self).search.clauses.long.is_live(h)
                    && final(self).search.clauses.long.lits_of(h) == lits@
                    && !final(self).search.clauses.long.data_of(h).redundant,
            extends(&old(self).search.clauses, &final(self).search.clauses),
    {
        if lits.len() == 0 {
            self.inconsistent = true;
            proof {
                assert(self.search.clauses.binary@.take(self.search.clauses.binary@.len() as int) =~= self.search.clauses.binary@);
            }
        } else if lits.len() == 1 {
            self.add_unit(lits[0]);
            proof {
                assert(self.search.clauses.binary@.take(self.search.clauses.binary@.len() as int) =~= self.search.clauses.binary@);
            }
        } else {
            self.add_input_clause(lits);
        }
    }

    /// Adds an input clause of two or more literals to the database.
    fn add_input_clause(&mut self, lits: &[Lit])
        requires
            old(self).loading(),
            lits@.len() >= 2,
            lits_in_range(lits@, old(self).search.trail.var_count()),
        ensures
            final(self).loading(),
            final(self).search.trail == old(self).search.trail,
            final(self).inconsistent == old(self).inconsistent,
            lits@.len() == 2 ==> final(self).search.clauses.binary@
                == old(self).search.clauses.binary@.push((lits@[0], lits@[1])),
            lits@.len() > 2 ==> exists|h: int|
                #[trigger] final(self).search.clauses.long.is_live(h)
                    && final(self).search.clauses.long.lits_of(h) == lits@
                    && !final(self).search.clauses.long.data_of(h).redundant,
            extends(&old(self).search.clauses, &final(self).search.clauses),
    {
        let ghost c0 = self.search.clauses;
        let added = self.search.clauses.add_clause(SolverClauseData::new_input_clause(), lits);
        proof {
            assert(self.search.clauses.binary@.take(c0.binary@.len() as int) =~= c0.binary@);
            lemma_extends_keeps_reasons(&self.search.trail, &c0, &self.search.clauses);
            if lits@.len() > 2 {
                let h = added.unwrap() as int;
                assert(self.search.clauses.long.is_live(h));
            }
        }
    }

    /// The value of variable `var` on the trail, if it is assigned.
    pub fn value(&self, var: Var) -> (r: Option<bool>)
        requires
            self.search.wf(),
            var@ < self.search.trail.var_count(),
        ensures
            r == if self.search.trail.assigned(var@) {
                Some(self.search.trail.step_of(var@).assigned_lit.positive_spec())
            } else {
                None::<bool>
            },
    {
        if self.search.trail.is_assigned(var) {
            let pos = self.search.trail.position[var.index()];
            Some(self.search.trail.steps[pos].assigned_lit.is_positive())
        } else {
            None
        }
    }

    /// Counts a conflict, and tells whether the schedule asks for a reduction now.
    fn count_conflict(&mut self) -> (reduce: bool)
        ensures
            final(self).search.trail == old(self).search.trail,
            final(self).search.clauses == old(self).search.clauses,
            final(self).reduce_ops == old(self).reduce_ops,
            final(self).inconsistent == old(self).inconsistent,
            final(self).search.stats.rounds == old(self).search.stats.rounds,
    {
        if self.search.stats.conflicts < u64::MAX {
            self.search.stats.conflicts = self.search.stats.conflicts + 1;
        }
        let conflicts = self.search.stats.conflicts;
        if conflicts >= self.search.schedule.next_reduce {
            let schedule = &mut self.search.schedule;
            if schedule.reduce_interval <= u64::MAX - schedule.reduce_increment {
                schedule.reduce_interval = schedule.reduce_interval + schedule.reduce_increment;
            }
            if conflicts <= u64::MAX - schedule.reduce_interval {
                schedule.next_reduce = conflicts + schedule.reduce_interval;
            } else {
                schedule.next_reduce = u64::MAX;
            }
            true
        } else {
            false
        }
    }

    /// Whether the schedule asks for a restart after the current conflict count.
    fn restart_due(&self) -> (r: bool) {
        let interval = self.search.schedule.restart_interval;
        interval > 0 && self.search.stats.conflicts % interval == 0
    }

    /// Handles a conflict found by propagation: counts it; at level 0 returns true; otherwise
    /// backjumps to the level of the conflict when it lies below the current one, learns the
    /// analysed clause, and reduces or restarts when the schedule asks for it.
    #[verifier::rlimit(100)]
    fn resolve_conflict(&mut self, conflict: Vec<Lit>) -> (unsat: bool)
        requires
            old(self).search.wf(),
            all_false(&old(self).search.trail, conflict@),
            lits_in_range(conflict@, old(self).search.trail.var_count()),
            in_database(&old(self).search.clauses, conflict@),
        ensures
            final(self).search.wf(),
            final(self).inconsistent == old(self).inconsistent,
            final(self).search.trail.var_count() == old(self).search.trail.var_count(),
            final(self).search.stats.rounds == old(self).search.stats.rounds,
            inputs_kept(&old(self).search.clauses, &final(self).search.clauses),
            unsat ==> final(self).search.trail.level == 0 && in_database(
                &final(self).search.clauses,
                conflict@,
            ) && all_false(&final(self).search.trail, conflict@),
    {
        let ghost c0 = self.search.clauses;
        proof {
            assert(self.search.clauses.binary@.take(c0.binary@.len() as int) =~= c0.binary@);
        }
        let reduce = self.count_conflict();
        let ghost c4 = self.search.trail;
        let conflict_level = self.search.conflict_level(&conflict);
        if conflict_level == 0 {
            self.search.backtrack_to(0);
            proof {
                assert forall|k: int| 0 <= k < conflict@.len() implies self.search.trail.lit_false(
                    #[trigger] conflict@[k],
                ) by {
                    assert(c4.lit_false(conflict@[k]));
                    assert(c4.level_of(conflict@[k].var_spec()) <= 0);
                }
            }
            return true;
        }
        if conflict_level < self.search.trail.level {
            self.search.backtrack_to(conflict_level);
            proof {
                assert forall|k: int| 0 <= k < conflict@.len() implies self.search.trail.lit_false(
                    #[trigger] conflict@[k],
                ) && self.search.trail.level_of(conflict@[k].var_spec())
                    == c4.level_of(conflict@[k].var_spec()) by {
                    assert(c4.lit_false(conflict@[k]));
                }
            }
        }
        let learned = self.search.analyze(&conflict);
        let ghost c2 = self.search.clauses;
        self.search.learn(learned);
        proof {
            assert forall|g: int| #[trigger] c0.long.is_live(g) && !c0.long.data_of(g).redundant
                implies self.search.clauses.long.is_live(g)
                && self.search.clauses.long.lits_of(g) == c0.long.lits_of(g)
                && !self.search.clauses.long.data_of(g).redundant by {
                assert(c2.long.is_live(g));
                assert(self.search.clauses.long.clauses@[g] == c2.long.clauses@[g]);
            }
            assert(self.search.clauses.binary@.take(c0.binary@.len() as int) =~= self.search.clauses.binary@.take(c2.binary@.len() as int).take(c0.binary@.len() as int));
        }
        if reduce {
            let ghost c3 = self.search.clauses;
            self.reduce_ops.reduce(&mut self.search);
            proof {
                assert forall|g: int| #[trigger] c0.long.is_live(g) && !c0.long.data_of(g).redundant
                    implies self.search.clauses.long.is_live(g)
                    && self.search.clauses.long.lits_of(g) == c0.long.lits_of(g)
                    && !self.search.clauses.long.data_of(g).redundant by {
                    assert(c3.long.is_live(g));
                    assert(must_keep(c3.long.data_of(g)));
                    assert(self.search.clauses.long.lits_of(g) == c3.long.lits_of(g));
                    assert(self.search.clauses.long.data_of(g).redundant == c3.long.data_of(g).redundant);
                }
            }
        }
        if self.restart_due() {
            self.search.restart();
        }
        false
    }

    /// One round of the search: propagates, then decides when no clause is falsified, or
    /// handles the conflict. `Some(Sat)` when every variable is assigned at a fixpoint,
    /// `Some(Unsat)` when a clause is falsified at level 0, `None` to go on.
    #[verifier::rlimit(100)]
    fn round(&mut self) -> (r: Option<Verdict>)
        requires
            old(self).search.wf(),
            !old(self).inconsistent,
        ensures
            final(self).search.wf(),
            final(self).inconsistent == old(self).inconsistent,
            final(self).search.trail.var_count() == old(self).search.trail.var_count(),
            final(self).search.stats.rounds == old(self).search.stats.rounds,
            inputs_kept(&old(self).search.clauses, &final(self).search.clauses),
            r != Some(Verdict::Unknown),
            r == Some(Verdict::Sat) ==> satisfied(&final(self).search.trail, &final(self).search.clauses),
            r == Some(Verdict::Unsat) ==> final(self).search.trail.level == 0 && exists|c: Seq<Lit>|
                in_database(&final(self).search.clauses, c) && all_false(&final(self).search.trail, c),
    {
        let ghost c1 = self.search.clauses;
        let propagated = self.search.propagate();
        proof {
            lemma_same_keeps_inputs(&c1, &self.search.clauses);
        }
        match propagated {
            None => {
                let ghost c2 = self.search.clauses;
                if !self.search.decide_next() {
                    proof {
                        lemma_complete_fixpoint_satisfies(&self.search.trail, &self.search.clauses);
                    }
                    return Some(Verdict::Sat);
                }
                None
            },
            Some(conflict) => {
                let ghost c5 = self.search.clauses;
                let ghost cf = conflict@;
                let unsat = self.resolve_conflict(conflict);
                proof {
                    lemma_inputs_kept_trans(&c1, &c5, &self.search.clauses);
                }
                if unsat {
                    assert(in_database(&self.search.clauses, cf) && all_false(&self.search.trail, cf));
                    return Some(Verdict::Unsat);
                }
                None
            },
        }
    }

    /// Runs the search for at most `budget` rounds; each round propagates, then decides or
    /// handles the conflict.
    ///
    /// `Sat` comes with an assignment on the trail under which every clause of the database has
    /// a true literal, while every input clause is still in the database. `Unsat` comes when the
    /// input is inconsistent, or when propagation falsifies a clause of the database at decision
    /// level 0.
    #[verifier::rlimit(100)]
    pub fn solve_within(&mut self, budget: u64) -> (r: Verdict)
        requires
            old(self).search.wf(),
        ensures
            final(self).search.wf(),
            final(self).inconsistent == old(self).inconsistent,
            final(self).search.trail.var_count() == old(self).search.trail.var_count(),
            inputs_kept(&old(self).search.clauses, &final(self).search.clauses),
            r == Verdict::Sat ==> !old(self).inconsistent && satisfied(
                &final(self).search.trail,
                &final(self).search.clauses,
            ),
            r == Verdict::Unsat ==> old(self).inconsistent || (final(self).search.trail.level == 0
                && exists|c: Seq<Lit>|
                in_database(&final(self).search.clauses, c) && all_false(
                    &final(self).search.trail,
                    c,
                )),
            r == Verdict::Unknown ==> final(self).search.stats.rounds == old(self).search.stats.rounds
                + budget || final(self).search.stats.rounds == u64::MAX,
    {
        proof {
            assert(self.search.clauses.binary@.take(self.search.clauses.binary@.len() as int) =~= self.search.clauses.binary@);
        }
        if self.inconsistent {
            return Verdict::Unsat;
        }
        let ghost c0 = self.search.clauses;
        let mut remaining = budget;
        while remaining > 0
            invariant
                self.search.wf(),
                !self.inconsistent,
                !old(self).inconsistent,
                c0 == old(self).search.clauses,
                self.search.trail.var_count() == old(self).search.trail.var_count(),
                inputs_kept(&c0, &self.search.clauses),
                remaining <= budget,
                self.search.stats.rounds == old(self).search.stats.rounds + (budget - remaining)
                    || self.search.stats.rounds == u64::MAX,
            decreases remaining,
        {
            remaining = remaining - 1;
            self.search.count_round();
            let ghost c1 = self.search.clauses;
            let outcome = self.round();
            proof {
                lemma_inputs_kept_trans(&c0, &c1, &self.search.clauses);
            }
            if let Some(verdict) = outcome {
                return verdict;
            }
        }
        Verdict::Unknown
    }

    /// Decides the loaded formula: true when it is satisfiable, with a satisfying assignment on
    /// the trail.
    ///
    /// False means an inconsistent input, or a clause of the database falsified at level 0, or
    /// that the round counter reached `u64::MAX`: the search runs with a budget of `u64::MAX`
    /// rounds, which no run exhausts.
    pub fn solve(&mut self) -> (r: bool)
        requires
            old(self).search.wf(),
        ensures
            final(self).search.wf(),
            inputs_kept(&old(self).search.clauses, &final(self).search.clauses),
            r ==> !old(self).inconsistent && satisfied(
                &final(self).search.trail,
                &final(self).search.clauses,
            ),
            !r ==> old(self).inconsistent || (final(self).search.trail.level == 0 && exists|
                c: Seq<Lit>,
            |
                in_database(&final(self).search.clauses, c) && all_false(
                    &final(self).search.trail,
                    c,
                )) || final(self).search.stats.rounds == u64::MAX,
    {
        let verdict = self.solve_within(u64::MAX);
        verdict == Verdict::Sat
    }
}

} // verus!
