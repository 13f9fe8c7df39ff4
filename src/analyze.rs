//! Conflict analysis: deriving a learned clause by resolution back to the first unique
//! implication point.
use vstd::prelude::*;

use crate::clauses::lits_in_range;
use crate::lit::Lit;
use crate::search::{all_false, reason_ok, Search};
use crate::trail::{Reason, Trail};

verus! {

/// A clause derived by conflict analysis.
pub struct Learned {
    /// The asserting literal first, then literals of lower decision levels.
    pub lits: Vec<Lit>,
    /// The highest decision level among the literals after the first, or 0 for a unit clause.
    pub backjump: usize,
    /// The number of distinct decision levels among the literals after the first.
    pub glue: usize,
}

/// The number of distinct decision levels among `lits[1..n]`: each literal counts when no
/// earlier literal of that range has its level.
pub open spec fn distinct_levels(trail: &Trail, lits: Seq<Lit>, n: int) -> nat
    decreases n,
{
    if n <= 1 {
        0
    } else {
        distinct_levels(trail, lits, n - 1) + if exists|j: int|
            1 <= j < n - 1 && trail.level_of((#[trigger] lits[j]).var_spec()) == trail.level_of(
                lits[n - 1].var_spec(),
            ) {
            0nat
        } else {
            1nat
        }
    }
}

/// The state of an analysis: `learned` holds false literals of decision levels strictly between
/// 0 and `level`, on distinct variables, each marked in `seen`.
pub open spec fn analysis_inv(trail: &Trail, seen: Seq<bool>, learned: Seq<Lit>, level: nat) -> bool {
    &&& seen.len() == trail.var_count()
    &&& lits_in_range(learned, trail.var_count())
    &&& forall|k: int|
        0 <= k < learned.len() ==> {
            let l = #[trigger] learned[k];
            &&& trail.lit_false(l)
            &&& 0 < trail.level_of(l.var_spec()) < level
            &&& seen[l.var_spec() as int]
        }
    &&& forall|k1: int, k2: int|
        0 <= k1 < k2 < learned.len() ==> (#[trigger] learned[k1]).var_spec()
            != (#[trigger] learned[k2]).var_spec()
}

/// The properties of a learned clause `lits` with backjump level `backjump`, for a conflict at
/// decision level `level`: all literals are false, on distinct variables; the first is of
/// decision level `level`; the others of levels between 1 and `backjump`, which is below
/// `level`; and `backjump` is the level of one of them, or 0 when there are none.
pub open spec fn learned_ok(trail: &Trail, lits: Seq<Lit>, backjump: nat, level: nat) -> bool {
    &&& lits.len() >= 1
    &&& lits_in_range(lits, trail.var_count())
    &&& all_false(trail, lits)
    &&& trail.level_of(lits[0].var_spec()) == level
    &&& backjump < level
    &&& forall|k: int|
        1 <= k < lits.len() ==> 0 < trail.level_of((#[trigger] lits[k]).var_spec()) <= backjump
    &&& lits.len() == 1 ==> backjump == 0
    &&& lits.len() > 1 ==> exists|k: int|
        1 <= k < lits.len() && trail.level_of((#[trigger] lits[k]).var_spec()) == backjump
    &&& forall|k1: int, k2: int|
        0 <= k1 < k2 < lits.len() ==> (#[trigger] lits[k1]).var_spec()
            != (#[trigger] lits[k2]).var_spec()
}

impl Search {
    /// Marks the variable of the false literal `lit` for resolution: a literal of a lower
    /// nonzero level than the conflict level joins `learned`; literals of level 0 and marked
    /// variables are skipped.
    fn mark_lit(&self, lit: Lit, seen: &mut Vec<bool>, learned: &mut Vec<Lit>)
        requires
            self.wf(),
            lit.var_spec() < self.trail.var_count(),
            self.trail.lit_false(lit),
            analysis_inv(&self.trail, old(seen)@, old(learned)@, self.trail.level as nat),
        ensures
            analysis_inv(&self.trail, final(seen)@, final(learned)@, self.trail.level as nat),
            final(seen)@[lit.var_spec() as int] || self.trail.level_of(lit.var_spec()) == 0,
            forall|v: int| 0 <= v < old(seen)@.len() && #[trigger] old(seen)@[v] ==> final(seen)@[v],
    {
        let index = lit.index();
        if seen[index] {
            return ;
        }
        let level = self.trail.steps[self.trail.position[index]].decision_level;
        if level == 0 {
            return ;
        }
        seen.set(index, true);
        if level != self.trail.level {
            learned.push(lit);
            proof {
                assert forall|k1: int, k2: int|
                    0 <= k1 < k2 < learned@.len() implies (#[trigger] learned@[k1]).var_spec()
                        != (#[trigger] learned@[k2]).var_spec() by {
                    if k2 == learned@.len() - 1 {
                        assert(old(seen)@[learned@[k1].var_spec() as int]);
                    }
                }
            }
        }
    }

    /// The highest decision level among the literals of `lits`, all assigned below `level`;
    /// 0 when there are none.
    fn max_level(&self, lits: &Vec<Lit>, level: usize) -> (b: usize)
        requires
            forall|k: int|
                0 <= k < lits@.len() ==> self.trail.assigned((#[trigger] lits@[k]).var_spec())
                    && self.trail.level_of(lits@[k].var_spec()) < level,
        ensures
            lits@.len() == 0 ==> b == 0,
            b == 0 || b < level,
            forall|k: int| 0 <= k < lits@.len() ==> self.trail.level_of((#[trigger] lits@[k]).var_spec()) <= b,
            lits@.len() > 0 ==> exists|k: int|
                0 <= k < lits@.len() && self.trail.level_of((#[trigger] lits@[k]).var_spec()) == b,
    {
        let mut b: usize = 0;
        let mut k: usize = 0;
        while k < lits.len()
            invariant
                forall|k: int|
                    0 <= k < lits@.len() ==> self.trail.assigned((#[trigger] lits@[k]).var_spec())
                        && self.trail.level_of(lits@[k].var_spec()) < level,
                k <= lits@.len(),
                k == 0 ==> b == 0,
                b == 0 || b < level,
                forall|j: int| 0 <= j < k ==> self.trail.level_of((#[trigger] lits@[j]).var_spec()) <= b,
                k > 0 ==> exists|j: int| 0 <= j < k && self.trail.level_of((#[trigger] lits@[j]).var_spec()) == b,
            decreases lits@.len() - k,
        {
            let lit = lits[k];
            let lit_level = self.trail.steps[self.trail.position[lit.index()]].decision_level;
            assert(self.trail.level_of(lits@[k as int].var_spec()) == lit_level);
            if lit_level > b {
                b = lit_level;
            }
            k = k + 1;
        }
        b
    }

    /// The highest decision level among the literals of the false clause `lits`; 0 when it is
    /// empty.
    pub fn conflict_level(&self, lits: &Vec<Lit>) -> (r: usize)
        requires
            self.trail.wf(),
            all_false(&self.trail, lits@),
        ensures
            r <= self.trail.level,
            forall|k: int| 0 <= k < lits@.len() ==> self.trail.level_of((#[trigger] lits@[k]).var_spec()) <= r,
            lits@.len() > 0 ==> exists|k: int|
                0 <= k < lits@.len() && self.trail.level_of((#[trigger] lits@[k]).var_spec()) == r,
            lits@.len() == 0 ==> r == 0,
    {
        let mut b: usize = 0;
        let mut k: usize = 0;
        while k < lits.len()
            invariant
                forall|i: int|
                    0 <= i < self.trail.steps@.len() ==> #[trigger] self.trail.steps@[i].decision_level
                        <= self.trail.level,
                all_false(&self.trail, lits@),
                k <= lits@.len(),
                k == 0 ==> b == 0,
                b <= self.trail.level,
                forall|j: int| 0 <= j < k ==> self.trail.level_of((#[trigger] lits@[j]).var_spec()) <= b,
                k > 0 ==> exists|j: int| 0 <= j < k && self.trail.level_of((#[trigger] lits@[j]).var_spec()) == b,
            decreases lits@.len() - k,
        {
            let lit = lits[k];
            proof {
                assert(self.trail.lit_false(lits@[k as int]));
            }
            let pos = self.trail.position[lit.index()];
            let lit_level = self.trail.steps[pos].decision_level;
            assert(self.trail.level_of(lits@[k as int].var_spec()) == lit_level);
            if lit_level > b {
                b = lit_level;
            }
            k = k + 1;
        }
        b
    }

    /// The number of distinct decision levels among the literals of `lits` after the first,
    /// all assigned at levels up to `level`.
    fn count_levels(&self, lits: &Vec<Lit>, level: usize) -> (r: usize)
        requires
            level < usize::MAX,
            forall|k: int|
                0 <= k < lits@.len() ==> self.trail.assigned((#[trigger] lits@[k]).var_spec())
                    && self.trail.level_of(lits@[k].var_spec()) <= level,
        ensures
            r == distinct_levels(&self.trail, lits@, lits@.len() as int),
    {
        let mut marks: Vec<bool> = vec![false; level + 1];
        let mut count: usize = 0;
        let mut k: usize = 1;
        while k < lits.len()
            invariant
                level < usize::MAX,
                forall|k: int|
                    0 <= k < lits@.len() ==> self.trail.assigned((#[trigger] lits@[k]).var_spec())
                        && self.trail.level_of(lits@[k].var_spec()) <= level,
                1 <= k,
                k <= lits@.len() || (lits@.len() == 0 && k == 1),
                marks@.len() == level + 1,
                count <= k,
                count == distinct_levels(&self.trail, lits@, k as int),
                forall|d: int|
                    0 <= d <= level ==> (#[trigger] marks@[d] <==> exists|j: int|
                        1 <= j < k && self.trail.level_of((#[trigger] lits@[j]).var_spec()) == d),
            decreases lits@.len() - k,
        {
            let lit = lits[k];
            let lit_level = self.trail.steps[self.trail.position[lit.index()]].decision_level;
            assert(self.trail.level_of(lits@[k as int].var_spec()) == lit_level);
            if !marks[lit_level] {
                marks.set(lit_level, true);
                count = count + 1;
            }
            proof {
                assert forall|d: int|
                    0 <= d <= level implies (#[trigger] marks@[d] <==> exists|j: int|
                        1 <= j < k + 1 && self.trail.level_of((#[trigger] lits@[j]).var_spec()) == d) by {
                    if d == lit_level {
                        assert(self.trail.level_of(lits@[k as int].var_spec()) == d);
                    } else {
                        if exists|j: int|
                            1 <= j < k + 1 && self.trail.level_of((#[trigger] lits@[j]).var_spec()) == d {
                            let j = choose|j: int|
                                1 <= j < k + 1 && self.trail.level_of((#[trigger] lits@[j]).var_spec()) == d;
                            assert(j != k);
                        }
                    }
                }
            }
            k = k + 1;
        }
        proof {
            if lits@.len() == 0 {
                assert(distinct_levels(&self.trail, lits@, 0) == 0);
                assert(distinct_levels(&self.trail, lits@, 1) == 0);
            } else {
                assert(k == lits@.len());
            }
        }
        count
    }

    /// Derives the learned clause of a conflict at a nonzero decision level.
    ///
    /// `conflict` is a clause whose literals are all false, one of them at the current level.
    /// Starting from it, the literal of the conflict level assigned last is resolved with its
    /// reason until a single literal of the conflict level is left (the first unique implication
    /// point). Level 0 literals are dropped: they are false for good.
    pub fn analyze(&self, conflict: &Vec<Lit>) -> (learned: Learned)
        requires
            self.wf(),
            self.trail.level > 0,
            lits_in_range(conflict@, self.trail.var_count()),
            all_false(&self.trail, conflict@),
            exists|k: int|
                0 <= k < conflict@.len() && self.trail.level_of((#[trigger] conflict@[k]).var_spec())
                    == self.trail.level,
        ensures
            learned_ok(&self.trail, learned.lits@, learned.backjump as nat, self.trail.level as nat),
            learned.glue == distinct_levels(&self.trail, learned.lits@, learned.lits@.len() as int),
    {
        let n = self.trail.position.len();
        let level = self.trail.level;
        let mut seen: Vec<bool> = vec![false; n];
        let mut learned: Vec<Lit> = Vec::new();
        let mut k: usize = 0;
        while k < conflict.len()
            invariant
                self.wf(),
                level == self.trail.level,
                level > 0,
                lits_in_range(conflict@, self.trail.var_count()),
                all_false(&self.trail, conflict@),
                analysis_inv(&self.trail, seen@, learned@, level as nat),
                k <= conflict@.len(),
                forall|j: int|
                    0 <= j < k && self.trail.level_of((#[trigger] conflict@[j]).var_spec()) == level
                        ==> seen@[conflict@[j].var_spec() as int],
            decreases conflict@.len() - k,
        {
            self.mark_lit(conflict[k], &mut seen, &mut learned);
            k = k + 1;
        }
        let ghost w = choose|k: int|
            0 <= k < conflict@.len() && self.trail.level_of((#[trigger] conflict@[k]).var_spec())
                == self.trail.level;
        let ghost p0: int = self.trail.pos_of(conflict@[w]);
        proof {
            assert(self.trail.lit_false(conflict@[w]));
        }
        let mut i: usize = self.trail.steps.len();
        let mut uip: Lit;
        loop
            invariant_except_break
                i <= self.trail.steps@.len(),
                0 <= p0 < i,
            invariant
                self.wf(),
                level == self.trail.level,
                level > 0,
                analysis_inv(&self.trail, seen@, learned@, level as nat),
                0 <= p0 < self.trail.steps@.len(),
                self.trail.steps@[p0].decision_level == level,
                seen@[self.trail.steps@[p0].assigned_lit.var_spec() as int],
            ensures
                self.trail.lit_false(uip),
                self.trail.level_of(uip.var_spec()) == level,
                uip.var_spec() < self.trail.var_count(),
            decreases i,
        {
            let ghost i0 = i;
            while !seen[self.trail.steps[i - 1].assigned_lit.index()]
                invariant
                    self.wf(),
                    seen@.len() == self.trail.var_count(),
                    0 <= p0 < i <= i0,
                    i0 <= self.trail.steps@.len(),
                    seen@[self.trail.steps@[p0].assigned_lit.var_spec() as int],
                decreases i,
            {
                i = i - 1;
            }
            i = i - 1;
            let step = self.trail.steps[i];
            proof {
                assert(self.trail.steps@[p0].decision_level <= step.decision_level);
                let v = step.assigned_lit.var_spec();
                assert(self.trail.position@[v as int] == i);
                assert(self.trail.lit_true(step.assigned_lit));
            }
            // Look for another marked literal of the conflict level below position `i`.
            let mut j: usize = i;
            let mut other = false;
            while j > 0 && self.trail.steps[j - 1].decision_level == level
                invariant_except_break
                    !other,
                invariant
                    self.wf(),
                    seen@.len() == self.trail.var_count(),
                    j <= i < self.trail.steps@.len(),
                    forall|r: int|
                        j <= r < i ==> !seen@[(#[trigger] self.trail.steps@[r]).assigned_lit.var_spec() as int],
                ensures
                    other ==> j > 0 && seen@[self.trail.steps@[j - 1].assigned_lit.var_spec() as int]
                        && self.trail.steps@[j - 1].decision_level == level,
                    !other ==> j == 0 || self.trail.steps@[j - 1].decision_level != level,
                decreases j,
            {
                if seen[self.trail.steps[j - 1].assigned_lit.index()] {
                    other = true;
                    break;
                }
                j = j - 1;
            }
            if !other {
                proof {
                    if p0 < i {
                        assert(self.trail.steps@[p0].decision_level <= self.trail.steps@[j as int].decision_level);
                        if j > 0 {
                            assert(self.trail.steps@[j - 1].decision_level != level);
                            assert(self.trail.steps@[p0].decision_level <= self.trail.steps@[j - 1].decision_level);
                        }
                        assert(false);
                    }
                }
                uip = step.assigned_lit.negate();
                break;
            }
            let ghost p1: int = j - 1;
            proof {
                assert(self.trail.steps@[p1].decision_level == level);
                assert(reason_ok(&self.trail, &self.clauses, i as int));
                if step.reason == Reason::Decision {
                    assert(self.trail.steps@[p1].decision_level <= self.trail.steps@[i - 1].decision_level);
                }
            }
            match step.reason {
                Reason::Long(h) => {
                    let lits = self.clauses.long.lits(h);
                    assert(self.clauses.long.is_live(h as int));
                    let mut m: usize = 0;
                    while m < lits.len()
                        invariant
                            self.wf(),
                            level == self.trail.level,
                            self.trail.steps@[i as int] == step,
                            step.reason == Reason::Long(h),
                            reason_ok(&self.trail, &self.clauses, i as int),
                            lits@ == self.clauses.long.lits_of(h as int),
                            self.clauses.long.is_live(h as int),
                            analysis_inv(&self.trail, seen@, learned@, level as nat),
                            0 <= p1 < self.trail.steps@.len(),
                            seen@[self.trail.steps@[p1].assigned_lit.var_spec() as int],
                        decreases lits@.len() - m,
                    {
                        let lit = lits[m];
                        if lit != step.assigned_lit {
                            assert(self.trail.lit_false(lits@[m as int]));
                            self.mark_lit(lit, &mut seen, &mut learned);
                        }
                        m = m + 1;
                    }
                },
                Reason::Binary(other_lit) => {
                    self.mark_lit(other_lit, &mut seen, &mut learned);
                },
                _ => {},
            }
            proof {
                p0 = p1;
            }
        }
        let backjump = self.max_level(&learned, level);
        let mut lits: Vec<Lit> = Vec::new();
        lits.push(uip);
        let mut k: usize = 0;
        while k < learned.len()
            invariant
                k <= learned@.len(),
                lits@ == seq![uip] + learned@.subrange(0, k as int),
            decreases learned@.len() - k,
        {
            lits.push(learned[k]);
            k = k + 1;
        }
        proof {
            assert(lits@ == seq![uip] + learned@);
            assert forall|j: int| 1 <= j < lits@.len() implies 0 < self.trail.level_of((#[trigger] lits@[j]).var_spec()) <= backjump by {
                assert(lits@[j] == learned@[j - 1]);
            }
            assert forall|j: int| 0 <= j < lits@.len() implies self.trail.lit_false(#[trigger] lits@[j]) by {
                if j > 0 {
                    assert(lits@[j] == learned@[j - 1]);
                }
            }
            assert forall|j: int| 0 <= j < lits@.len() implies (#[trigger] lits@[j]).var_spec() < self.trail.var_count() by {
                if j > 0 {
                    assert(lits@[j] == learned@[j - 1]);
                }
            }
            assert forall|k1: int, k2: int|
                0 <= k1 < k2 < lits@.len() implies (#[trigger] lits@[k1]).var_spec()
                    != (#[trigger] lits@[k2]).var_spec() by {
                assert(lits@[k2] == learned@[k2 - 1]);
                if k1 > 0 {
                    assert(lits@[k1] == learned@[k1 - 1]);
                }
            }
            if lits@.len() > 1 {
                let j = choose|j: int| 0 <= j < learned@.len() && self.trail.level_of((#[trigger] learned@[j]).var_spec()) == backjump;
                assert(lits@[j + 1] == learned@[j]);
            }
            assert(lits@[0] == uip);
        }
        proof {
            self.trail.lemma_steps_bounded();
            assert(self.trail.steps@[self.trail.steps@.len() - 1].decision_level <= self.trail.steps@.len());
            assert forall|k: int| 0 <= k < lits@.len() implies self.trail.assigned((#[trigger] lits@[k]).var_spec())
                && self.trail.level_of(lits@[k].var_spec()) <= level by {
                assert(self.trail.lit_false(lits@[k]));
                if k > 0 {
                    assert(lits@[k] == learned@[k - 1]);
                }
            }
        }
        let glue = self.count_levels(&lits, level);
        Learned { lits, backjump, glue }
    }
}

} // verus!
