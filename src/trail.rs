//! The assignment trail: assigned literals in order, with decision levels and reasons.
use vstd::prelude::*;
use vstd::set_lib::{lemma_int_range, lemma_len_subset, set_int_range};

use crate::lit::{Lit, Var};

verus! {

/// Why a literal was assigned.
#[derive(Copy, Clone, PartialEq, Eq, Debug)]
pub enum Reason {
    /// A branching choice of the search.
    Decision,
    /// A unit clause of the input.
    Unit,
    /// Forced by a binary clause together with the given other literal of it.
    Binary(Lit),
    /// Forced by the long clause with the given handle.
    Long(usize),
}

/// One entry of the trail.
#[derive(Copy, Clone, Debug)]
pub struct Step {
    /// The literal that became true.
    pub assigned_lit: Lit,
    /// The decision level at which it was assigned.
    pub decision_level: usize,
    /// Why it was assigned.
    pub reason: Reason,
}

/// The chronological record of assignments.
///
/// Variables are looked up through `position`, which maps each variable to the trail position of
/// its last assignment. An entry is current only while that position still holds a step of the
/// variable, so backtracking merely shortens `steps`.
pub struct Trail {
    /// Assignments in the order they were made.
    pub steps: Vec<Step>,
    /// For each variable, the position in `steps` where it was last assigned.
    pub position: Vec<usize>,
    /// The current decision level.
    pub level: usize,
}

impl Trail {
    /// The number of variables the trail is sized for.
    pub open spec fn var_count(&self) -> nat {
        self.position@.len()
    }

    /// The trail is consistent: each step names a variable whose position points back at it,
    /// and decision levels never decrease along the trail nor exceed the current level.
    pub open spec fn wf(&self) -> bool {
        &&& forall|i: int|
            0 <= i < self.steps@.len() ==> {
                let v = #[trigger] self.steps@[i].assigned_lit.var_spec();
                &&& v < self.position@.len()
                &&& self.position@[v as int] == i
            }
        &&& forall|i: int, j: int|
            0 <= i <= j < self.steps@.len() ==> #[trigger] self.steps@[i].decision_level
                <= #[trigger] self.steps@[j].decision_level
        &&& forall|i: int|
            0 <= i < self.steps@.len() ==> #[trigger] self.steps@[i].decision_level <= self.level
        &&& forall|i: int|
            0 < i < self.steps@.len() ==> #[trigger] self.steps@[i].decision_level
                <= self.steps@[i - 1].decision_level + 1
        &&& forall|i: int|
            0 <= i < self.steps@.len() ==> #[trigger] self.steps@[i].decision_level <= i + 1
        &&& self.level > 0 ==> self.steps@.len() > 0 && self.steps@.last().decision_level
            == self.level
        &&& forall|i: int|
            0 <= i < self.steps@.len() && #[trigger] self.steps@[i].reason == Reason::Decision
                ==> i == 0 || self.steps@[i - 1].decision_level < self.steps@[i].decision_level
        &&& forall|i: int|
            0 <= i < self.steps@.len() && #[trigger] self.steps@[i].reason == Reason::Unit
                ==> self.steps@[i].decision_level == 0
        &&& self.position@.len() <= crate::lit::MAX_VAR_COUNT
    }

    /// Whether variable `v` is assigned.
    pub open spec fn assigned(&self, v: nat) -> bool {
        &&& v < self.position@.len()
        &&& self.position@[v as int] < self.steps@.len()
        &&& self.steps@[self.position@[v as int] as int].assigned_lit.var_spec() == v
    }

    /// The step that assigned variable `v`, meaningful when `v` is assigned.
    pub open spec fn step_of(&self, v: nat) -> Step {
        self.steps@[self.position@[v as int] as int]
    }

    /// The decision level of variable `v`, meaningful when `v` is assigned.
    pub open spec fn level_of(&self, v: nat) -> nat {
        self.step_of(v).decision_level as nat
    }

    /// Whether literal `l` is true under the current assignment.
    pub open spec fn lit_true(&self, l: Lit) -> bool {
        self.assigned(l.var_spec()) && self.step_of(l.var_spec()).assigned_lit.positive_spec()
            == l.positive_spec()
    }

    /// Whether literal `l` is false under the current assignment.
    pub open spec fn lit_false(&self, l: Lit) -> bool {
        self.assigned(l.var_spec()) && self.step_of(l.var_spec()).assigned_lit.positive_spec()
            != l.positive_spec()
    }

    /// The position on the trail of the step that assigned the variable of `l`.
    pub open spec fn pos_of(&self, l: Lit) -> int {
        self.position@[l.var_spec() as int] as int
    }

    /// An empty trail for `var_count` variables.
    pub fn new(var_count: usize) -> (r: Trail)
        requires
            var_count <= crate::lit::MAX_VAR_COUNT,
        ensures
            r.wf(),
            r.var_count() == var_count,
            r.steps@.len() == 0,
            r.level == 0,
    {
        Trail { steps: Vec::new(), position: vec![0usize; var_count], level: 0 }
    }

    /// The assigned variables are distinct, so there are no more steps than variables.
    pub proof fn lemma_steps_bounded(&self)
        requires
            self.wf(),
        ensures
            self.steps@.len() <= self.var_count(),
    {
        let vars = self.steps@.map(|i: int, s: Step| s.assigned_lit.var_spec() as int);
        assert(vars.no_duplicates()) by {
            assert forall|i: int, j: int|
                0 <= i < vars.len() && 0 <= j < vars.len() && i != j implies vars[i] != vars[j] by {
                let si = self.steps@[i];
                let sj = self.steps@[j];
                assert(self.position@[si.assigned_lit.var_spec() as int] == i);
                assert(self.position@[sj.assigned_lit.var_spec() as int] == j);
            }
        }
        vars.unique_seq_to_set();
        lemma_int_range(0, self.var_count() as int);
        assert(vars.to_set().subset_of(set_int_range(0, self.var_count() as int))) by {
            assert forall|x: int| vars.to_set().contains(x) implies 0 <= x < self.var_count() by {
                let i = choose|i: int| 0 <= i < vars.len() && vars[i] == x;
                let s = self.steps@[i];
                assert(s.assigned_lit.var_spec() < self.position@.len());
            }
        }
        lemma_len_subset(vars.to_set(), set_int_range(0, self.var_count() as int));
    }

    /// Whether the variable `var` is assigned.
    pub fn is_assigned(&self, var: Var) -> (r: bool)
        requires
            self.wf(),
            var@ < self.var_count(),
        ensures
            r == self.assigned(var@),
    {
        let index = var.index();
        let pos = self.position[index];
        pos < self.steps.len() && self.steps[pos].assigned_lit.index() == index
    }

    /// The index of the first unassigned variable, if any.
    pub fn first_unassigned(&self) -> (r: Option<usize>)
        requires
            self.wf(),
        ensures
            match r {
                Some(index) => index < self.var_count() && !self.assigned(index as nat),
                None => forall|v: nat| v < self.var_count() ==> #[trigger] self.assigned(v),
            },
    {
        let n = self.position.len();
        let mut index: usize = 0;
        while index < n
            invariant
                self.wf(),
                n == self.var_count(),
                index <= n,
                forall|v: nat| v < index ==> #[trigger] self.assigned(v),
            decreases n - index,
        {
            let pos = self.position[index];
            if !(pos < self.steps.len() && self.steps[pos].assigned_lit.index() == index) {
                return Some(index);
            }
            index = index + 1;
        }
        None
    }

    /// Whether `lit` is true.
    pub fn is_true(&self, lit: Lit) -> (r: bool)
        requires
            self.wf(),
            lit.var_spec() < self.var_count(),
        ensures
            r == self.lit_true(lit),
    {
        let index = lit.index();
        let pos = self.position[index];
        pos < self.steps.len() && self.steps[pos].assigned_lit.index() == index
            && self.steps[pos].assigned_lit.is_positive() == lit.is_positive()
    }

    /// Whether `lit` is false.
    pub fn is_false(&self, lit: Lit) -> (r: bool)
        requires
            self.wf(),
            lit.var_spec() < self.var_count(),
        ensures
            r == self.lit_false(lit),
    {
        let index = lit.index();
        let pos = self.position[index];
        pos < self.steps.len() && self.steps[pos].assigned_lit.index() == index
            && self.steps[pos].assigned_lit.is_positive() != lit.is_positive()
    }

    /// Whether neither `lit` nor its negation is assigned.
    pub fn is_unassigned(&self, lit: Lit) -> (r: bool)
        requires
            self.wf(),
            lit.var_spec() < self.var_count(),
        ensures
            r == !self.assigned(lit.var_spec()),
    {
        !self.is_assigned(lit.var())
    }

    /// Appends an assignment at the current decision level. Decisions are made by `decide`
    /// only, and input units are assigned at level 0 only.
    pub fn assign(&mut self, step: Step)
        requires
            old(self).wf(),
            step.assigned_lit.var_spec() < old(self).var_count(),
            !old(self).assigned(step.assigned_lit.var_spec()),
            step.decision_level == old(self).level,
            step.reason != Reason::Decision,
            step.reason == Reason::Unit ==> step.decision_level == 0,
        ensures
            final(self).wf(),
            final(self).steps@ == old(self).steps@.push(step),
            final(self).position@ == old(self).position@.update(
                step.assigned_lit.var_spec() as int,
                old(self).steps@.len() as usize,
            ),
            final(self).level == old(self).level,
            final(self).var_count() == old(self).var_count(),
            forall|v: nat|
                v != step.assigned_lit.var_spec() ==> (#[trigger] final(self).assigned(v)
                    == old(self).assigned(v)) && (old(self).assigned(v) ==> final(self).step_of(v)
                    == old(self).step_of(v)),
            final(self).assigned(step.assigned_lit.var_spec()),
            final(self).step_of(step.assigned_lit.var_spec()) == step,
    {
        let index = step.assigned_lit.index();
        let pos = self.steps.len();
        self.steps.push(step);
        self.position.set(index, pos);
        assert forall|v: nat| v != step.assigned_lit.var_spec() && old(self).assigned(v) implies
            self.position@[v as int] != pos by {
            let p = old(self).position@[v as int];
            assert(old(self).steps@[p as int].assigned_lit.var_spec() == v);
        }
    }

    /// Opens a new decision level and assigns `lit` as its decision.
    pub fn decide(&mut self, lit: Lit)
        requires
            old(self).wf(),
            lit.var_spec() < old(self).var_count(),
            !old(self).assigned(lit.var_spec()),
        ensures
            final(self).wf(),
            final(self).level == old(self).level + 1,
            final(self).steps@ == old(self).steps@.push(
                Step { assigned_lit: lit, decision_level: final(self).level, reason: Reason::Decision },
            ),
            final(self).var_count() == old(self).var_count(),
            final(self).position@ == old(self).position@.update(
                lit.var_spec() as int,
                old(self).steps@.len() as usize,
            ),
            forall|v: nat|
                v != lit.var_spec() ==> (#[trigger] final(self).assigned(v) == old(self).assigned(v))
                    && (old(self).assigned(v) ==> final(self).step_of(v) == old(self).step_of(v)),
            final(self).lit_true(lit),
    {
        proof {
            self.lemma_steps_bounded();
            if self.level > 0 {
                assert(self.steps@[self.steps@.len() - 1].decision_level <= self.steps@.len());
            }
        }
        let index = lit.index();
        let pos = self.steps.len();
        self.level = self.level + 1;
        let step = Step { assigned_lit: lit, decision_level: self.level, reason: Reason::Decision };
        self.steps.push(step);
        self.position.set(index, pos);
        assert forall|v: nat| v != lit.var_spec() && old(self).assigned(v) implies
            self.position@[v as int] != pos by {
            let p = old(self).position@[v as int];
            assert(old(self).steps@[p as int].assigned_lit.var_spec() == v);
        }
    }

    /// Undoes every assignment made at a decision level above `level`.
    #[verifier::rlimit(60)]
    pub fn backtrack(&mut self, level: usize)
        requires
            old(self).wf(),
            level <= old(self).level,
        ensures
            final(self).wf(),
            final(self).level == level,
            final(self).position@ == old(self).position@,
            final(self).steps@.len() <= old(self).steps@.len(),
            final(self).steps@ == old(self).steps@.take(final(self).steps@.len() as int),
            forall|i: int|
                0 <= i < old(self).steps@.len() ==> (i < final(self).steps@.len()
                    <==> #[trigger] old(self).steps@[i].decision_level <= level),
            forall|v: nat|
                #[trigger] old(self).assigned(v) ==> (final(self).assigned(v) <==> old(self).level_of(v)
                    <= level),
            forall|v: nat| #[trigger] final(self).assigned(v) ==> old(self).assigned(v),
    {
        let ghost old_steps = self.steps@;
        let mut k: usize = self.steps.len();
        while k > 0 && self.steps[k - 1].decision_level > level
            invariant
                k <= self.steps@.len(),
                forall|i: int| k <= i < self.steps@.len() ==> #[trigger] self.steps@[i].decision_level > level,
            decreases k,
        {
            k = k - 1;
        }
        self.steps.truncate(k);
        self.level = level;
        let ghost n = self.steps@.len();
        assert forall|i: int| 0 <= i < old_steps.len() implies (i < n
            <==> #[trigger] old_steps[i].decision_level <= level) by {
            if i < n {
                assert(old_steps[i].decision_level <= old_steps[n - 1].decision_level);
                assert(self.steps@[n - 1] == old_steps[n - 1]);
            }
        }
        proof {
        if level > 0 {
            if n < old_steps.len() {
                assert(old_steps[n as int].decision_level > level);
                assert(n > 0);
                assert(old_steps[n as int].decision_level <= old_steps[n - 1].decision_level + 1);
            } else {
                assert(self.steps@ == old_steps);
            }
        }
        }
    }

    /// The steps of the trail in assignment order.
    pub fn steps(&self) -> (r: &[Step])
        ensures
            r@ == self.steps@,
    {
        self.steps.as_slice()
    }
}

} // verus!
