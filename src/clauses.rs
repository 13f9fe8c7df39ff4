//! The clause database: binary clauses as literal pairs, long clauses in an arena of handles.
use vstd::prelude::*;

use crate::lit::Lit;

verus! {

/// The largest value of a clause's `used` counter.
pub const MAX_USED: u8 = 3;

/// The largest glue that is recorded; larger values are clamped.
pub const MAX_GLUE: usize = 63;

/// Metadata of a long clause.
#[derive(Copy, Clone, PartialEq, Eq, Structural, Debug)]
pub struct SolverClauseData {
    /// Number of distinct decision levels among the literals it was learned from.
    pub glue: usize,
    /// Saturating counter of recent uses in propagation.
    pub used: u8,
    /// Set while the clause is the reason of a trail step during reduction.
    pub protected: bool,
    /// Whether the clause was learned (and may be deleted) rather than given.
    pub redundant: bool,
}

impl SolverClauseData {
    /// Metadata for a clause of the input formula.
    pub fn new_input_clause() -> (r: SolverClauseData)
        ensures
            r == (SolverClauseData { glue: 0, used: 0, protected: false, redundant: false }),
    {
        SolverClauseData { glue: 0, used: 0, protected: false, redundant: false }
    }

    /// Metadata for a learned clause with the given glue, counted as used once.
    pub fn new_learned_clause(glue: usize) -> (r: SolverClauseData)
        ensures
            r.glue == if glue <= MAX_GLUE {
                glue
            } else {
                MAX_GLUE
            },
            r.used == 1,
            !r.protected,
            r.redundant,
    {
        let mut data = SolverClauseData { glue: 0, used: 1, protected: false, redundant: true };
        data.set_glue(glue);
        data
    }

    /// The glue.
    pub fn glue(&self) -> (r: usize)
        ensures
            r == self.glue,
    {
        self.glue
    }

    /// Sets the glue, clamped to `MAX_GLUE`.
    pub fn set_glue(&mut self, glue: usize)
        ensures
            final(self).glue == if glue <= MAX_GLUE {
                glue
            } else {
                MAX_GLUE
            },
            final(self).used == old(self).used,
            final(self).protected == old(self).protected,
            final(self).redundant == old(self).redundant,
    {
        self.glue = if glue <= MAX_GLUE {
            glue
        } else {
            MAX_GLUE
        };
    }

    /// The used counter.
    pub fn used(&self) -> (r: u8)
        ensures
            r == self.used,
    {
        self.used
    }

    /// Sets the used counter, clamped to `MAX_USED`.
    pub fn set_used(&mut self, used: u8)
        ensures
            final(self).used == if used <= MAX_USED {
                used
            } else {
                MAX_USED
            },
            final(self).glue == old(self).glue,
            final(self).protected == old(self).protected,
            final(self).redundant == old(self).redundant,
    {
        self.used = if used <= MAX_USED {
            used
        } else {
            MAX_USED
        };
    }

    /// Whether the clause is protected from deletion.
    pub fn protected(&self) -> (r: bool)
        ensures
            r == self.protected,
    {
        self.protected
    }

    /// Sets the protected flag.
    pub fn set_protected(&mut self, protected: bool)
        ensures
            *final(self) == (SolverClauseData { protected, ..*old(self) }),
    {
        self.protected = protected;
    }

    /// Whether the clause is learned.
    pub fn redundant(&self) -> (r: bool)
        ensures
            r == self.redundant,
    {
        self.redundant
    }
}

/// A long clause (three or more literals) and its metadata.
pub struct LongClause {
    /// The literals; empty once the clause is deleted.
    pub lits: Vec<Lit>,
    /// The metadata.
    pub data: SolverClauseData,
    /// Whether the clause is still part of the database.
    pub live: bool,
}

/// The arena of long clauses. A clause's handle is its index, stable until deletion.
pub struct LongClauses {
    /// Every long clause ever added, deleted ones included.
    pub clauses: Vec<LongClause>,
}

impl LongClauses {
    /// Whether `h` is the handle of a live clause.
    pub open spec fn is_live(&self, h: int) -> bool {
        0 <= h < self.clauses@.len() && self.clauses@[h].live
    }

    /// The literals of the clause with handle `h`.
    pub open spec fn lits_of(&self, h: int) -> Seq<Lit> {
        self.clauses@[h].lits@
    }

    /// The metadata of the clause with handle `h`.
    pub open spec fn data_of(&self, h: int) -> SolverClauseData {
        self.clauses@[h].data
    }

    /// Adds a clause and returns its handle.
    pub fn add(&mut self, data: SolverClauseData, lits: Vec<Lit>) -> (h: usize)
        ensures
            h == old(self).clauses@.len(),
            final(self).clauses@.len() == old(self).clauses@.len() + 1,
            final(self).is_live(h as int),
            final(self).lits_of(h as int) == lits@,
            final(self).data_of(h as int) == data,
            forall|g: int|
                0 <= g < old(self).clauses@.len() ==> #[trigger] final(self).clauses@[g]
                    == old(self).clauses@[g],
    {
        let h = self.clauses.len();
        self.clauses.push(LongClause { lits, data, live: true });
        h
    }

    /// Removes the clause with handle `h` from the database.
    ///
    /// A protected clause is the reason of a trail step and must not be deleted.
    pub fn delete_clause(&mut self, h: usize)
        requires
            h < old(self).clauses@.len(),
            !old(self).data_of(h as int).protected,
        ensures
            final(self).clauses@.len() == old(self).clauses@.len(),
            !final(self).is_live(h as int),
            final(self).data_of(h as int) == old(self).data_of(h as int),
            final(self).lits_of(h as int).len() == 0,
            forall|g: int|
                0 <= g < old(self).clauses@.len() && g != h ==> #[trigger] final(self).clauses@[g]
                    == old(self).clauses@[g],
    {
        let data = self.clauses[h].data;
        self.clauses.set(h, LongClause { lits: Vec::new(), data, live: false });
    }

    /// The handle of the next live clause at or after `*cursor`, advancing the cursor past it.
    ///
    /// Starting from a cursor of zero, repeated calls visit every live clause once, in handle
    /// order, and then return `None`.
    pub fn next_clause(&self, cursor: &mut usize) -> (r: Option<usize>)
        ensures
            match r {
                Some(h) => {
                    &&& *old(cursor) <= h < self.clauses@.len()
                    &&& self.is_live(h as int)
                    &&& *final(cursor) == h + 1
                    &&& forall|g: int| *old(cursor) <= g < h ==> !#[trigger] self.is_live(g)
                },
                None => {
                    &&& *final(cursor) >= self.clauses@.len()
                    &&& *final(cursor) >= *old(cursor)
                    &&& forall|g: int|
                        *old(cursor) <= g < self.clauses@.len() ==> !#[trigger] self.is_live(g)
                },
            },
    {
        while *cursor < self.clauses.len()
            invariant
                *old(cursor) <= *cursor,
                forall|g: int| *old(cursor) <= g < *cursor ==> !#[trigger] self.is_live(g),
            decreases self.clauses@.len() - *cursor,
        {
            let h = *cursor;
            *cursor = h + 1;
            if self.clauses[h].live {
                return Some(h);
            }
        }
        None
    }

    /// Number of literals of the clause with handle `h`.
    pub fn clause_len(&self, h: usize) -> (r: usize)
        requires
            h < self.clauses@.len(),
        ensures
            r == self.lits_of(h as int).len(),
    {
        self.clauses[h].lits.len()
    }

    /// The literals of the clause with handle `h`.
    pub fn lits(&self, h: usize) -> (r: &Vec<Lit>)
        requires
            h < self.clauses@.len(),
        ensures
            r@ == self.lits_of(h as int),
    {
        &self.clauses[h].lits
    }

    /// The metadata of the clause with handle `h`.
    pub fn data(&self, h: usize) -> (r: SolverClauseData)
        requires
            h < self.clauses@.len(),
        ensures
            r == self.data_of(h as int),
    {
        self.clauses[h].data
    }

    /// Replaces the metadata of the clause with handle `h`.
    pub fn set_data(&mut self, h: usize, data: SolverClauseData)
        requires
            h < old(self).clauses@.len(),
        ensures
            final(self).clauses@.len() == old(self).clauses@.len(),
            final(self).data_of(h as int) == data,
            final(self).lits_of(h as int) == old(self).lits_of(h as int),
            final(self).is_live(h as int) == old(self).is_live(h as int),
            forall|g: int|
                0 <= g < old(self).clauses@.len() && g != h ==> #[trigger] final(self).clauses@[g]
                    == old(self).clauses@[g],
    {
        self.clauses[h].data = data;
    }
}

/// The clause database.
pub struct Clauses {
    /// Binary clauses as literal pairs.
    pub binary: Vec<(Lit, Lit)>,
    /// Long clauses.
    pub long: LongClauses,
    /// Every literal's variable is below this count.
    pub var_count: usize,
}

/// A vector holding the literals of `lits`.
pub fn copy_lits(lits: &[Lit]) -> (r: Vec<Lit>)
    ensures
        r@ == lits@,
{
    let mut v: Vec<Lit> = Vec::new();
    let mut k: usize = 0;
    while k < lits.len()
        invariant
            k <= lits@.len(),
            v@ == lits@.subrange(0, k as int),
        decreases lits@.len() - k,
    {
        v.push(lits[k]);
        k = k + 1;
    }
    assert(v@ == lits@);
    v
}

/// Every literal of `lits` has a variable below `n`.
pub open spec fn lits_in_range(lits: Seq<Lit>, n: nat) -> bool {
    forall|k: int| 0 <= k < lits.len() ==> (#[trigger] lits[k]).var_spec() < n
}

impl Clauses {
    /// Binary pairs and live long clauses mention only variables below `var_count`; live long
    /// clauses have at least three literals.
    pub open spec fn wf(&self) -> bool {
        &&& forall|k: int|
            0 <= k < self.binary@.len() ==> (#[trigger] self.binary@[k]).0.var_spec()
                < self.var_count && self.binary@[k].1.var_spec() < self.var_count
        &&& forall|h: int|
            #[trigger] self.long.is_live(h) ==> lits_in_range(self.long.lits_of(h), self.var_count as nat)
                && self.long.lits_of(h).len() >= 3
    }

    /// An empty database for `var_count` variables.
    pub fn new(var_count: usize) -> (r: Clauses)
        ensures
            r.wf(),
            r.var_count == var_count,
            r.binary@.len() == 0,
            r.long.clauses@.len() == 0,
    {
        Clauses { binary: Vec::new(), long: LongClauses { clauses: Vec::new() }, var_count }
    }

    /// Adds a clause of two or more literals; `Some(handle)` when it is stored as a long clause.
    ///
    /// Input clauses get their length as glue.
    pub fn add_clause(&mut self, data: SolverClauseData, lits: &[Lit]) -> (r: Option<usize>)
        requires
            old(self).wf(),
            lits@.len() >= 2,
            lits_in_range(lits@, old(self).var_count as nat),
        ensures
            final(self).wf(),
            final(self).var_count == old(self).var_count,
            lits@.len() == 2 ==> r.is_none() && final(self).binary@ == old(self).binary@.push(
                (lits@[0], lits@[1]),
            ) && final(self).long == old(self).long,
            lits@.len() > 2 ==> r.is_some() && r.unwrap() == old(self).long.clauses@.len()
                && final(self).binary@ == old(self).binary@ && final(self).long.lits_of(
                old(self).long.clauses@.len() as int,
            ) == lits@ && final(self).long.is_live(old(self).long.clauses@.len() as int)
                && final(self).long.clauses@.len() == old(self).long.clauses@.len() + 1
                && final(self).long.data_of(old(self).long.clauses@.len() as int) == if data.redundant {
                data
            } else {
                SolverClauseData {
                    glue: if lits@.len() <= MAX_GLUE {
                        lits@.len() as usize
                    } else {
                        MAX_GLUE
                    },
                    ..data
                }
            } && forall|g: int|
                0 <= g < old(self).long.clauses@.len() ==> #[trigger] final(self).long.clauses@[g]
                    == old(self).long.clauses@[g],
    {
        if lits.len() == 2 {
            self.binary.push((lits[0], lits[1]));
            assert forall|h: int| #[trigger] self.long.is_live(h) implies lits_in_range(
                self.long.lits_of(h),
                self.var_count as nat,
            ) && self.long.lits_of(h).len() >= 3 by {
                assert(old(self).long.is_live(h));
            }
            None
        } else {
            let mut data = data;
            if !data.redundant {
                data.set_glue(lits.len());
            }
            let v = copy_lits(lits);
            let h = self.long.add(data, v);
            assert forall|g: int| #[trigger] self.long.is_live(g) implies lits_in_range(
                self.long.lits_of(g),
                self.var_count as nat,
            ) && self.long.lits_of(g).len() >= 3 by {
                if g < h {
                    assert(self.long.clauses@[g] == old(self).long.clauses@[g]);
                    assert(old(self).long.is_live(g));
                }
            }
            Some(h)
        }
    }
}

} // verus!
