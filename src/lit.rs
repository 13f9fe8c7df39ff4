//! Literals and variables.
use vstd::prelude::*;

verus! {

/// The backing type used to represent literals and variables.
pub type LitIdx = u32;

/// The largest supported index of a variable.
///
/// A quarter of the backing integer's range, so that a literal code (twice the index plus one)
/// and a few flag bits or sentinel values still fit in a `LitIdx`.
pub const MAX_INDEX: usize = 0x3fff_ffff;

/// The number of representable variables, `MAX_INDEX + 1`.
pub const MAX_VAR_COUNT: usize = 0x4000_0000;

/// The largest 1-based DIMACS number of a variable, `MAX_INDEX + 1`.
pub const MAX_DIMACS: isize = 0x4000_0000;

/// The largest literal code, `2 * MAX_INDEX + 1`.
pub const MAX_CODE: usize = 0x7fff_ffff;

/// A Boolean variable.
///
/// Internally variables are numbered from 0 (the index); for user I/O they are numbered from 1
/// (the DIMACS number), so that a negated variable can be written as a negative integer.
#[derive(Copy, Clone, PartialEq, Eq, Structural, PartialOrd, Ord, Hash, Debug)]
pub struct Var {
    index: LitIdx,
}

impl View for Var {
    type V = nat;

    /// The 0-based index of the variable.
    closed spec fn view(&self) -> nat {
        self.index as nat
    }
}

impl Var {
    #[verifier::type_invariant]
    spec fn inv(self) -> bool {
        self.index <= MAX_INDEX
    }

    /// Variable given in the representation used by the DIMACS CNF format.
    pub fn from_dimacs(number: isize) -> (r: Var)
        requires
            0 < number <= MAX_DIMACS,
        ensures
            forall|x: Var| #[trigger] x@ == r@ ==> x == r,
            r@ == number - 1,
    {
        Var::from_index((number - 1) as usize)
    }

    /// Variable of a given index.
    pub fn from_index(index: usize) -> (r: Var)
        requires
            index <= MAX_INDEX,
        ensures
            forall|x: Var| #[trigger] x@ == r@ ==> x == r,
            r@ == index,
    {
        Var { index: index as LitIdx }
    }

    /// Variable of a given index, without a run-time check: the caller guarantees the bound.
    pub fn from_index_unchecked(index: usize) -> (r: Var)
        requires
            index <= MAX_INDEX,
        ensures
            r@ == index,
            forall|v: Var| v@ == index ==> v == r,
    {
        Var { index: index as LitIdx }
    }

    /// Index of this variable.
    pub fn index(self) -> (r: usize)
        ensures
            r == self@,
            r <= MAX_INDEX,
    {
        proof {
            use_type_invariant(&self);
        }
        self.index as usize
    }

    /// Representation used in the DIMACS CNF format.
    pub fn dimacs(self) -> (r: isize)
        ensures
            r == self@ + 1,
            0 < r <= MAX_DIMACS,
    {
        proof {
            use_type_invariant(&self);
        }
        (self.index + 1) as isize
    }
}

/// The variable index of a literal code.
pub open spec fn code_var(code: nat) -> nat {
    code / 2
}

/// The polarity of a literal code: odd codes are positive.
pub open spec fn code_positive(code: nat) -> bool {
    code % 2 == 1
}

/// The code of the literal of variable `index` with the given polarity.
pub open spec fn code_of(index: nat, positive: bool) -> nat {
    2 * index + if positive {
        1nat
    } else {
        0nat
    }
}

/// The DIMACS number of the literal with the given code.
pub open spec fn code_dimacs(code: nat) -> int {
    if code_positive(code) {
        code_var(code) + 1int
    } else {
        -(code_var(code) + 1)
    }
}

/// A Boolean literal: a variable or its negation.
///
/// The literal is stored as its code: twice the variable's index, plus one for a positive literal.
#[derive(Copy, Clone, PartialEq, Eq, Structural, PartialOrd, Ord, Hash, Debug)]
pub struct Lit {
    code: LitIdx,
}

impl View for Lit {
    type V = nat;

    /// The code of the literal.
    closed spec fn view(&self) -> nat {
        self.code as nat
    }
}

impl Lit {
    #[verifier::type_invariant]
    spec fn inv(self) -> bool {
        self.code <= MAX_CODE
    }

    /// The index of this literal's variable.
    pub open spec fn var_spec(self) -> nat {
        code_var(self@)
    }

    /// Whether this literal is positive.
    pub open spec fn positive_spec(self) -> bool {
        code_positive(self@)
    }

    /// A literal for a given variable; positive if `positive` holds, negative otherwise.
    pub fn from_var(var: Var, positive: bool) -> (r: Lit)
        ensures
            forall|x: Lit| #[trigger] x@ == r@ ==> x == r,
            r@ == code_of(var@, positive),
            r.var_spec() == var@,
            r.positive_spec() == positive,
    {
        let index = var.index();
        let bit: LitIdx = if positive {
            1
        } else {
            0
        };
        let code = (index as LitIdx) * 2 + bit;
        Lit { code }
    }

    /// A literal for the variable of a given index.
    pub fn from_index(index: usize, positive: bool) -> (r: Lit)
        requires
            index <= MAX_INDEX,
        ensures
            forall|x: Lit| #[trigger] x@ == r@ ==> x == r,
            r@ == code_of(index as nat, positive),
            r.var_spec() == index,
            r.positive_spec() == positive,
    {
        Lit::from_var(Var::from_index(index), positive)
    }

    /// A literal for the variable of a given index, without a run-time check: the caller
    /// guarantees the bound.
    pub fn from_index_unchecked(index: usize, positive: bool) -> (r: Lit)
        requires
            index <= MAX_INDEX,
        ensures
            forall|x: Lit| #[trigger] x@ == r@ ==> x == r,
            r@ == code_of(index as nat, positive),
            r.var_spec() == index,
            r.positive_spec() == positive,
    {
        Lit::from_var(Var::from_index_unchecked(index), positive)
    }

    /// A literal with a given encoding, without a run-time check: the caller guarantees the
    /// bound.
    pub fn from_code_unchecked(code: usize) -> (r: Lit)
        requires
            code <= MAX_CODE,
        ensures
            r@ == code,
            forall|l: Lit| l@ == code ==> l == r,
    {
        Lit { code: code as LitIdx }
    }

    /// A literal with a given encoding.
    pub fn from_code(code: usize) -> (r: Lit)
        requires
            code <= MAX_CODE,
        ensures
            forall|x: Lit| #[trigger] x@ == r@ ==> x == r,
            r@ == code,
    {
        Lit { code: code as LitIdx }
    }

    /// Literal given in the representation used by the DIMACS CNF format.
    pub fn from_dimacs(number: isize) -> (r: Lit)
        requires
            number != 0,
            -MAX_DIMACS <= number <= MAX_DIMACS,
        ensures
            forall|x: Lit| #[trigger] x@ == r@ ==> x == r,
            code_dimacs(r@) == number,
            r.var_spec() + 1 == if number > 0 {
                number as int
            } else {
                -number
            },
            r.positive_spec() == (number > 0),
    {
        let magnitude = if number > 0 {
            number
        } else {
            -number
        };
        Lit::from_var(Var::from_dimacs(magnitude), number > 0)
    }

    /// Encoding of this literal.
    pub fn code(self) -> (r: usize)
        ensures
            r == self@,
            r <= MAX_CODE,
    {
        proof {
            use_type_invariant(&self);
        }
        self.code as usize
    }

    /// The variable of this literal.
    pub fn var(self) -> (r: Var)
        ensures
            forall|x: Var| #[trigger] x@ == r@ ==> x == r,
            r@ == self.var_spec(),
    {
        proof {
            use_type_invariant(&self);
        }
        Var { index: self.code / 2 }
    }

    /// Index of this literal's variable.
    pub fn index(self) -> (r: usize)
        ensures
            r == self.var_spec(),
            r <= MAX_INDEX,
    {
        self.var().index()
    }

    /// Whether this is a positive literal.
    pub fn is_positive(self) -> (r: bool)
        ensures
            r == self.positive_spec(),
    {
        self.code % 2 != 0
    }

    /// Whether this is a negative literal.
    pub fn is_negative(self) -> (r: bool)
        ensures
            r == !self.positive_spec(),
    {
        self.code % 2 == 0
    }

    /// The literal of the same variable with the opposite polarity.
    pub fn negate(self) -> (r: Lit)
        ensures
            forall|x: Lit| #[trigger] x@ == r@ ==> x == r,
            r.var_spec() == self.var_spec(),
            r.positive_spec() == !self.positive_spec(),
            r@ == code_of(self.var_spec(), !self.positive_spec()),
    {
        proof {
            use_type_invariant(&self);
        }
        let code = self.code;
        let flipped = code ^ 1;
        assert(flipped == if code % 2 == 1 {
            (code - 1) as u32
        } else {
            (code + 1) as u32
        }) by (bit_vector)
            requires
                flipped == code ^ 1,
                code <= 0x7fff_ffffu32,
        ;
        Lit { code: flipped }
    }

    /// Representation used in the DIMACS CNF format.
    pub fn dimacs(self) -> (r: isize)
        ensures
            r == code_dimacs(self@),
            r != 0,
    {
        let number = self.var().dimacs();
        if self.is_positive() {
            number
        } else {
            -number
        }
    }
}

/// Decoding a DIMACS literal number and encoding it again gives back that number.
pub proof fn lemma_dimacs_round_trip(number: int)
    requires
        number != 0,
        -MAX_DIMACS <= number <= MAX_DIMACS,
    ensures
        ({
            let code = code_of(
                (if number > 0 {
                    number - 1
                } else {
                    -number - 1
                }) as nat,
                number > 0,
            );
            code_dimacs(code) == number && code <= MAX_CODE
        }),
{
}

/// Negating a literal twice gives back that literal, and negation keeps the variable.
pub proof fn lemma_negate_involution(code: nat)
    ensures
        code_var(code_of(code_var(code), !code_positive(code))) == code_var(code),
        code_of(
            code_var(code_of(code_var(code), !code_positive(code))),
            !code_positive(code_of(code_var(code), !code_positive(code))),
        ) == code,
{
}

/// Two variables with the same index are the same variable.
pub broadcast proof fn lemma_var_view_eq(a: Var, b: Var)
    ensures
        #![trigger a@, b@]
        (a@ == b@) == (a == b),
{
}

/// Two literals with the same code are the same literal.
pub broadcast proof fn lemma_lit_view_eq(a: Lit, b: Lit)
    ensures
        #![trigger a@, b@]
        (a@ == b@) == (a == b),
{
}

/// Equal views mean equal values, for variables and for literals.
pub broadcast group group_view_eq {
    lemma_var_view_eq,
    lemma_lit_view_eq,
}

/// Negating a literal twice, as `Lit::negate` does, gives back the same literal; the negation is
/// another literal of the same variable.
pub proof fn lemma_negate_twice(l: Lit, n: Lit, m: Lit)
    requires
        n@ == code_of(l.var_spec(), !l.positive_spec()),
        m@ == code_of(n.var_spec(), !n.positive_spec()),
    ensures
        m == l,
        n != l,
        n.var_spec() == l.var_spec(),
{
    lemma_lit_view_eq(m, l);
    lemma_lit_view_eq(n, l);
}

} // verus!
