//! A literal packed into one signed integer: the magnitude is the variable
//! index plus one, a negative sign marks a negated variable. This is the
//! DIMACS encoding itself.
use crate::bits::bits_of;
use bool_vec::BoolVec;
use vstd::prelude::*;

verus! {

/// The packed value of the literal on variable `index`, negated or not.
pub open spec fn encode(index: int, negated: bool) -> int {
    if negated {
        -(index + 1)
    } else {
        index + 1
    }
}

/// The variable index that a packed value refers to.
pub open spec fn index_of(v: int) -> int {
    if v < 0 {
        -v - 1
    } else {
        v - 1
    }
}

/// Whether a packed value is negated.
pub open spec fn negated_of(v: int) -> bool {
    v < 0
}

/// The truth value of the packed literal `v` under the assignment `a`.
pub open spec fn eval_of(a: Seq<bool>, v: int) -> bool {
    a[index_of(v)] != negated_of(v)
}

/// Whether `v` is a packed value that a `Literal` can hold: nonzero, and
/// with a magnitude that fits in `isize`.
pub open spec fn valid_value(v: int) -> bool {
    v != 0 && isize::MIN < v <= isize::MAX
}

/// A variable reference that may be negated, stored in a single `isize`.
#[derive(Debug, Clone, Copy, PartialEq, Eq, Structural)]
pub struct Literal(isize);

impl View for Literal {
    type V = int;

    closed spec fn view(&self) -> int {
        self.0 as int
    }
}

impl Literal {
    /// Well-formed: the packed value is nonzero and can be negated.
    pub open spec fn wf(self) -> bool {
        valid_value(self@)
    }

    /// Literals are equal exactly when their packed values are.
    pub proof fn lemma_view_eq(a: Literal, b: Literal)
        ensures
            (a == b) <==> (a@ == b@),
    {
    }

    /// Creates a new literal from a variable index and a negation flag.
    pub fn new(var_index: usize, negated: bool) -> (r: Literal)
        requires
            var_index < isize::MAX,
        ensures
            r@ == encode(var_index as int, negated),
            r.wf(),
            index_of(r@) == var_index,
            negated_of(r@) == negated,
    {
        let v = var_index as isize + 1;
        Literal(if negated { -v } else { v })
    }

    /// Creates a new literal from its DIMACS representation.
    pub fn from_cnf(cnf: isize) -> (r: Literal)
        requires
            valid_value(cnf as int),
        ensures
            r@ == cnf,
            r.wf(),
    {
        Literal(cnf)
    }

    /// Returns the DIMACS representation of the literal.
    pub fn as_cnf(&self) -> (r: isize)
        ensures
            r == self@,
    {
        self.0
    }

    /// Returns the variable index of the literal.
    pub fn index(&self) -> (r: usize)
        requires
            self.wf(),
        ensures
            r == index_of(self@),
    {
        if self.0 < 0 {
            (-self.0) as usize - 1
        } else {
            self.0 as usize - 1
        }
    }

    /// Returns whether the literal is negated.
    pub fn is_negated(&self) -> (r: bool)
        ensures
            r == negated_of(self@),
    {
        self.0 < 0
    }

    /// Returns the negated literal.
    /// For in-place negation, use `negate`.
    pub fn negated(&self) -> (r: Literal)
        requires
            self.wf(),
        ensures
            r@ == -self@,
            r.wf(),
    {
        Literal(-self.0)
    }

    /// Negates the literal in place.
    /// For a version that leaves `self` alone, use `negated`.
    pub fn negate(&mut self) -> (r: &Self)
        requires
            old(self).wf(),
        ensures
            final(self)@ == -old(self)@,
            final(self).wf(),
            *r == *final(self),
    {
        self.0 = -self.0;
        self
    }

    /// Evaluates the literal under the given variable values (the stored
    /// value, flipped when the literal is negated).
    /// The variable must be present: see `try_eval_with`.
    pub fn eval_with(&self, vars: &BoolVec) -> (r: bool)
        requires
            self.wf(),
            index_of(self@) < bits_of(*vars).len(),
        ensures
            r == eval_of(bits_of(*vars), self@),
    {
        let v = vars.get(self.index());
        match v {
            Some(b) => b != self.is_negated(),
            None => false,
        }
    }

    /// Evaluates the literal under the given variable values.
    /// Returns `None` if the variable is not present in `vars`.
    pub fn try_eval_with(&self, vars: &BoolVec) -> (r: Option<bool>)
        requires
            self.wf(),
        ensures
            index_of(self@) < bits_of(*vars).len() ==> r == Some(eval_of(bits_of(*vars), self@)),
            index_of(self@) >= bits_of(*vars).len() ==> r.is_none(),
    {
        match vars.get(self.index()) {
            Some(b) => Some(b != self.is_negated()),
            None => None,
        }
    }
}

/// A literal built from an index and a flag gives back that index and flag.
pub proof fn lemma_new_index_negation(index: int, negated: bool)
    requires
        0 <= index,
    ensures
        index_of(encode(index, negated)) == index,
        negated_of(encode(index, negated)) == negated,
{
}

/// Negating a literal twice gives back the literal.
pub proof fn lemma_double_negation(l: int)
    requires
        valid_value(l),
    ensures
        valid_value(-l),
        -(-l) == l,
{
}

/// A literal and its negation always evaluate to different values.
pub proof fn lemma_negation_flips_eval(a: Seq<bool>, l: int)
    requires
        valid_value(l),
        index_of(l) < a.len(),
    ensures
        index_of(-l) == index_of(l),
        eval_of(a, l) != eval_of(a, -l),
{
}

} // verus!
