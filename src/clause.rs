//! A clause: an ordered disjunction of literals.
use crate::bits::bits_of;
use crate::literal::{encode, eval_of, index_of, valid_value, Literal};
use bool_vec::BoolVec;
use vstd::prelude::*;

verus! {

/// A clause is a sequence of literals, kept in the order given: nothing is
/// sorted, deduplicated or simplified.
#[derive(Debug, Clone)]
pub struct Clause(Vec<Literal>);

/// The packed values of a sequence of literals.
pub open spec fn values_of(s: Seq<Literal>) -> Seq<int> {
    Seq::new(s.len(), |i: int| s[i]@)
}

/// Whether every packed value of `s` can be held by a `Literal`.
pub open spec fn all_valid(s: Seq<int>) -> bool {
    forall|i: int| 0 <= i < s.len() ==> valid_value(#[trigger] s[i])
}

/// Whether every packed value of `s` names a variable below `n`.
pub open spec fn all_below(s: Seq<int>, n: int) -> bool {
    forall|i: int| 0 <= i < s.len() ==> index_of(#[trigger] s[i]) < n
}

/// The value of each literal of `s` under the assignment `a`.
pub open spec fn evals_of(a: Seq<bool>, s: Seq<int>) -> Seq<bool> {
    s.map_values(|v: int| eval_of(a, v))
}

/// Whether some literal of `s` is true under `a`.
pub open spec fn satisfied_by(a: Seq<bool>, s: Seq<int>) -> bool {
    exists|i: int| 0 <= i < s.len() && eval_of(a, #[trigger] s[i])
}

/// The packed literals built from paired indices and flags, up to the
/// shorter of the two sequences.
pub open spec fn zip_encode(idx: Seq<usize>, neg: Seq<bool>) -> Seq<int> {
    let n = if idx.len() <= neg.len() { idx.len() } else { neg.len() };
    Seq::new(n, |i: int| encode(idx[i] as int, neg[i]))
}

/// The character of the decimal digit `d`.
pub open spec fn digit_char(d: int) -> char {
    if d == 0 { '0' } else if d == 1 { '1' } else if d == 2 { '2' } else if d == 3 { '3' }
    else if d == 4 { '4' } else if d == 5 { '5' } else if d == 6 { '6' } else if d == 7 { '7' }
    else if d == 8 { '8' } else { '9' }
}

/// The decimal digits of `v`, as characters.
pub open spec fn decimal_chars(v: nat) -> Seq<char>
    decreases v,
{
    if v < 10 {
        seq![digit_char(v as int)]
    } else {
        decimal_chars(v / 10).push(digit_char((v % 10) as int))
    }
}

/// How a literal is shown: `x3` for variable 3, `¬x3` for its negation.
pub open spec fn literal_chars(v: int) -> Seq<char> {
    (if v < 0 { seq!['¬'] } else { Seq::empty() }) + seq!['x'] + decimal_chars(index_of(v) as nat)
}

/// The literals of `c` as shown, separated by ` ∨ `.
pub open spec fn disjunction_chars(c: Seq<int>) -> Seq<char>
    decreases c.len(),
{
    if c.len() == 0 {
        Seq::empty()
    } else if c.len() == 1 {
        literal_chars(c[0])
    } else {
        disjunction_chars(c.drop_last()) + seq![' ', '∨', ' '] + literal_chars(c.last())
    }
}

/// How a clause is shown: its disjunction in parentheses.
pub open spec fn clause_chars(c: Seq<int>) -> Seq<char> {
    seq!['('] + disjunction_chars(c) + seq![')']
}

/// Appends the decimal digits of `v`.
fn append_decimal(out: &mut String, v: usize)
    ensures
        final(out)@ == old(out)@ + decimal_chars(v as nat),
    decreases v,
{
    if v >= 10 {
        append_decimal(out, v / 10);
    }
    let d = v % 10;
    let s = if d == 0 { "0" } else if d == 1 { "1" } else if d == 2 { "2" } else if d == 3 { "3" }
        else if d == 4 { "4" } else if d == 5 { "5" } else if d == 6 { "6" } else if d == 7 { "7" }
        else if d == 8 { "8" } else { "9" };
    proof {
        reveal_strlit("0");
        reveal_strlit("1");
        reveal_strlit("2");
        reveal_strlit("3");
        reveal_strlit("4");
        reveal_strlit("5");
        reveal_strlit("6");
        reveal_strlit("7");
        reveal_strlit("8");
        reveal_strlit("9");
    }
    assert(s@ == seq![digit_char(d as int)]);
    out.append(s);
    assert(final(out)@ =~= old(out)@ + decimal_chars(v as nat));
}

impl View for Clause {
    type V = Seq<int>;

    closed spec fn view(&self) -> Seq<int> {
        values_of(self.0@)
    }
}

impl PartialEq for Clause {
    fn eq(&self, other: &Clause) -> (r: bool)
        ensures
            r == (self@ == other@),
    {
        assert(self@ == values_of(self.0@));
        assert(values_of(self.0@).len() == self.0@.len());
        if self.0.len() != other.0.len() {
            return false;
        }
        let mut i: usize = 0;
        while i < self.0.len()
            invariant
                i <= self.0.len() == other.0.len(),
                forall|j: int| 0 <= j < i ==> self@[j] == other@[j],
            decreases self.0.len() - i,
        {
            proof {
                lemma_values_index(self.0@, i as int);
                lemma_values_index(other.0@, i as int);
            }
            if self.0[i].as_cnf() != other.0[i].as_cnf() {
                return false;
            }
            i = i + 1;
        }
        assert(self@ =~= other@);
        true
    }
}

impl vstd::std_specs::cmp::PartialEqSpecImpl for Clause {
    open spec fn obeys_eq_spec() -> bool {
        true
    }

    open spec fn eq_spec(&self, other: &Clause) -> bool {
        self@ == other@
    }
}

impl Eq for Clause {
}

impl Clause {
    /// Well-formed: every literal is.
    pub open spec fn wf(&self) -> bool {
        all_valid(self@)
    }

    /// Creates a new clause from a collection of literals, kept as given.
    pub fn new(elems: Vec<Literal>) -> (r: Clause)
        requires
            forall|i: int| 0 <= i < elems.len() ==> (#[trigger] elems[i]).wf(),
        ensures
            r@ == values_of(elems@),
            r.wf(),
    {
        assert forall|i: int| 0 <= i < values_of(elems@).len() implies valid_value(#[trigger] values_of(elems@)[i]) by {
            lemma_values_index(elems@, i);
        }
        Clause(elems)
    }

    /// Creates a new clause from variable indices and negation flags, paired
    /// up in order. The longer input is cut to the length of the shorter.
    pub fn from_indices(var_indices: Vec<usize>, negates: Vec<bool>) -> (r: Clause)
        requires
            forall|i: int| 0 <= i < var_indices.len() && i < negates.len() ==> #[trigger] var_indices[i] < isize::MAX,
        ensures
            r@ == zip_encode(var_indices@, negates@),
            r.wf(),
    {
        let n = if var_indices.len() <= negates.len() { var_indices.len() } else { negates.len() };
        let mut lits: Vec<Literal> = Vec::new();
        let mut i: usize = 0;
        while i < n
            invariant
                i <= n,
                n <= var_indices.len(),
                n <= negates.len(),
                n == if var_indices.len() <= negates.len() { var_indices.len() } else { negates.len() },
                forall|j: int| 0 <= j < var_indices.len() && j < negates.len() ==> #[trigger] var_indices[j] < isize::MAX,
                values_of(lits@) =~= Seq::new(i as nat, |j: int| encode(var_indices[j] as int, negates[j])),
                all_valid(values_of(lits@)),
            decreases n - i,
        {
            let l = Literal::new(var_indices[i], negates[i]);
            proof { lemma_values_push(lits@, l); }
            lits.push(l);
            i = i + 1;
            assert(values_of(lits@) =~= Seq::new(i as nat, |j: int| encode(var_indices[j] as int, negates[j])));
        }
        Clause(lits)
    }

    /// Creates a new clause from DIMACS literal values.
    pub fn from_cnf(cnfs: Vec<isize>) -> (r: Clause)
        requires
            forall|i: int| 0 <= i < cnfs.len() ==> valid_value(#[trigger] cnfs[i] as int),
        ensures
            r@ == cnfs@.map_values(|v: isize| v as int),
            r.wf(),
    {
        let mut lits: Vec<Literal> = Vec::new();
        let mut i: usize = 0;
        while i < cnfs.len()
            invariant
                i <= cnfs.len(),
                forall|j: int| 0 <= j < cnfs.len() ==> valid_value(#[trigger] cnfs[j] as int),
                values_of(lits@) =~= cnfs@.subrange(0, i as int).map_values(|v: isize| v as int),
                all_valid(values_of(lits@)),
            decreases cnfs.len() - i,
        {
            let l = Literal::from_cnf(cnfs[i]);
            proof { lemma_values_push(lits@, l); }
            lits.push(l);
            i = i + 1;
            assert(values_of(lits@) =~= cnfs@.subrange(0, i as int).map_values(|v: isize| v as int));
        }
        assert(cnfs@.subrange(0, cnfs.len() as int) =~= cnfs@);
        Clause(lits)
    }

    /// Returns the clause in which every literal is negated.
    ///
    /// This is literal-wise negation: each disjunct is replaced by its
    /// negation, which is not the logical complement of the clause.
    /// For in-place negation, use `negate`.
    pub fn negated(&self) -> (r: Clause)
        requires
            self.wf(),
        ensures
            r@ == self@.map_values(|v: int| -v),
            r.wf(),
    {
        let mut lits: Vec<Literal> = Vec::new();
        let mut i: usize = 0;
        while i < self.0.len()
            invariant
                i <= self.0.len(),
                all_valid(self@),
                values_of(lits@) =~= self@.subrange(0, i as int).map_values(|v: int| -v),
                all_valid(values_of(lits@)),
            decreases self.0.len() - i,
        {
            assert(valid_value(self@[i as int]));
            proof { lemma_values_index(self.0@, i as int); }
            let l = self.0[i].negated();
            proof { lemma_values_push(lits@, l); }
            lits.push(l);
            i = i + 1;
            assert(values_of(lits@) =~= self@.subrange(0, i as int).map_values(|v: int| -v));
        }
        assert(self@.subrange(0, self@.len() as int) =~= self@);
        Clause(lits)
    }

    /// Negates every literal of the clause in place (literal-wise negation,
    /// as in `negated`).
    pub fn negate(&mut self) -> (r: &Self)
        requires
            old(self).wf(),
        ensures
            final(self)@ == old(self)@.map_values(|v: int| -v),
            final(self).wf(),
            *r == *final(self),
    {
        let ghost orig = self@;
        let mut i: usize = 0;
        while i < self.0.len()
            invariant
                i <= self.0.len(),
                self@.len() == orig.len(),
                all_valid(orig),
                forall|j: int| 0 <= j < i ==> #[trigger] self@[j] == -orig[j],
                forall|j: int| i <= j < self@.len() ==> #[trigger] self@[j] == orig[j],
            decreases self.0.len() - i,
        {
            assert(valid_value(orig[i as int]));
            proof { lemma_values_index(self.0@, i as int); }
            let mut l = self.0[i];
            l.negate();
            let ghost prev = self.0@;
            self.0.set(i, l);
            proof {
                assert forall|j: int| 0 <= j < self@.len() implies #[trigger] self@[j] == (if j == i { l@ } else { values_of(prev)[j] }) by {
                    lemma_values_index(self.0@, j);
                    lemma_values_index(prev, j);
                }
            }
            i = i + 1;
        }
        assert(self@ =~= orig.map_values(|v: int| -v));
        self
    }

    /// Returns the value of each literal under the given variable values, in
    /// order.
    pub fn iter_eval(&self, vars: &BoolVec) -> (r: Vec<bool>)
        requires
            self.wf(),
            all_below(self@, bits_of(*vars).len() as int),
        ensures
            r@ == evals_of(bits_of(*vars), self@),
    {
        let mut out: Vec<bool> = Vec::new();
        let mut i: usize = 0;
        while i < self.0.len()
            invariant
                i <= self.0.len(),
                self.wf(),
                all_below(self@, bits_of(*vars).len() as int),
                out@ =~= evals_of(bits_of(*vars), self@.subrange(0, i as int)),
            decreases self.0.len() - i,
        {
            assert(valid_value(self@[i as int]));
            assert(index_of(self@[i as int]) < bits_of(*vars).len());
            proof { lemma_values_index(self.0@, i as int); }
            out.push(self.0[i].eval_with(vars));
            i = i + 1;
            assert(out@ =~= evals_of(bits_of(*vars), self@.subrange(0, i as int)));
        }
        assert(self@.subrange(0, self@.len() as int) =~= self@);
        out
    }

    /// Returns the value of the negation of each literal under the given
    /// variable values, in order. The clause itself is left unchanged.
    pub fn iter_eval_negated(&self, vars: &BoolVec) -> (r: Vec<bool>)
        requires
            self.wf(),
            all_below(self@, bits_of(*vars).len() as int),
        ensures
            r@ == evals_of(bits_of(*vars), self@.map_values(|v: int| -v)),
    {
        let mut out: Vec<bool> = Vec::new();
        let mut i: usize = 0;
        let ghost neg = self@.map_values(|v: int| -v);
        while i < self.0.len()
            invariant
                i <= self.0.len(),
                self.wf(),
                neg == self@.map_values(|v: int| -v),
                all_below(self@, bits_of(*vars).len() as int),
                out@ =~= evals_of(bits_of(*vars), neg.subrange(0, i as int)),
            decreases self.0.len() - i,
        {
            assert(valid_value(self@[i as int]));
            assert(index_of(self@[i as int]) < bits_of(*vars).len());
            proof { lemma_values_index(self.0@, i as int); }
            let l = self.0[i].negated();
            out.push(l.eval_with(vars));
            i = i + 1;
            assert(out@ =~= evals_of(bits_of(*vars), neg.subrange(0, i as int)));
        }
        assert(neg.subrange(0, neg.len() as int) =~= neg);
        out
    }

    /// Returns whether some literal of the clause is true under the given
    /// variable values.
    pub fn test_sat(&self, vars: &BoolVec) -> (r: bool)
        requires
            self.wf(),
            all_below(self@, bits_of(*vars).len() as int),
        ensures
            r == satisfied_by(bits_of(*vars), self@),
    {
        let mut i: usize = 0;
        while i < self.0.len()
            invariant
                i <= self.0.len(),
                self.wf(),
                all_below(self@, bits_of(*vars).len() as int),
                forall|j: int| 0 <= j < i ==> !eval_of(bits_of(*vars), #[trigger] self@[j]),
            decreases self.0.len() - i,
        {
            assert(valid_value(self@[i as int]));
            assert(index_of(self@[i as int]) < bits_of(*vars).len());
            proof { lemma_values_index(self.0@, i as int); }
            if self.0[i].eval_with(vars) {
                return true;
            }
            i = i + 1;
        }
        false
    }

    /// Returns the clause as text, such as `(x0 ∨ ¬x1)`.
    pub fn to_string(&self) -> (r: String)
        requires
            self.wf(),
        ensures
            r@ == clause_chars(self@),
    {
        let mut out = String::new();
        proof {
            reveal_strlit("(");
            reveal_strlit(")");
            reveal_strlit(" ∨ ");
            reveal_strlit("¬");
            reveal_strlit("x");
        }
        out.append("(");
        let mut i: usize = 0;
        assert(self@.subrange(0, 0) =~= Seq::<int>::empty());
        while i < self.0.len()
            invariant
                i <= self.0.len(),
                self.wf(),
                out@ == seq!['('] + disjunction_chars(self@.subrange(0, i as int)),
            decreases self.0.len() - i,
        {
            proof {
                reveal_strlit(" ∨ ");
                reveal_strlit("¬");
                reveal_strlit("x");
            }
            if i != 0 {
                out.append(" ∨ ");
            }
            proof {
                lemma_values_index(self.0@, i as int);
            }
            let l = self.0[i];
            assert(valid_value(self@[i as int]));
            let ghost mid = out@;
            if l.is_negated() {
                out.append("¬");
            }
            out.append("x");
            assert(out@ =~= mid + (if self@[i as int] < 0 { seq!['¬'] } else { Seq::empty() }) + seq!['x']);
            append_decimal(&mut out, l.index());
            assert(out@ =~= mid + literal_chars(self@[i as int]));
            let ghost sub = self@.subrange(0, i + 1);
            assert(sub.drop_last() =~= self@.subrange(0, i as int));
            assert(sub.last() == self@[i as int]);
            if i == 0 {
                assert(sub =~= seq![self@[0]]);
            }
            i = i + 1;
            assert(out@ =~= seq!['('] + disjunction_chars(self@.subrange(0, i as int)));
        }
        out.append(")");
        assert(self@.subrange(0, i as int) =~= self@);
        out
    }

    /// Returns the literals, in order.
    pub fn get_literals(&self) -> (r: &[Literal])
        ensures
            values_of(r@) == self@,
    {
        self.0.as_slice()
    }
}

proof fn lemma_values_index(s: Seq<Literal>, i: int)
    requires
        0 <= i < s.len(),
    ensures
        values_of(s)[i] == s[i]@,
{
}

proof fn lemma_values_push(s: Seq<Literal>, l: Literal)
    ensures
        values_of(s.push(l)) == values_of(s).push(l@),
{
    assert(values_of(s.push(l)) =~= values_of(s).push(l@));
}

/// Building a clause from indices and flags, or from the DIMACS values of
/// the same literals, gives equal clauses.
pub proof fn lemma_indices_match_cnf(idx: Seq<usize>, neg: Seq<bool>, cnf: Seq<isize>)
    requires
        idx.len() == neg.len(),
        cnf.len() == idx.len(),
        forall|i: int| 0 <= i < idx.len() ==> #[trigger] idx[i] < isize::MAX,
        forall|i: int| 0 <= i < cnf.len() ==> #[trigger] cnf[i] == encode(idx[i] as int, neg[i]),
    ensures
        zip_encode(idx, neg) == cnf.map_values(|v: isize| v as int),
        cnf.map_values(|v: isize| v as int) == zip_encode(idx, neg),
{
    assert(zip_encode(idx, neg) =~= cnf.map_values(|v: isize| v as int));
}

} // verus!
