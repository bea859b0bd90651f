//! A SAT instance: an assignment of the variables and a sequence of clauses.
use crate::bits::{all_false, bits_of, from_bools};
use crate::clause::{all_below, all_valid, satisfied_by, zip_encode, Clause};
use crate::dimacs::{clause_views, cnf_of, cnf_text, parse_cnf, write_cnf, FormatError};
use crate::literal::{index_of, lemma_new_index_negation};
use crate::round_trip::lemma_save_load;
use bool_vec::BoolVec;
use rand::rngs::StdRng;
use rand::Rng;
use vstd::prelude::*;

verus! {

#[verifier::external_type_specification]
#[verifier::external_body]
pub struct ExStdRng(StdRng);

/// Relies on `Rng::gen_range`: a value drawn from `0..n`, which panics on an
/// empty range.
#[verifier::external_body]
fn random_below(rng: &mut StdRng, n: usize) -> (r: usize)
    requires
        n > 0,
    ensures
        r < n,
{
    rng.gen_range(0..n)
}

/// Relies on `Rng::gen::<bool>`: a random boolean.
#[verifier::external_body]
fn random_bool(rng: &mut StdRng) -> (r: bool) {
    rng.gen()
}

/// The number of clauses of `cs` that the assignment `a` satisfies.
pub open spec fn count_satisfied(a: Seq<bool>, cs: Seq<Seq<int>>) -> nat
    decreases cs.len(),
{
    if cs.len() == 0 {
        0
    } else {
        count_satisfied(a, cs.drop_last()) + if satisfied_by(a, cs.last()) {
            1nat
        } else {
            0nat
        }
    }
}

/// Whether the clause `c` has `k` literals over pairwise distinct variables,
/// all below `n`.
pub open spec fn distinct_clause(c: Seq<int>, k: int, n: int) -> bool {
    &&& c.len() == k
    &&& forall|i: int| 0 <= i < c.len() ==> 0 <= index_of(#[trigger] c[i]) < n
    &&& forall|i: int, j: int|
        0 <= i < c.len() && 0 <= j < c.len() && i != j ==> index_of(#[trigger] c[i]) != index_of(
            #[trigger] c[j],
        )
}

/// A SAT instance.
pub struct Instance {
    pub vars: BoolVec,
    clauses: Vec<Clause>,
}

impl Instance {
    /// The clauses, as sequences of packed literal values.
    pub closed spec fn clause_seq(&self) -> Seq<Seq<int>> {
        clause_views(self.clauses@)
    }

    /// The current assignment.
    pub closed spec fn assignment(&self) -> Seq<bool> {
        bits_of(self.vars)
    }

    /// Well-formed: every literal of every clause is.
    pub open spec fn wf(&self) -> bool {
        forall|i: int| 0 <= i < self.clause_seq().len() ==> all_valid(#[trigger] self.clause_seq()[i])
    }

    /// Every literal names a variable of the assignment.
    pub open spec fn in_bounds(&self) -> bool {
        forall|i: int|
            0 <= i < self.clause_seq().len() ==> all_below(
                #[trigger] self.clause_seq()[i],
                self.assignment().len() as int,
            )
    }

    proof fn lemma_clause_at(&self, i: int)
        requires
            0 <= i < self.clauses@.len(),
        ensures
            self.clause_seq()[i] == self.clauses@[i]@,
            self.clause_seq().len() == self.clauses@.len(),
    {
    }

    /// Creates a new instance with the given variables and clauses.
    pub fn new(vars: BoolVec, clauses: Vec<Clause>) -> (r: Instance)
        requires
            forall|i: int| 0 <= i < clauses.len() ==> (#[trigger] clauses[i]).wf(),
        ensures
            r.assignment() == bits_of(vars),
            r.clause_seq() == clause_views(clauses@),
            r.wf(),
    {
        Instance { vars, clauses }
    }

    /// Creates a new instance with `n` variables, all false, and the given
    /// clauses.
    pub fn with_clauses(n: usize, clauses: Vec<Clause>) -> (r: Instance)
        requires
            forall|i: int| 0 <= i < clauses.len() ==> (#[trigger] clauses[i]).wf(),
        ensures
            r.assignment() == Seq::new(n as nat, |_i: int| false),
            r.clause_seq() == clause_views(clauses@),
            r.wf(),
    {
        Instance { vars: all_false(n), clauses }
    }

    /// Creates a new instance from a DIMACS CNF text. The variables are all
    /// false. Returns an error if the text is malformed.
    pub fn from_cnf_text(text: &[u8]) -> (r: Result<Instance, FormatError>)
        ensures
            r is Err <==> cnf_of(text@) is None,
            r matches Ok(inst) ==> cnf_of(text@) == Some(
                (inst.assignment().len() as int, inst.clause_seq()),
            ) && inst.assignment() == Seq::new(inst.assignment().len(), |_i: int| false)
                && inst.wf(),
    {
        match parse_cnf(text) {
            Ok((n, clauses)) => Ok(Instance::with_clauses(n, clauses)),
            Err(e) => Err(e),
        }
    }

    /// Returns the instance as DIMACS CNF text. The assignment is not part
    /// of the format: only the variable count and the clauses are written.
    pub fn to_cnf_text(&self) -> (r: Vec<u8>)
        requires
            self.wf(),
        ensures
            r@ == cnf_text(self.assignment().len(), self.clause_seq()),
    {
        proof {
            assert forall|i: int| 0 <= i < self.clauses@.len() implies (#[trigger] self.clauses@[i]).wf() by {
                self.lemma_clause_at(i);
            }
        }
        write_cnf(self.vars.len(), &self.clauses)
    }

    /// Creates a random instance of `n` variables and `m` clauses of `k`
    /// literals each. The variables of one clause are pairwise distinct; each
    /// negation flag and each variable of the assignment is drawn at random.
    pub fn new_random_with(rng: &mut StdRng, n: usize, m: usize, k: usize) -> (r: Instance)
        requires
            k <= n,
            n <= isize::MAX,
        ensures
            r.assignment().len() == n,
            r.clause_seq().len() == m,
            forall|i: int| 0 <= i < m ==> distinct_clause(#[trigger] r.clause_seq()[i], k as int, n as int),
            r.wf(),
            r.in_bounds(),
    {
        let mut bools: Vec<bool> = Vec::new();
        let mut i: usize = 0;
        while i < n
            invariant
                i <= n,
                bools@.len() == i,
            decreases n - i,
        {
            bools.push(random_bool(rng));
            i = i + 1;
        }
        let vars = from_bools(bools);
        // The variables, kept as a permutation of 0..n; each clause takes its
        // variables from a partial shuffle of it.
        let mut pool: Vec<usize> = Vec::new();
        let mut p: usize = 0;
        while p < n
            invariant
                p <= n,
                pool@.len() == p,
                forall|a: int| 0 <= a < p ==> #[trigger] pool@[a] == a,
            decreases n - p,
        {
            pool.push(p);
            p = p + 1;
        }
        let mut clauses: Vec<Clause> = Vec::new();
        let mut c: usize = 0;
        while c < m
            invariant
                c <= m,
                k <= n <= isize::MAX,
                bits_of(vars).len() == n,
                pool@.len() == n,
                forall|a: int| 0 <= a < n ==> #[trigger] pool@[a] < n,
                forall|a: int, b: int| 0 <= a < n && 0 <= b < n && a != b ==> #[trigger] pool@[a] != #[trigger] pool@[b],
                clauses@.len() == c,
                forall|a: int| 0 <= a < c ==> (#[trigger] clauses@[a]).wf(),
                forall|a: int| 0 <= a < c ==> distinct_clause(#[trigger] clauses@[a]@, k as int, n as int),
            decreases m - c,
        {
            let mut idx: Vec<usize> = Vec::new();
            let mut neg: Vec<bool> = Vec::new();
            let mut j: usize = 0;
            while j < k
                invariant
                    j <= k <= n <= isize::MAX,
                    pool@.len() == n,
                    forall|a: int| 0 <= a < n ==> #[trigger] pool@[a] < n,
                    forall|a: int, b: int| 0 <= a < n && 0 <= b < n && a != b ==> #[trigger] pool@[a] != #[trigger] pool@[b],
                    idx@ == pool@.subrange(0, j as int),
                    neg@.len() == j,
                decreases k - j,
            {
                let s = j + random_below(rng, n - j);
                let x = pool[j];
                let y = pool[s];
                pool.set(j, y);
                pool.set(s, x);
                idx.push(y);
                neg.push(random_bool(rng));
                j = j + 1;
                assert(idx@ =~= pool@.subrange(0, j as int));
            }
            let cl = Clause::from_indices(idx, neg);
            proof {
                let z = zip_encode(idx@, neg@);
                assert forall|a: int| 0 <= a < z.len() implies index_of(#[trigger] z[a]) == idx@[a] by {
                    lemma_new_index_negation(idx@[a] as int, neg@[a]);
                }
                assert(distinct_clause(cl@, k as int, n as int));
            }
            clauses.push(cl);
            c = c + 1;
        }
        let r = Instance { vars, clauses };
        proof {
            assert forall|i: int| 0 <= i < m implies distinct_clause(#[trigger] r.clause_seq()[i], k as int, n as int) by {
                r.lemma_clause_at(i);
            }
            assert forall|i: int| 0 <= i < r.clause_seq().len() implies all_valid(#[trigger] r.clause_seq()[i]) by {
                r.lemma_clause_at(i);
            }
        }
        r
    }

    /// Replaces the assignment by independent random values, keeping its
    /// length; returns the new assignment.
    pub fn sample_new_variables_with(&mut self, rng: &mut StdRng) -> (r: &BoolVec)
        ensures
            final(self).assignment().len() == old(self).assignment().len(),
            final(self).clause_seq() == old(self).clause_seq(),
            bits_of(*r) == final(self).assignment(),
    {
        let n = self.vars.len();
        let mut bools: Vec<bool> = Vec::new();
        let mut i: usize = 0;
        while i < n
            invariant
                i <= n,
                bools@.len() == i,
            decreases n - i,
        {
            bools.push(random_bool(rng));
            i = i + 1;
        }
        self.set_assignment(bools);
        &self.vars
    }

    /// Replaces the assignment by `bits`, which has one value per variable.
    pub fn set_assignment(&mut self, bits: Vec<bool>)
        requires
            bits@.len() == old(self).assignment().len(),
        ensures
            final(self).assignment() == bits@,
            final(self).clause_seq() == old(self).clause_seq(),
    {
        self.vars = from_bools(bits);
    }

    /// Returns the number of variables: the length of the assignment.
    pub fn var_count(&self) -> (r: usize)
        ensures
            r == self.assignment().len(),
    {
        self.vars.len()
    }

    /// Returns the current assignment.
    pub fn vars(&self) -> (r: &BoolVec)
        ensures
            bits_of(*r) == self.assignment(),
    {
        &self.vars
    }

    /// Returns the number of clauses that the current assignment satisfies.
    pub fn count_sat(&self) -> (r: usize)
        requires
            self.wf(),
            self.in_bounds(),
        ensures
            r == count_satisfied(self.assignment(), self.clause_seq()),
    {
        let mut count: usize = 0;
        let mut i: usize = 0;
        while i < self.clauses.len()
            invariant
                i <= self.clauses@.len(),
                self.wf(),
                self.in_bounds(),
                count <= i,
                count == count_satisfied(self.assignment(), self.clause_seq().subrange(0, i as int)),
            decreases self.clauses.len() - i,
        {
            proof {
                self.lemma_clause_at(i as int);
                assert(self.clause_seq().subrange(0, i + 1).drop_last() =~= self.clause_seq().subrange(0, i as int));
            }
            if self.clauses[i].test_sat(&self.vars) {
                count = count + 1;
            }
            i = i + 1;
        }
        assert(self.clause_seq().subrange(0, i as int) =~= self.clause_seq());
        count
    }

    /// Returns whether the current assignment satisfies every clause.
    pub fn is_sat(&self) -> (r: bool)
        requires
            self.wf(),
            self.in_bounds(),
        ensures
            r == (count_satisfied(self.assignment(), self.clause_seq()) == self.clause_seq().len()),
            r == forall|i: int| 0 <= i < self.clause_seq().len() ==> satisfied_by(self.assignment(), #[trigger] self.clause_seq()[i]),
    {
        proof {
            lemma_count_all(self.assignment(), self.clause_seq());
            assert(self.clause_seq().len() == self.clauses@.len());
        }
        self.count_sat() == self.clauses.len()
    }

    /// Returns the clauses.
    pub fn get_clauses(&self) -> (r: &Vec<Clause>)
        ensures
            clause_views(r@) == self.clause_seq(),
    {
        &self.clauses
    }
}

/// Saving an instance as DIMACS CNF text and loading that text back gives
/// its variable count and its clauses, in order (the assignment is not
/// part of the text).
pub proof fn lemma_instance_save_load(inst: &Instance)
    requires
        inst.wf(),
        inst.assignment().len() <= usize::MAX,
        inst.clause_seq().len() <= usize::MAX,
    ensures
        cnf_of(cnf_text(inst.assignment().len(), inst.clause_seq()))
            == Some((inst.assignment().len() as int, inst.clause_seq())),
{
    lemma_save_load(inst.assignment().len(), inst.clause_seq());
}

/// All clauses are satisfied exactly when the count of satisfied clauses is
/// the number of clauses.
pub proof fn lemma_count_all(a: Seq<bool>, cs: Seq<Seq<int>>)
    ensures
        count_satisfied(a, cs) <= cs.len(),
        (count_satisfied(a, cs) == cs.len()) == forall|i: int| 0 <= i < cs.len() ==> satisfied_by(a, #[trigger] cs[i]),
    decreases cs.len(),
{
    if cs.len() > 0 {
        let d = cs.drop_last();
        lemma_count_all(a, d);
        if forall|i: int| 0 <= i < cs.len() ==> satisfied_by(a, #[trigger] cs[i]) {
            assert forall|i: int| 0 <= i < d.len() implies satisfied_by(a, #[trigger] d[i]) by {
                assert(d[i] == cs[i]);
            }
        }
        if forall|i: int| 0 <= i < d.len() ==> satisfied_by(a, #[trigger] d[i]) {
            if satisfied_by(a, cs.last()) {
                assert forall|i: int| 0 <= i < cs.len() implies satisfied_by(a, #[trigger] cs[i]) by {
                    if i < d.len() {
                        assert(d[i] == cs[i]);
                    }
                }
            }
        }
    }
}

} // verus!
