//! The assignment store: `bool_vec::BoolVec`, seen through the sequence of
//! booleans that it holds.
use bool_vec::BoolVec;
use vstd::prelude::*;

verus! {

#[verifier::external_type_specification]
#[verifier::external_body]
pub struct ExBoolVec(BoolVec);

/// The booleans held by a `BoolVec`, in index order.
pub uninterp spec fn bits_of(v: BoolVec) -> Seq<bool>;

/// Relies on `BoolVec::len`: the number of booleans stored.
pub assume_specification[ BoolVec::len ](v: &BoolVec) -> (r: usize)
    ensures
        r as int == bits_of(*v).len(),
;

/// Relies on `BoolVec::get`: the stored boolean, or `None` past the end.
pub assume_specification[ BoolVec::get ](v: &BoolVec, int_index: usize) -> (r: Option<bool>)
    ensures
        int_index < bits_of(*v).len() ==> r == Some(bits_of(*v)[int_index as int]),
        int_index >= bits_of(*v).len() ==> r.is_none(),
;

/// A `BoolVec` of `n` booleans, all `false`.
pub fn all_false(n: usize) -> (r: BoolVec)
    ensures
        bits_of(r) == Seq::new(n as nat, |_i: int| false),
{
    let mut b: Vec<bool> = Vec::new();
    let mut i: usize = 0;
    while i < n
        invariant
            i <= n,
            b@ == Seq::new(i as nat, |_i: int| false),
        decreases n - i,
    {
        b.push(false);
        i = i + 1;
        assert(b@ =~= Seq::new(i as nat, |_i: int| false));
    }
    from_bools(b)
}

/// Relies on `BoolVec::from`: a vector holding the given booleans, in order.
#[verifier::external_body]
pub(crate) fn from_bools(b: Vec<bool>) -> (r: BoolVec)
    ensures
        bits_of(r) == b@,
{
    BoolVec::from(b)
}

} // verus!
