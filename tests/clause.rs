use bool_vec::BoolVec;
use sat_lab::{Clause, Literal};

#[test]
fn construction() {
    let vref1 = Literal::new(0, false);
    let vref2 = Literal::new(1, true);

    let clause = Clause::new(vec![vref1, vref2]);
    let same_clause = Clause::from_indices(
        vec![vref1.index(), vref2.index()],
        vec![vref1.is_negated(), vref2.is_negated()],
    );
    let again_same_clause = Clause::from_cnf(vec![vref1.as_cnf(), vref2.as_cnf()]);

    assert_eq!(clause, same_clause);
    assert_eq!(clause, again_same_clause);
    assert_eq!(again_same_clause, clause);
}

#[test]
fn operations() {
    let clause = Clause::from_cnf(vec![1, -2, 3]);
    let negated_clause = clause.negated();

    assert_eq!(negated_clause, Clause::from_cnf(vec![-1, 2, -3]));

    let mut bv = BoolVec::from([false, false, false]);
    assert!(clause.test_sat(&bv));
    bv.set(1, true).unwrap();
    assert!(!clause.test_sat(&bv));
    bv.set(2, true).unwrap();
    assert!(clause.test_sat(&bv));

    assert!(
        std::iter::zip(clause.iter_eval(&bv), clause.iter_eval_negated(&bv))
            .map(|(x, nx)| x != nx)
            .all(|x| x)
    );
}

#[test]
fn from_indices_matches_from_cnf() {
    let a = Clause::from_indices(vec![0, 4, 2], vec![true, false, true]);
    let b = Clause::from_cnf(vec![-1, 5, -3]);
    assert_eq!(a, b);
    assert_eq!(b, a);
    assert_ne!(a, Clause::from_cnf(vec![-1, 5, 3]));
    assert_ne!(a, Clause::from_cnf(vec![-1, 5]));
}

#[test]
fn from_indices_truncates_to_shorter() {
    let a = Clause::from_indices(vec![0, 1, 2], vec![true]);
    assert_eq!(a, Clause::from_cnf(vec![-1]));
    let b = Clause::from_indices(vec![3], vec![false, true, true]);
    assert_eq!(b, Clause::from_cnf(vec![4]));
    let e = Clause::from_indices(vec![], vec![true]);
    assert_eq!(e.get_literals().len(), 0);
}

#[test]
fn literals_keep_order_and_duplicates() {
    let c = Clause::from_cnf(vec![3, -3, 3, 1]);
    let vals: Vec<isize> = c.get_literals().iter().map(|l| l.as_cnf()).collect();
    assert_eq!(vals, vec![3, -3, 3, 1]);
}

#[test]
fn negate_in_place_is_literal_wise() {
    let mut c = Clause::from_cnf(vec![1, -2]);
    let r = c.negate().clone();
    assert_eq!(r, Clause::from_cnf(vec![-1, 2]));
    assert_eq!(c, Clause::from_cnf(vec![-1, 2]));
    // The literal-wise negation of (x0 or not x1) is (not x0 or x1), which is
    // satisfied together with the unnegated clause by x0 = x1 = true.
    let bv = BoolVec::from(vec![true, true]);
    assert!(c.test_sat(&bv));
    assert!(c.negated().test_sat(&bv));
}

#[test]
fn evaluation_sequences() {
    let c = Clause::from_cnf(vec![1, -2, 3]);
    let bv = BoolVec::from(vec![true, true, false]);
    assert_eq!(c.iter_eval(&bv), vec![true, false, false]);
    assert_eq!(c.iter_eval_negated(&bv), vec![false, true, true]);
    assert_eq!(c.iter_eval(&bv), vec![true, false, false]);
}

#[test]
fn empty_clause_is_unsatisfied() {
    let c = Clause::new(vec![]);
    let bv = BoolVec::from(vec![true]);
    assert!(!c.test_sat(&bv));
    assert_eq!(c.iter_eval(&bv), Vec::<bool>::new());
}

#[test]
fn shows_as_disjunction() {
    assert_eq!(Clause::from_cnf(vec![1, -2]).to_string(), "(x0 ∨ ¬x1)");
    assert_eq!(Clause::from_cnf(vec![-13]).to_string(), "(¬x12)");
    assert_eq!(Clause::from_cnf(vec![]).to_string(), "()");
    assert_eq!(Clause::from_cnf(vec![101, 10, -3]).to_string(), "(x100 ∨ x9 ∨ ¬x2)");
}
