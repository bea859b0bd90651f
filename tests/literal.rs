use bool_vec::BoolVec;
use sat_lab::Literal;

#[test]
fn cnf() {
    let non_neg = Literal::from_cnf(1);
    let neg = Literal::from_cnf(-1);

    assert_eq!(non_neg.index(), 0);
    assert_eq!(non_neg.is_negated(), false);
    assert_eq!(neg.index(), 0);
    assert_eq!(neg.is_negated(), true);
}

#[test]
fn new() {
    let non_neg = Literal::new(0, false);
    let neg = Literal::new(0, true);

    assert_eq!(non_neg.index(), 0);
    assert_eq!(non_neg.is_negated(), false);
    assert_eq!(neg.index(), 0);
    assert_eq!(neg.is_negated(), true);
}

#[test]
fn new_max_index() {
    let non_neg = Literal::new((isize::MAX - 1) as usize, false);
    let neg = Literal::new((isize::MAX - 1) as usize, true);

    assert_eq!(non_neg.index(), (isize::MAX - 1) as usize);
    assert_eq!(neg.index(), (isize::MAX - 1) as usize);
}

#[test]
fn new_gives_back_index_and_flag() {
    for &(i, n) in &[(0usize, false), (0, true), (5, false), (41, true), (1000, true)] {
        let l = Literal::new(i, n);
        assert_eq!(l.index(), i);
        assert_eq!(l.is_negated(), n);
    }
}

#[test]
fn new_encodes_dimacs_value() {
    assert_eq!(Literal::new(0, false).as_cnf(), 1);
    assert_eq!(Literal::new(0, true).as_cnf(), -1);
    assert_eq!(Literal::new(6, true).as_cnf(), -7);
    assert_eq!(Literal::from_cnf(-12).index(), 11);
}

#[test]
fn double_negation_is_identity() {
    for &v in &[1isize, -1, 7, -42, isize::MAX, -isize::MAX] {
        let l = Literal::from_cnf(v);
        assert_eq!(l.negated().negated(), l);
        assert_eq!(l.negated().as_cnf(), -v);
    }
}

#[test]
fn negate_in_place() {
    let mut l = Literal::new(3, false);
    let r = *l.negate();
    assert_eq!(r, Literal::new(3, true));
    assert_eq!(l.as_cnf(), -4);
    l.negate();
    assert_eq!(l, Literal::new(3, false));
}

#[test]
fn negation_flips_evaluation() {
    let bv = BoolVec::from(vec![true, false, true]);
    for &v in &[1isize, -1, 2, -2, 3, -3] {
        let l = Literal::from_cnf(v);
        assert_ne!(l.eval_with(&bv), l.negated().eval_with(&bv));
    }
    assert_eq!(Literal::from_cnf(1).eval_with(&bv), true);
    assert_eq!(Literal::from_cnf(-1).eval_with(&bv), false);
    assert_eq!(Literal::from_cnf(-2).eval_with(&bv), true);
}

#[test]
fn try_eval_out_of_range() {
    let bv = BoolVec::from(vec![true, false]);
    assert_eq!(Literal::from_cnf(2).try_eval_with(&bv), Some(false));
    assert_eq!(Literal::from_cnf(-2).try_eval_with(&bv), Some(true));
    assert_eq!(Literal::from_cnf(3).try_eval_with(&bv), None);
    assert_eq!(Literal::from_cnf(-9).try_eval_with(&bv), None);
}
