use bool_vec::BoolVec;
use rand::rngs::StdRng;
use rand::SeedableRng;
use sat_lab::dimacs::{parse_cnf, FormatError};
use sat_lab::{Clause, Instance};

const EXAMPLE: &str = "p cnf 3 2\n1 -2 0\n-1 3 0\n";

fn load(text: &str) -> Result<Instance, FormatError> {
    Instance::from_cnf_text(text.as_bytes())
}

fn assignment(inst: &Instance) -> Vec<bool> {
    (0..inst.vars.len()).map(|i| inst.vars.get(i).unwrap()).collect()
}

#[test]
fn test() {}

#[test]
fn loads_example() {
    let inst = load(EXAMPLE).unwrap();
    assert_eq!(inst.vars.len(), 3);
    assert_eq!(assignment(&inst), vec![false, false, false]);
    assert_eq!(inst.get_clauses().len(), 2);
    assert_eq!(inst.get_clauses()[0], Clause::from_indices(vec![0, 1], vec![false, true]));
    assert_eq!(inst.get_clauses()[1], Clause::from_indices(vec![0, 2], vec![true, false]));
}

#[test]
fn example_partially_satisfied() {
    let mut inst = load(EXAMPLE).unwrap();
    inst.vars = BoolVec::from(vec![false, true, false]);
    assert!(!inst.get_clauses()[0].test_sat(&inst.vars));
    assert!(inst.get_clauses()[1].test_sat(&inst.vars));
    assert_eq!(inst.count_sat(), 1);
    assert!(!inst.is_sat());
}

#[test]
fn example_satisfied() {
    let mut inst = load(EXAMPLE).unwrap();
    inst.vars = BoolVec::from(vec![true, false, true]);
    assert_eq!(inst.count_sat(), 2);
    assert!(inst.is_sat());
}

#[test]
fn wrong_problem_type_is_rejected() {
    assert_eq!(load("p wff 3 2\n1 -2 0\n-1 3 0\n").err(), Some(FormatError));
}

#[test]
fn leading_comments_are_skipped() {
    let inst = load("c first\nc second\np cnf 2 1\n-2 1 0\n").unwrap();
    assert_eq!(inst.vars.len(), 2);
    assert_eq!(inst.get_clauses()[0], Clause::from_cnf(vec![-2, 1]));
}

#[test]
fn surrounding_whitespace_is_ignored() {
    let inst = load("\n\n  p cnf 2 1\r\n1 2 0\r\n\n\n").unwrap();
    assert_eq!(inst.get_clauses()[0], Clause::from_cnf(vec![1, 2]));
}

#[test]
fn missing_or_bad_header_is_rejected() {
    assert!(load("").is_err());
    assert!(load("c only a comment\n").is_err());
    assert!(load("p cnf 3\n").is_err());
    assert!(load("p cnf x 1\n1 0\n").is_err());
    assert!(load("p cnf 3 -1\n").is_err());
    assert!(load("q cnf 1 1\n1 0\n").is_err());
    assert!(load("  \n x\nc\np cnf 1 0").is_err());
    assert!(load("\nc comment\np cnf 1 0").is_ok());
}

#[test]
fn too_few_clause_lines_is_rejected() {
    assert!(load("p cnf 3 3\n1 0\n2 0\n").is_err());
    assert!(load("p cnf 3 2\n1 0\n2 0\n").is_ok());
}

#[test]
fn clause_stops_at_first_zero() {
    let inst = load("p cnf 4 2\n1 2 0 3 oops\n+4 -0 3\n").unwrap();
    assert_eq!(inst.get_clauses()[0], Clause::from_cnf(vec![1, 2]));
    assert_eq!(inst.get_clauses()[1], Clause::from_cnf(vec![4]));
}

#[test]
fn clause_without_terminator_takes_all_tokens() {
    let inst = load("p cnf 3 1\n1 -2 3").unwrap();
    assert_eq!(inst.get_clauses()[0], Clause::from_cnf(vec![1, -2, 3]));
}

#[test]
fn bad_literal_is_rejected() {
    assert!(load("p cnf 2 1\n1 x 0\n").is_err());
    assert!(load("p cnf 2 1\n1 - 0\n").is_err());
    assert!(load("p cnf 2 1\n99999999999999999999 0\n").is_err());
    assert!(load("p cnf 2 1\n-9223372036854775808 0\n").is_err());
}

#[test]
fn extra_lines_after_clauses_are_ignored() {
    let inst = load("p cnf 2 1\n1 0\nnot a clause\n").unwrap();
    assert_eq!(inst.get_clauses().len(), 1);
}

#[test]
fn parse_returns_counts() {
    let (n, cs) = parse_cnf(b"p cnf 7 1\n-7 0\n").unwrap();
    assert_eq!(n, 7);
    assert_eq!(cs, vec![Clause::from_cnf(vec![-7])]);
}

#[test]
fn writes_dimacs_text() {
    let inst = Instance::with_clauses(
        12,
        vec![Clause::from_cnf(vec![1, -12]), Clause::from_cnf(vec![]), Clause::from_cnf(vec![-10])],
    );
    let text = String::from_utf8(inst.to_cnf_text()).unwrap();
    assert_eq!(text, "p cnf 12 3\n1 -12 0\n0\n-10 0\n");
}

#[test]
fn save_then_load_keeps_clauses() {
    let clauses = vec![
        Clause::from_cnf(vec![1, -2, 3]),
        Clause::from_cnf(vec![-105, 7]),
        Clause::from_cnf(vec![]),
        Clause::from_cnf(vec![isize::MAX, -isize::MAX]),
    ];
    let mut inst = Instance::with_clauses(5, clauses.clone());
    inst.vars = BoolVec::from(vec![true, false, true, true, false]);
    let back = Instance::from_cnf_text(&inst.to_cnf_text()).unwrap();
    assert_eq!(back.get_clauses(), &clauses);
    assert_eq!(assignment(&back), vec![false; 5]);
}

#[test]
fn with_clauses_starts_all_false() {
    let inst = Instance::with_clauses(4, vec![Clause::from_cnf(vec![1])]);
    assert_eq!(assignment(&inst), vec![false; 4]);
    assert_eq!(inst.count_sat(), 0);
}

#[test]
fn new_keeps_given_assignment() {
    let inst = Instance::new(BoolVec::from(vec![true, false]), vec![Clause::from_cnf(vec![1]), Clause::from_cnf(vec![2])]);
    assert_eq!(assignment(&inst), vec![true, false]);
    assert_eq!(inst.count_sat(), 1);
}

#[test]
fn empty_instance_is_satisfied() {
    let inst = Instance::with_clauses(0, vec![]);
    assert_eq!(inst.count_sat(), 0);
    assert!(inst.is_sat());
}

#[test]
fn random_clauses_have_distinct_variables() {
    let mut rng = StdRng::seed_from_u64(7);
    let inst = Instance::new_random_with(&mut rng, 10, 50, 4);
    assert_eq!(inst.vars.len(), 10);
    assert_eq!(inst.get_clauses().len(), 50);
    for c in inst.get_clauses() {
        let mut idx: Vec<usize> = c.get_literals().iter().map(|l| l.index()).collect();
        assert_eq!(idx.len(), 4);
        assert!(idx.iter().all(|&i| i < 10));
        idx.sort();
        idx.dedup();
        assert_eq!(idx.len(), 4);
    }
}

#[test]
fn random_clause_may_use_every_variable() {
    let mut rng = StdRng::seed_from_u64(3);
    let inst = Instance::new_random_with(&mut rng, 3, 5, 3);
    for c in inst.get_clauses() {
        let mut idx: Vec<usize> = c.get_literals().iter().map(|l| l.index()).collect();
        idx.sort();
        assert_eq!(idx, vec![0, 1, 2]);
    }
}

#[test]
fn resampling_keeps_length_and_clauses() {
    let mut rng = StdRng::seed_from_u64(11);
    let mut inst = Instance::with_clauses(64, vec![Clause::from_cnf(vec![1, -64])]);
    let n = inst.sample_new_variables_with(&mut rng).len();
    assert_eq!(n, 64);
    assert_eq!(inst.get_clauses(), &vec![Clause::from_cnf(vec![1, -64])]);
}

#[test]
fn set_assignment_replaces_values() {
    let mut inst = load(EXAMPLE).unwrap();
    inst.set_assignment(vec![true, false, true]);
    assert_eq!(assignment(&inst), vec![true, false, true]);
    assert!(inst.is_sat());
    assert_eq!(inst.get_clauses().len(), 2);
}

#[test]
fn accessors_report_assignment() {
    let inst = Instance::new(BoolVec::from(vec![true, false, true, true]), vec![]);
    assert_eq!(inst.var_count(), 4);
    assert_eq!(inst.vars().get(0), Some(true));
    assert_eq!(inst.vars().get(1), Some(false));
    assert_eq!(inst.vars().get(4), None);
}

#[test]
fn many_false_variables() {
    let inst = Instance::with_clauses(1000, vec![]);
    assert_eq!(inst.var_count(), 1000);
    assert!(assignment(&inst).iter().all(|&b| !b));
}
