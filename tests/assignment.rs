use cdcl_sat::{Assignment, Lit};

fn lit(l: i64) -> Lit {
    Lit::from_i64(l)
}

#[test]
fn new_assignment_makes_all_variables_unset() {
    let assignment = Assignment::new(3);

    for var in 1..=3 {
        let pos = lit(var);
        let neg = lit(-var);

        assert!(assignment.is_unassigned(pos));
        assert!(assignment.is_unassigned(neg));
        assert!(!assignment.is_true(pos));
        assert!(!assignment.is_true(neg));
        assert!(!assignment.is_false(pos));
        assert!(!assignment.is_false(neg));
    }
}

#[test]
fn assigning_a_literal_can_be_observed() {
    let mut assignment = Assignment::new(3);

    assignment.set_true(lit(2));
    assert!(assignment.is_true(lit(2)));
    assert!(!assignment.is_false(lit(2)));
    assert!(!assignment.is_true(lit(-2)));
    assert!(assignment.is_false(lit(-2)));
    assert!(!assignment.is_unassigned(lit(2)));
    assert_eq!(1, assignment.size());
}

#[test]
fn unassigning_a_literal_is_observed() {
    let mut assignment = Assignment::new(3);

    let pos = lit(2);
    let neg = lit(-2);

    assignment.set_true(pos);
    assignment.unassign(pos);

    assert!(assignment.is_unassigned(pos));
    assert!(assignment.is_unassigned(neg));
    assert!(!assignment.is_true(pos));
    assert!(!assignment.is_true(neg));
    assert!(!assignment.is_false(pos));
    assert!(!assignment.is_false(neg));
}

#[test]
fn iterator_gives_all_literals() {
    let mut assignment = Assignment::new(3);
    assignment.set_true(lit(1));
    assignment.set_true(lit(-2));
    assignment.set_true(lit(3));

    let lits = assignment.iter().collect::<Vec<_>>();
    assert_eq!(vec![lit(1), lit(-2), lit(3)], lits);
}

#[test]
fn iterator_excludes_unassigned_literals() {
    let mut assignment = Assignment::new(3);
    assignment.set_true(lit(1));
    assignment.set_true(lit(-3));

    let lits = assignment.iter().collect::<Vec<_>>();
    assert_eq!(vec![lit(1), lit(-3)], lits);
}

#[test]
fn exactly_one_status_per_literal() {
    let mut assignment = Assignment::new(2);
    assignment.set_true(lit(-1));
    for l in [lit(1), lit(-1), lit(2), lit(-2)] {
        let count = [assignment.is_true(l), assignment.is_false(l), assignment.is_unassigned(l)]
            .iter()
            .filter(|b| **b)
            .count();
        assert_eq!(1, count);
        assert_eq!(assignment.is_true(l), assignment.is_false(l.negate()));
    }
    assert!(assignment.is_true(lit(-1)));
    assert!(assignment.is_false(lit(1)));
}

#[test]
fn size_counts_assigned_variables() {
    let mut assignment = Assignment::new(4);
    assert_eq!(0, assignment.size());
    assignment.set_true(lit(4));
    assignment.set_true(lit(-1));
    assert_eq!(2, assignment.size());
    assignment.unassign(lit(4));
    assert_eq!(1, assignment.size());
    assert_eq!(4, assignment.num_variables());
}

#[test]
fn set_then_unassign_restores_literals() {
    let mut assignment = Assignment::new(3);
    assignment.set_true(lit(1));
    let before = assignment.literals();
    assignment.set_true(lit(-3));
    assignment.unassign(lit(-3));
    assert_eq!(before, assignment.literals());
    assert_eq!(1, assignment.size());
}

#[test]
fn literals_are_in_variable_order() {
    let mut assignment = Assignment::new(5);
    assignment.set_true(lit(5));
    assignment.set_true(lit(-2));
    assignment.set_true(lit(4));
    assert_eq!(vec![lit(-2), lit(4), lit(5)], assignment.literals());
}

#[test]
fn empty_assignment_lists_nothing() {
    let assignment = Assignment::new(0);
    assert_eq!(0, assignment.size());
    assert!(assignment.literals().is_empty());
}
