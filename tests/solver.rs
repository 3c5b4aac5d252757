use cdcl_sat::{Assignment, CnfFormula, Lit, SolveResult, Solver, UnknownFormulaFormat};

fn formula(num_vars: usize, clauses: &[&[i64]]) -> CnfFormula {
    let clauses = clauses
        .iter()
        .map(|c| c.iter().map(|&l| Lit::from_i64(l)).collect())
        .collect();
    CnfFormula::new(num_vars, clauses).expect("literals in range")
}

fn solve(num_vars: usize, clauses: &[&[i64]]) -> SolveResult {
    Solver::create(formula(num_vars, clauses)).solve()
}

fn ints(assignment: &Assignment) -> Vec<i64> {
    assignment.iter().map(|l| l.to_i64()).collect()
}

fn satisfies(values: &[i64], clauses: &[&[i64]]) -> bool {
    clauses.iter().all(|c| c.iter().any(|l| values.contains(l)))
}

#[test]
fn single_unit_clause_is_sat() {
    match solve(1, &[&[1]]) {
        SolveResult::Sat(a) => assert_eq!(vec![1], ints(&a)),
        _ => panic!("expected Sat"),
    }
}

#[test]
fn contradicting_units_are_unsat() {
    assert!(matches!(solve(1, &[&[1], &[-1]]), SolveResult::Unsat));
}

#[test]
fn all_four_binary_clauses_are_unsat() {
    let r = solve(2, &[&[1, 2], &[-1, 2], &[1, -2], &[-1, -2]]);
    assert!(matches!(r, SolveResult::Unsat));
}

#[test]
fn one_binary_clause_is_sat() {
    match solve(2, &[&[1, 2]]) {
        SolveResult::Sat(a) => {
            let v = ints(&a);
            assert_eq!(2, v.len());
            assert!(v.contains(&1) || v.contains(&2));
        }
        _ => panic!("expected Sat"),
    }
}

#[test]
fn exactly_one_of_three_is_sat() {
    let clauses: &[&[i64]] = &[&[1, 2, 3], &[-1, -2], &[-1, -3], &[-2, -3]];
    match solve(3, clauses) {
        SolveResult::Sat(a) => {
            let v = ints(&a);
            assert_eq!(3, v.len());
            assert_eq!(1, v.iter().filter(|&&l| l > 0).count());
            assert!(satisfies(&v, clauses));
        }
        _ => panic!("expected Sat"),
    }
}

#[test]
fn empty_formula_assigns_every_variable() {
    match solve(3, &[]) {
        SolveResult::Sat(a) => assert_eq!(vec![1, 2, 3], ints(&a)),
        _ => panic!("expected Sat"),
    }
}

#[test]
fn empty_clause_is_unsat() {
    assert!(matches!(solve(2, &[&[1, 2], &[]]), SolveResult::Unsat));
}

#[test]
fn conflict_needs_learning_and_backjump() {
    let clauses: &[&[i64]] = &[
        &[1, 2],
        &[1, 3],
        &[-2, -3, 4],
        &[-4, 5],
        &[-4, -5],
        &[-1, 6],
    ];
    match solve(6, clauses) {
        SolveResult::Sat(a) => {
            let v = ints(&a);
            assert_eq!(6, v.len());
            assert!(satisfies(&v, clauses));
        }
        _ => panic!("expected Sat"),
    }
}

#[test]
fn pigeonhole_three_in_two_is_unsat() {
    // pigeon i in hole j is variable 2 * (i - 1) + j
    let clauses: &[&[i64]] = &[
        &[1, 2],
        &[3, 4],
        &[5, 6],
        &[-1, -3],
        &[-1, -5],
        &[-3, -5],
        &[-2, -4],
        &[-2, -6],
        &[-4, -6],
    ];
    assert!(matches!(solve(6, clauses), SolveResult::Unsat));
}

#[test]
fn pigeonhole_four_in_three_is_unsat() {
    // pigeon i in hole j is variable 3 * (i - 1) + j
    let mut clauses: Vec<Vec<i64>> = Vec::new();
    for i in 0..4 {
        clauses.push((1..=3).map(|j| 3 * i + j).collect());
    }
    for j in 1..=3 {
        for a in 0..4 {
            for b in (a + 1)..4 {
                clauses.push(vec![-(3 * a + j), -(3 * b + j)]);
            }
        }
    }
    let refs: Vec<&[i64]> = clauses.iter().map(|c| c.as_slice()).collect();
    assert!(matches!(solve(12, &refs), SolveResult::Unsat));
}

#[test]
fn chain_of_implications_is_sat() {
    let clauses: &[&[i64]] = &[&[-1, 2], &[-2, 3], &[-3, 4], &[-4, -1], &[1, 4], &[-2, -4, 5]];
    match solve(5, clauses) {
        SolveResult::Sat(a) => {
            let v = ints(&a);
            assert_eq!(5, v.len());
            assert!(satisfies(&v, clauses));
        }
        _ => panic!("expected Sat"),
    }
}

#[test]
fn formula_rejects_out_of_range_literal() {
    let clauses = vec![vec![Lit::from_i64(1), Lit::from_i64(-3)]];
    assert!(CnfFormula::new(2, clauses).is_none());
}

#[test]
fn formula_keeps_its_clauses() {
    let f = formula(3, &[&[1, -2], &[3]]);
    assert_eq!(3, f.num_variables());
    assert_eq!(2, f.clauses().len());
    assert_eq!(vec![Lit::from_i64(1), Lit::from_i64(-2)], f.clauses()[0]);
}

#[test]
fn formula_from_pairs() {
    let f = CnfFormula::from_pairs(2, vec![vec![(1, true), (2, false)]]).expect("in range");
    assert_eq!(vec![Lit::from_i64(1), Lit::from_i64(-2)], f.clauses()[0]);
    assert!(CnfFormula::from_pairs(2, vec![vec![(0, true)]]).is_none());
    assert!(CnfFormula::from_pairs(2, vec![vec![(3, false)]]).is_none());
}

#[test]
fn formula_from_cnf_parts() {
    let parts = Some((3, vec![vec![(1, true), (3, false)], vec![(2, true)]]));
    let f = CnfFormula::from_parts(parts).expect("cnf instance");
    assert_eq!(3, f.num_variables());
    assert_eq!(vec![Lit::from_i64(1), Lit::from_i64(-3)], f.clauses()[0]);
    assert_eq!(vec![Lit::from_i64(2)], f.clauses()[1]);
}

#[test]
fn formula_from_other_instance_kind_is_rejected() {
    assert_eq!(Err(UnknownFormulaFormat), CnfFormula::from_parts(None).map(|_| ()));
}

#[test]
fn formula_from_parts_with_out_of_range_literal_is_rejected() {
    let parts = Some((1, vec![vec![(2, true)]]));
    assert_eq!(Err(UnknownFormulaFormat), CnfFormula::from_parts(parts).map(|_| ()));
}

#[test]
fn exactly_one_of_three_gives_first_variable() {
    let clauses: &[&[i64]] = &[&[1, 2, 3], &[-1, -2], &[-1, -3], &[-2, -3]];
    match solve(3, clauses) {
        SolveResult::Sat(a) => assert_eq!(vec![1, -2, -3], ints(&a)),
        _ => panic!("expected Sat"),
    }
}

#[test]
fn repeated_literal_clause_propagates() {
    match solve(3, &[&[2], &[-2, 3, -2]]) {
        SolveResult::Sat(a) => {
            let v = ints(&a);
            assert!(v.contains(&2) && v.contains(&3));
        }
        _ => panic!("expected Sat"),
    }
}
