use cdcl_sat::Lit;

#[test]
fn literal_from_signed_integer() {
    let p = Lit::from_i64(7);
    assert_eq!(7, p.var());
    assert!(p.is_positive());
    let n = Lit::from_i64(-7);
    assert_eq!(7, n.var());
    assert!(!n.is_positive());
    assert_eq!(n, p.negate());
    assert_eq!(-7, n.to_i64());
    assert_eq!(7, p.to_i64());
}

