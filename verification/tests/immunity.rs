use algebraic_immunity::ai::AlgebraicImmunity;
use algebraic_immunity::ai::hamming_weight;

#[test]
fn constant_functions_have_immunity_zero() {
    assert_eq!(AlgebraicImmunity::algebraic_immunity(vec![0, 0], 1), 0);
    assert_eq!(AlgebraicImmunity::algebraic_immunity(vec![1, 1], 1), 0);
    assert_eq!(AlgebraicImmunity::algebraic_immunity(vec![0, 0, 0, 0], 2), 0);
    assert_eq!(AlgebraicImmunity::algebraic_immunity(vec![1, 1, 1, 1], 2), 0);
    assert_eq!(
        AlgebraicImmunity::algebraic_immunity(vec![0; 8], 3),
        0
    );
    assert_eq!(
        AlgebraicImmunity::algebraic_immunity(vec![1; 8], 3),
        0
    );
}

#[test]
fn and_function_has_immunity_one() {
    assert_eq!(AlgebraicImmunity::algebraic_immunity(vec![0, 0, 0, 1], 2), 1);
}

#[test]
fn xor_function_has_immunity_one() {
    assert_eq!(AlgebraicImmunity::algebraic_immunity(vec![0, 1, 1, 0], 2), 1);
}

#[test]
fn linear_function_has_immunity_one() {
    assert_eq!(AlgebraicImmunity::algebraic_immunity(vec![0, 1, 0, 1], 2), 1);
}

#[test]
fn immunity_never_exceeds_universe_degree() {
    let tables: Vec<(Vec<u8>, usize)> = vec![
        (vec![0, 1], 1),
        (vec![1, 0, 0, 1], 2),
        (vec![0, 1, 1, 1], 2),
        (vec![0, 1, 1, 0, 1, 0, 0, 1], 3),
        (vec![0, 0, 0, 1, 0, 1, 1, 1], 3),
        (vec![1, 0, 1, 1, 0, 0, 1, 0], 3),
    ];
    for (t, n) in tables {
        let ai = AlgebraicImmunity::algebraic_immunity(t, n);
        assert!(ai <= (n + 1) / 2);
    }
}

#[test]
fn annihilator_search_without_monomials_finds_nothing() {
    let z = vec!["0".to_string()];
    assert_eq!(AlgebraicImmunity::find_min_annihilator(z, Vec::new()), None);
}

#[test]
fn annihilator_search_on_single_point() {
    // one point, universe of width 1 up to degree 1: the matrix never goes
    // rank-deficient, so the next untried monomial decides
    let z = vec!["1".to_string()];
    let e = vec!["0".to_string(), "1".to_string()];
    assert_eq!(AlgebraicImmunity::find_min_annihilator(z, e), Some(1));
}

#[test]
fn annihilator_search_finds_degree_one_for_xor_one_set() {
    let z = vec!["01".to_string(), "10".to_string()];
    let e = vec!["00".to_string(), "01".to_string(), "10".to_string()];
    assert_eq!(AlgebraicImmunity::find_min_annihilator(z, e), Some(1));
}

#[test]
fn annihilator_search_recovers_after_failed_verification() {
    // the first kernel candidate (from the two identical leading points)
    // fails on the remaining point, which is forced into the matrix next
    let z = vec!["01".to_string(), "01".to_string(), "10".to_string()];
    let e = vec!["00".to_string(), "01".to_string(), "10".to_string()];
    assert_eq!(AlgebraicImmunity::find_min_annihilator(z, e), Some(1));
}

#[test]
fn hamming_weight_counts_ones() {
    assert_eq!(hamming_weight(""), 0);
    assert_eq!(hamming_weight("000"), 0);
    assert_eq!(hamming_weight("1011"), 3);
    assert_eq!(hamming_weight("1111"), 4);
}
