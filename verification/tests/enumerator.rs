use algebraic_immunity::ai::AlgebraicImmunity;

#[test]
fn enumerator_is_deterministic() {
    for n in 0..5usize {
        for r in 0..4usize {
            let a = AlgebraicImmunity::generate_combinations(n, r);
            let b = AlgebraicImmunity::generate_combinations(n, r);
            assert_eq!(a, b);
        }
    }
}

#[test]
fn universe_of_width_two_up_to_degree_one() {
    let e = AlgebraicImmunity::generate_combinations(2, 1);
    assert_eq!(e, vec!["00".to_string(), "01".to_string(), "10".to_string()]);
}

#[test]
fn universe_of_width_three_up_to_degree_two() {
    let e = AlgebraicImmunity::generate_combinations(3, 2);
    let expected: Vec<String> = vec!["000", "001", "010", "100", "011", "101", "110"]
        .into_iter()
        .map(|s| s.to_string())
        .collect();
    assert_eq!(e, expected);
}

#[test]
fn degree_zero_universe_is_the_constant_monomial() {
    let e = AlgebraicImmunity::generate_combinations(3, 0);
    assert_eq!(e, vec!["000".to_string()]);
}

#[test]
fn weight_classes_come_in_ascending_order() {
    let e = AlgebraicImmunity::generate_combinations(4, 2);
    let weights: Vec<usize> = e
        .iter()
        .map(|m| m.chars().filter(|c| *c == '1').count())
        .collect();
    let mut sorted = weights.clone();
    sorted.sort();
    assert_eq!(weights, sorted);
    assert_eq!(e.len(), 1 + 4 + 6);
    assert!(weights.iter().all(|&w| w <= 2));
}

#[test]
fn zero_and_one_sets_partition_the_table() {
    let ai = AlgebraicImmunity::new(vec![0, 1, 1, 0]);
    let (ones, zeros) = ai.compute_z(2);
    assert_eq!(ones, vec!["01".to_string(), "10".to_string()]);
    assert_eq!(zeros, vec!["00".to_string(), "11".to_string()]);
}

#[test]
fn point_rendering_uses_fixed_width() {
    let ai = AlgebraicImmunity::new(vec![0, 0, 0, 0, 0, 0, 0, 1]);
    let (ones, zeros) = ai.compute_z(3);
    assert_eq!(ones, vec!["111".to_string()]);
    assert_eq!(zeros.len(), 7);
    assert_eq!(zeros[0], "000".to_string());
    assert_eq!(zeros[6], "110".to_string());
}
