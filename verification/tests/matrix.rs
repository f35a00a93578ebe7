use algebraic_immunity::vandermonde::VanderMonde;
use algebraic_immunity::vandermonde::apply_operations;
use algebraic_immunity::vandermonde::is_submonomial;
use algebraic_immunity::vandermonde::str_ops;
use algebraic_immunity::vandermonde::verify;

fn mat(rows: Vec<Vec<u8>>) -> VanderMonde {
    VanderMonde::new(rows)
}

#[test]
fn reduction_reaches_echelon_form() {
    let m = mat(vec![vec![1, 1], vec![1, 0]]);
    let (red, ops) = m.row_echelon_form();
    assert_eq!(red.elements, vec![vec![1, 0], vec![0, 1]]);
    assert_eq!(ops, vec![(1, 0), (0, 1)]);
}

#[test]
fn reduction_is_idempotent() {
    let m = mat(vec![vec![1, 1, 0], vec![1, 0, 1], vec![0, 1, 1]]);
    let (red, _) = m.row_echelon_form();
    let (red2, ops2) = red.row_echelon_form();
    assert_eq!(red2.elements, red.elements);
    assert!(ops2.is_empty());
}

#[test]
fn reduction_handles_swaps() {
    let m = mat(vec![vec![0, 1], vec![1, 0]]);
    let (red, ops) = m.row_echelon_form();
    assert_eq!(red.elements, vec![vec![1, 0], vec![0, 1]]);
    // the exchange is logged as the three-XOR swap
    assert_eq!(ops, vec![(0, 1), (1, 0), (0, 1)]);
}

#[test]
fn repr_renders_rows_like_debug_lists() {
    let m = mat(vec![vec![1, 0], vec![0, 1]]);
    assert_eq!(m.__repr__(), "[[1, 0], [0, 1]]");
    let empty = mat(Vec::new());
    assert_eq!(empty.__repr__(), "[]");
    let single = mat(vec![vec![1]]);
    assert_eq!(single.__repr__(), "[[1]]");
}

#[test]
fn rank_is_bounded_by_dimensions() {
    let cases = vec![
        vec![vec![1, 1, 0], vec![1, 0, 1]],
        vec![vec![1], vec![1], vec![1]],
        vec![vec![1, 0], vec![0, 1]],
        vec![vec![1, 1], vec![1, 1]],
    ];
    for rows in cases {
        let r = rows.len();
        let c = rows[0].len();
        let rank = mat(rows).rank();
        assert!(rank <= r.min(c));
    }
}

#[test]
fn rank_of_zero_matrix_is_zero() {
    let m = mat(vec![vec![0, 0, 0], vec![0, 0, 0]]);
    assert_eq!(m.rank(), 0);
}

#[test]
fn rank_counts_distinct_pivot_columns() {
    let m = mat(vec![vec![1, 1], vec![1, 1]]);
    assert_eq!(m.rank(), 1);
    let (red, _) = m.row_echelon_form();
    assert_eq!(red.rank(), 1);
}

#[test]
fn kernel_vectors_lie_in_null_space() {
    let m = mat(vec![
        vec![1, 0, 1, 0],
        vec![1, 1, 1, 1],
        vec![0, 0, 0, 0],
    ]);
    let (red, _) = m.row_echelon_form();
    let kernel = red.kernel();
    assert_eq!(kernel.len(), 4 - red.rank());
    assert!(!kernel.is_empty());
    for v in &kernel {
        assert!(v.iter().any(|&x| x == 1));
        for row in &red.elements {
            let dot: u32 = row.iter().zip(v.iter()).map(|(&a, &b)| (a * b) as u32).sum();
            assert_eq!(dot % 2, 0, "kernel vector fails a row");
        }
    }
}

#[test]
fn kernel_of_full_rank_matrix_is_empty() {
    let m = mat(vec![vec![1, 0], vec![0, 1]]);
    assert!(m.kernel().is_empty());
}

#[test]
fn replayed_log_matches_direct_reduction_of_extended_matrix() {
    // reduce M, then replay its log on a column that was appended to M
    // before reduction: the same column values as reducing [M|c] directly
    let m = mat(vec![vec![1, 1], vec![1, 0]]);
    let (_, log) = m.row_echelon_form();
    let c = vec![0, 1];
    let replayed = apply_operations(&log, c.clone());

    let extended = mat(vec![vec![1, 1, 0], vec![1, 0, 1]]);
    let (red_ext, _) = extended.row_echelon_form();
    let last_col: Vec<u8> = red_ext.elements.iter().map(|row| row[2]).collect();
    assert_eq!(replayed, last_col);
}

#[test]
fn apply_operations_replays_in_order() {
    let ops = vec![(1usize, 0usize), (0usize, 1usize)];
    assert_eq!(apply_operations(&ops, vec![1, 1]), vec![1, 0]);
    assert_eq!(apply_operations(&Vec::new(), vec![1, 0, 1]), vec![1, 0, 1]);
}

#[test]
fn str_ops_evaluates_monomials_at_points() {
    assert_eq!(str_ops("11", "01"), 1);
    assert_eq!(str_ops("10", "01"), 0);
    assert_eq!(str_ops("00", "00"), 1);
    assert_eq!(str_ops("01", "01"), 1);
    assert_eq!(str_ops("101", "100"), 1);
    assert_eq!(str_ops("011", "100"), 0);
}

#[test]
fn submonomial_containment() {
    assert!(is_submonomial("010", "011"));
    assert!(is_submonomial("000", "101"));
    assert!(!is_submonomial("100", "011"));
    assert!(is_submonomial("011", "011"));
}

#[test]
fn compute_next_appends_column_then_row() {
    let m = mat(vec![vec![1]]);
    let next = m.compute_next(
        vec!["00".to_string(), "01".to_string()],
        vec!["01".to_string(), "10".to_string()],
        1,
        Vec::new(),
    );
    assert_eq!(next.elements, vec![vec![1, 1], vec![1, 0]]);
}

#[test]
fn fill_rows_evaluates_every_point() {
    let m = mat(Vec::new());
    let filled = m.fill_rows(
        vec!["11".to_string(), "01".to_string()],
        vec!["00".to_string(), "01".to_string(), "10".to_string()],
    );
    assert_eq!(filled.elements, vec![vec![1, 1, 1], vec![1, 1, 0]]);
}

#[test]
fn verify_accepts_a_true_annihilator() {
    // candidate x0 (coefficient on monomial "01") vanishes on "10"
    let (ok, failing) = verify(
        vec!["10".to_string()],
        vec![0, 1],
        vec!["00".to_string(), "01".to_string()],
    );
    assert!(ok);
    assert!(failing.is_none());
}

#[test]
fn verify_reports_first_falsifying_point() {
    // the same candidate evaluates to 1 at "11": failure at or before it
    let (ok, failing) = verify(
        vec!["10".to_string(), "11".to_string()],
        vec![0, 1],
        vec!["00".to_string(), "01".to_string()],
    );
    assert!(!ok);
    assert_eq!(failing, Some((1, "11".to_string())));
}

#[test]
fn verify_round_trip_on_synthetic_annihilator() {
    // evaluate the monomial "01" directly against every point; wherever it
    // is 1, verify must fail at or before that point
    let points: Vec<String> = vec!["00", "01", "10", "11"]
        .into_iter()
        .map(|s| s.to_string())
        .collect();
    let mapping: Vec<String> = vec!["00", "01"].into_iter().map(|s| s.to_string()).collect();
    let g = vec![0u8, 1u8];
    let first_hot = points
        .iter()
        .position(|p| str_ops(p, "01") == 1)
        .expect("some point sets the monomial");
    let (ok, failing) = verify(points.clone(), g, mapping);
    assert!(!ok);
    let (idx, _) = failing.unwrap();
    assert!(idx <= first_hot);
}
