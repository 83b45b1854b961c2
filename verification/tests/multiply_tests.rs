use matrix_console::multiply::{
    assemble_reports, multiply_matrices, multiply_matrices_partitioned, multiply_row_range,
    ComputeError, Report,
};

fn m(rows: &[&[i64]]) -> Vec<Vec<i64>> {
    rows.iter().map(|r| r.to_vec()).collect()
}

#[test]
fn multiply_2x2() {
    let a = m(&[&[1, 2], &[3, 4]]);
    let b = m(&[&[5, 6], &[7, 8]]);
    assert_eq!(multiply_matrices(&a, &b), Ok(m(&[&[19, 22], &[43, 50]])));
}

#[test]
fn multiply_rectangular() {
    let a = m(&[&[1, 0, 2], &[-1, 3, 1]]);
    let b = m(&[&[3, 1], &[2, 1], &[1, 0]]);
    assert_eq!(multiply_matrices(&a, &b), Ok(m(&[&[5, 1], &[4, 2]])));
}

#[test]
fn multiply_dimension_mismatch() {
    let a = m(&[&[1, 2]]);
    let b = m(&[&[1, 2]]);
    assert_eq!(
        multiply_matrices(&a, &b),
        Err(ComputeError::DimensionMismatch { a_cols: 2, b_rows: 1 })
    );
}

#[test]
fn multiply_empty_input() {
    let a: Vec<Vec<i64>> = Vec::new();
    let b: Vec<Vec<i64>> = Vec::new();
    assert_eq!(multiply_matrices(&a, &b), Err(ComputeError::EmptyInput));
}

#[test]
fn multiply_overflow() {
    let a = m(&[&[i64::MAX]]);
    let b = m(&[&[2]]);
    assert_eq!(multiply_matrices(&a, &b), Err(ComputeError::Overflow));
}

#[test]
fn multiply_overflow_in_running_sum() {
    let a = m(&[&[i64::MAX, i64::MAX]]);
    let b = m(&[&[1], &[1]]);
    assert_eq!(multiply_matrices(&a, &b), Err(ComputeError::Overflow));
}

#[test]
fn negative_values_multiply() {
    let a = m(&[&[-2, 3]]);
    let b = m(&[&[4], &[-5]]);
    assert_eq!(multiply_matrices(&a, &b), Ok(m(&[&[-23]])));
}

#[test]
fn partitioned_matches_sequential_all_worker_counts() {
    let a = m(&[&[1, 2], &[3, 4], &[5, 6]]);
    let b = m(&[&[7, 8, 9, 10], &[11, 12, 13, 14]]);
    let seq = multiply_matrices(&a, &b);
    for t in 1..=6 {
        assert_eq!(multiply_matrices_partitioned(&a, &b, t), seq);
    }
}

#[test]
fn partitioned_identity_100_by_100_with_7_workers() {
    let n = 100;
    let mut a: Vec<Vec<i64>> = Vec::new();
    for i in 0..n {
        let mut row = vec![0i64; n];
        row[i] = 1;
        a.push(row);
    }
    let one = multiply_matrices_partitioned(&a, &a, 1);
    let seven = multiply_matrices_partitioned(&a, &a, 7);
    assert_eq!(one, seven);
    assert_eq!(one, Ok(a.clone()));
}

#[test]
fn partitioned_mismatch_and_overflow_agree_with_sequential() {
    let a = m(&[&[1, 2]]);
    let b = m(&[&[1, 2]]);
    assert_eq!(
        multiply_matrices_partitioned(&a, &b, 3),
        Err(ComputeError::DimensionMismatch { a_cols: 2, b_rows: 1 })
    );
    let c = m(&[&[i64::MAX], &[1]]);
    let d = m(&[&[2]]);
    assert_eq!(multiply_matrices_partitioned(&c, &d, 2), Err(ComputeError::Overflow));
}

#[test]
fn row_range_and_assembly_rebuild_the_product() {
    let a = m(&[&[1, 2], &[3, 4], &[5, 6]]);
    let b = m(&[&[1, 0], &[0, 1]]);
    let lo = multiply_row_range(&a, &b, 0, 1).unwrap();
    let hi = multiply_row_range(&a, &b, 1, 3).unwrap();
    let reports = vec![
        Report { start: 1, end: 3, rows: hi },
        Report { start: 0, end: 1, rows: lo },
    ];
    let assembled = assemble_reports(reports, 3).unwrap();
    assert_eq!(Ok(assembled), multiply_matrices(&a, &b));
}

#[test]
fn assembly_rejects_a_missing_report() {
    let a = m(&[&[1, 2], &[3, 4], &[5, 6]]);
    let b = m(&[&[1, 0], &[0, 1]]);
    let lo = multiply_row_range(&a, &b, 0, 1).unwrap();
    let reports = vec![Report { start: 0, end: 1, rows: lo }];
    assert_eq!(assemble_reports(reports, 3), None);
}

#[test]
fn assembly_rejects_a_report_of_the_wrong_shape() {
    let reports = vec![Report { start: 0, end: 2, rows: vec![vec![1]] }];
    assert_eq!(assemble_reports(reports, 2), None);
}
