use matrix_console::cell::{parse_cell, render_cell};
use matrix_console::parse::{parse_matrix, render_matrix, render_result, ParseError};

fn cv(s: &str) -> Vec<char> {
    s.chars().collect()
}

fn m(rows: &[&[i64]]) -> Vec<Vec<i64>> {
    rows.iter().map(|r| r.to_vec()).collect()
}

#[test]
fn parse_simple_grid() {
    assert_eq!(parse_matrix(&cv("1_2\n3_4")), Ok(m(&[&[1, 2], &[3, 4]])));
}

#[test]
fn parse_tolerates_one_trailing_row_separator() {
    assert_eq!(parse_matrix(&cv("1_2\n3_4\n")), Ok(m(&[&[1, 2], &[3, 4]])));
}

#[test]
fn parse_single_cell() {
    assert_eq!(parse_matrix(&cv("42")), Ok(m(&[&[42]])));
}

#[test]
fn parse_ragged_rows_fail() {
    assert_eq!(parse_matrix(&cv("1_2\n3")), Err(ParseError::RaggedMatrix));
}

#[test]
fn parse_ragged_never_truncates_or_pads() {
    assert_eq!(parse_matrix(&cv("1\n2_3")), Err(ParseError::RaggedMatrix));
    assert_eq!(parse_matrix(&cv("1_2_3\n4_5")), Err(ParseError::RaggedMatrix));
}

#[test]
fn parse_empty_buffer_fails() {
    assert_eq!(parse_matrix(&cv("")), Err(ParseError::EmptyMatrix));
}

#[test]
fn parse_empty_row_fails() {
    assert_eq!(parse_matrix(&cv("1\n\n2")), Err(ParseError::EmptyMatrix));
}

#[test]
fn parse_reports_first_invalid_cell_in_row_major_order() {
    assert_eq!(parse_matrix(&cv("1_x\n3_4")), Err(ParseError::InvalidCell(0, 1)));
    assert_eq!(parse_matrix(&cv("1_2\n_4")), Err(ParseError::InvalidCell(1, 0)));
}

#[test]
fn parse_negative_cells() {
    assert_eq!(parse_matrix(&cv("-5_6\n7_-8")), Ok(m(&[&[-5, 6], &[7, -8]])));
}

#[test]
fn parse_extreme_values() {
    assert_eq!(
        parse_matrix(&cv("9223372036854775807")),
        Ok(m(&[&[i64::MAX]]))
    );
    assert_eq!(
        parse_matrix(&cv("-9223372036854775808")),
        Ok(m(&[&[i64::MIN]]))
    );
    assert_eq!(
        parse_matrix(&cv("9223372036854775808")),
        Err(ParseError::InvalidCell(0, 0))
    );
    assert_eq!(
        parse_matrix(&cv("-9223372036854775809")),
        Err(ParseError::InvalidCell(0, 0))
    );
}

#[test]
fn parse_cell_accepts_only_signed_numerals() {
    assert_eq!(parse_cell(&cv("12")), Some(12));
    assert_eq!(parse_cell(&cv("-0")), Some(0));
    assert_eq!(parse_cell(&cv("007")), Some(7));
    assert_eq!(parse_cell(&cv("")), None);
    assert_eq!(parse_cell(&cv("-")), None);
    assert_eq!(parse_cell(&cv("+5")), None);
    assert_eq!(parse_cell(&cv("1 2")), None);
}

#[test]
fn render_cell_canonical_text() {
    assert_eq!(render_cell(0), cv("0"));
    assert_eq!(render_cell(-7), cv("-7"));
    assert_eq!(render_cell(1234), cv("1234"));
    assert_eq!(render_cell(i64::MIN), cv("-9223372036854775808"));
}

#[test]
fn render_matrix_canonical_text() {
    assert_eq!(render_matrix(&m(&[&[1, 2], &[3, 4]])), cv("1_2\n3_4"));
}

#[test]
fn render_result_uses_spaces_and_line_breaks() {
    assert_eq!(render_result(&m(&[&[19, 22], &[43, 50]])), cv("19 22\n43 50"));
}

#[test]
fn render_then_parse_is_identity() {
    let cases = vec![
        m(&[&[1, -2], &[30, 4]]),
        m(&[&[0]]),
        m(&[&[i64::MIN, i64::MAX]]),
        m(&[&[5], &[6], &[7]]),
    ];
    for mat in cases {
        assert_eq!(parse_matrix(&render_matrix(&mat)), Ok(mat));
    }
}
