use gauss::row_input::{
    chars_of, fraction_parts, is_space_char, parse_field, parse_row_input, quotient_of,
    row_fields, split_chars, trim_chars, RowError,
};

fn text(s: &str) -> Vec<char> {
    s.chars().collect()
}

fn texts(v: &[&str]) -> Vec<Vec<char>> {
    v.iter().map(|s| text(s)).collect()
}

#[test]
fn parse_row_input_split() {
    let mut raw_matrix: Vec<f64> = vec![];
    let buffer = String::from("2, 2.3, 3/5");
    let result = parse_row_input(&mut raw_matrix, &buffer, 3);
    assert_eq!(result, Ok(3));
    assert_eq!(raw_matrix, vec![2., 2.3, 0.6]);
}

#[test]
fn parse_row_input_any_length_when_dimension_zero() {
    let mut raw: Vec<f64> = vec![9.];
    assert_eq!(parse_row_input(&mut raw, "1, 2", 0), Ok(2));
    assert_eq!(raw, vec![9., 1., 2.]);
}

#[test]
fn parse_row_input_wrong_dimensions() {
    let mut raw: Vec<f64> = vec![1.];
    assert_eq!(parse_row_input(&mut raw, "1, 2", 3), Err(RowError::WrongDimensions));
    assert_eq!(raw, vec![1.]);
}

#[test]
fn parse_row_input_bad_number_leaves_row_unread() {
    let mut raw: Vec<f64> = vec![1.];
    assert_eq!(parse_row_input(&mut raw, "1, x, 2", 3), Err(RowError::BadNumber));
    assert_eq!(raw, vec![1.]);
    assert_eq!(parse_row_input(&mut raw, "3/", 1), Err(RowError::BadNumber));
    assert_eq!(raw, vec![1.]);
}

#[test]
fn parse_row_input_skips_empty_fields_and_newline() {
    let mut raw: Vec<f64> = vec![];
    assert_eq!(parse_row_input(&mut raw, " 1,, 2 ,\n", 2), Ok(2));
    assert_eq!(raw, vec![1., 2.]);
}

#[test]
fn parse_row_input_empty_line() {
    let mut raw: Vec<f64> = vec![];
    assert_eq!(parse_row_input(&mut raw, "  ", 0), Ok(0));
    assert!(raw.is_empty());
}

#[test]
fn parse_field_fractions_fold_from_the_left() {
    assert_eq!(parse_field::<f64>(&text("8/2/2")), Some(2.));
    assert_eq!(parse_field::<f64>(&text(" 1 / 4 ")), Some(0.25));
    assert_eq!(parse_field::<f64>(&text("-7.5")), Some(-7.5));
    assert_eq!(parse_field::<f64>(&text("1/x")), None);
}

#[test]
fn row_tokens_of_sample_line() {
    assert_eq!(row_fields(&text("2, 2.3, 3/5")), texts(&["2", "2.3", "3/5"]));
    assert_eq!(row_fields(&text(",,")), texts(&[]));
}

#[test]
fn split_chars_keeps_empty_pieces() {
    assert_eq!(split_chars(&text("a,,b,"), ','), texts(&["a", "", "b", ""]));
    assert_eq!(split_chars(&text(""), ','), texts(&[""]));
}

#[test]
fn fraction_parts_trimmed() {
    assert_eq!(fraction_parts(&text(" 3 / 5")), texts(&["3", "5"]));
    assert_eq!(fraction_parts(&text("4")), texts(&["4"]));
}

#[test]
fn trim_chars_unicode_white_space() {
    assert_eq!(trim_chars(&text("\t 1 2\u{a0}\u{3000}")), text("1 2"));
    assert_eq!(trim_chars(&text("   ")), text(""));
    assert_eq!(trim_chars(&text("x")), text("x"));
}

#[test]
fn space_chars_match_std() {
    for c in (0u32..0x3100).filter_map(char::from_u32) {
        assert_eq!(is_space_char(c), c.is_whitespace(), "{:?}", c);
    }
}

#[test]
fn quotient_of_folds_left() {
    assert_eq!(quotient_of(&vec![3., 5.]), 0.6);
    assert_eq!(quotient_of(&vec![100., 5., 2.]), 10.);
    assert_eq!(quotient_of(&vec![7.]), 7.);
}

#[test]
fn chars_of_keeps_order() {
    assert_eq!(chars_of("a,é"), vec!['a', ',', 'é']);
}

#[test]
fn row_error_messages() {
    assert_eq!(RowError::WrongDimensions.message(), "Wrong dimensions");
    assert_eq!(RowError::BadNumber.message(), "Error parsing number.");
}
