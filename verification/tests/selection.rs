//! The selection language against the five-column header with a
//! duplicate name and a bracketed name, and the key primitives the
//! comparators build on.
use xsv::select::{selection, SelectError};
use xsv::transforms::select_rows;
use xsv::common::{transform, cmp_key};
use xsv::num::parse_num;
use std::cmp::Ordering;

fn f(s: &str) -> Vec<u8> {
    s.as_bytes().to_vec()
}

fn row(fields: &[&str]) -> Vec<Vec<u8>> {
    fields.iter().map(|s| f(s)).collect()
}

fn data(headers: bool) -> Vec<Vec<Vec<u8>>> {
    let mut rows = Vec::new();
    if headers {
        rows.push(row(&["h1", "h2", "h[]3", "h4", "h1"]));
    }
    rows.push(row(&["a", "b", "c", "d", "e"]));
    rows
}

fn strings(rows: &Vec<Vec<Vec<u8>>>) -> Vec<Vec<String>> {
    rows.iter()
        .map(|r| r.iter().map(|c| String::from_utf8(c.clone()).unwrap()).collect())
        .collect()
}

fn expect(rows: &[&[&str]]) -> Vec<Vec<String>> {
    rows.iter().map(|r| r.iter().map(|s| s.to_string()).collect()).collect()
}

fn check(expr: &str, expr_no_headers: &str, hdr: &[&str], rest: &[&str]) {
    let with = select_rows(&data(true), &f(expr), true).unwrap();
    let mut want = Vec::new();
    want.push(hdr.iter().map(|s| s.to_string()).collect::<Vec<String>>());
    want.push(rest.iter().map(|s| s.to_string()).collect::<Vec<String>>());
    assert_eq!(strings(&with), want);
    let without = select_rows(&data(false), &f(expr_no_headers), false).unwrap();
    assert_eq!(strings(&without), vec![rest
        .iter()
        .map(|s| s.to_string())
        .collect::<Vec<String>>()]);
}

#[test]
fn select_simple() {
    check("h1", "1", &["h1"], &["a"]);
}

#[test]
fn select_simple_idx() {
    check("h1[0]", "1", &["h1"], &["a"]);
}

#[test]
fn select_simple_idx_2() {
    check("h1[1]", "5", &["h1"], &["e"]);
}

#[test]
fn select_quoted() {
    check("\"h[]3\"", "3", &["h[]3"], &["c"]);
}

#[test]
fn select_quoted_idx() {
    check("\"h[]3\"[0]", "3", &["h[]3"], &["c"]);
}

#[test]
fn select_range() {
    check("h1-h4", "1-4", &["h1", "h2", "h[]3", "h4"], &["a", "b", "c", "d"]);
}

#[test]
fn select_range_multi() {
    check("h1-h2,\"h[]3\"-h4", "1-2,3-4", &["h1", "h2", "h[]3", "h4"], &["a", "b", "c", "d"]);
}

#[test]
fn select_reverse() {
    check(
        "h1[1]-h1[0]",
        "5-1",
        &["h1", "h4", "h[]3", "h2", "h1"],
        &["e", "d", "c", "b", "a"],
    );
}

#[test]
fn select_not() {
    check("!\"h[]3\"[0]", "!3", &["h1", "h2", "h4", "h1"], &["a", "b", "d", "e"]);
}

#[test]
fn select_not_range() {
    check("!h1[1]-h2", "!5-2", &["h1"], &["a"]);
}

#[test]
fn select_duplicate() {
    check("h1,h1", "1,1", &["h1", "h1"], &["a", "a"]);
}

#[test]
fn select_duplicate_range() {
    check(
        "h1-h2,h1-h2",
        "1-2,1-2",
        &["h1", "h2", "h1", "h2"],
        &["a", "b", "a", "b"],
    );
}

#[test]
fn select_duplicate_range_reverse() {
    check(
        "h1-h2,h2-h1",
        "1-2,2-1",
        &["h1", "h2", "h2", "h1"],
        &["a", "b", "b", "a"],
    );
}

#[test]
fn select_range_no_end() {
    check("h4-", "4-", &["h4", "h1"], &["d", "e"]);
}

#[test]
fn select_range_no_start() {
    check("-h2", "-2", &["h1", "h2"], &["a", "b"]);
}

#[test]
fn select_range_no_end_cat() {
    check("h4-,h1", "4-,1", &["h4", "h1", "h1"], &["d", "e", "a"]);
}

#[test]
fn select_range_no_start_cat() {
    check("-h2,h1[1]", "-2,5", &["h1", "h2", "h1"], &["a", "b", "e"]);
}

fn err_of(expr: &str) -> SelectError {
    let hdr = row(&["h1", "h2", "h[]3", "h4", "h1"]);
    selection(&f(expr), &hdr, true).unwrap_err()
}

#[test]
fn select_err_unknown_header() {
    assert_eq!(err_of("dne"), SelectError::UnknownHeader);
}

#[test]
fn select_err_oob_low() {
    assert_eq!(err_of("0"), SelectError::IndexOutOfBounds);
}

#[test]
fn select_err_oob_high() {
    assert_eq!(err_of("6"), SelectError::IndexOutOfBounds);
}

#[test]
fn select_err_idx_as_name() {
    assert_eq!(err_of("1[0]"), SelectError::BracketOnIndex);
}

#[test]
fn select_err_idx_oob_high() {
    assert_eq!(err_of("h1[2]"), SelectError::OccurrenceOutOfBounds);
}

#[test]
fn select_err_idx_not_int() {
    assert_eq!(err_of("h1[2.0]"), SelectError::BracketNotInteger);
}

#[test]
fn select_err_idx_not_int_2() {
    assert_eq!(err_of("h1[a]"), SelectError::BracketNotInteger);
}

#[test]
fn select_err_unclosed_quote() {
    assert_eq!(err_of("\"h1"), SelectError::UnclosedQuote);
}

#[test]
fn select_err_unclosed_bracket() {
    assert_eq!(err_of("\"h1\"[1"), SelectError::UnclosedBracket);
}

#[test]
fn select_err_expected_end_of_field() {
    assert_eq!(err_of("a-b-"), SelectError::MalformedRange);
}

#[test]
fn select_err_names_without_headers() {
    let hdr = row(&["x", "y"]);
    assert_eq!(
        selection(&f("x"), &hdr, false).unwrap_err(),
        SelectError::NamedWithNoHeaders
    );
}

#[test]
fn select_err_mixed_negation() {
    let hdr = row(&["x", "y"]);
    assert_eq!(selection(&f("1,!2"), &hdr, true).unwrap_err(), SelectError::MixedNegation);
}

#[test]
fn transform_trims_and_folds() {
    assert_eq!(transform(&f("  Ab c\t"), false), f("Ab c"));
    assert_eq!(transform(&f("  Ab C\t"), true), f("ab c"));
    assert_eq!(transform(&f("   "), false), f(""));
}

#[test]
fn cmp_key_string_order() {
    let a = vec![f("1")];
    let b = vec![f("10")];
    let c = vec![f("2")];
    assert_eq!(cmp_key(&a, &b, false), Ordering::Less);
    assert_eq!(cmp_key(&b, &c, false), Ordering::Less);
    assert_eq!(cmp_key(&c, &c, false), Ordering::Equal);
}

#[test]
fn cmp_key_numeric_order() {
    let one = vec![f("1")];
    let ten = vec![f("10")];
    let two = vec![f("2")];
    let word = vec![f("x")];
    assert_eq!(cmp_key(&one, &ten, true), Ordering::Less);
    assert_eq!(cmp_key(&two, &ten, true), Ordering::Less);
    // What does not read as a number comes before every number.
    assert_eq!(cmp_key(&word, &one, true), Ordering::Less);
    // Equal values in different spellings compare equal.
    let a = vec![f("1.50")];
    let b = vec![f("1.5")];
    assert_eq!(cmp_key(&a, &b, true), Ordering::Equal);
    let na = vec![f("-0")];
    let nb = vec![f("0.0")];
    assert_eq!(cmp_key(&na, &nb, true), Ordering::Equal);
    let neg = vec![f("-2")];
    assert_eq!(cmp_key(&neg, &one, true), Ordering::Less);
}

#[test]
fn parse_num_normalizes() {
    let n = parse_num(&f("007.250")).unwrap();
    assert!(!n.neg);
    assert_eq!(n.int_digits, f("7"));
    assert_eq!(n.frac_digits, f("25"));
    let z = parse_num(&f("-0.0")).unwrap();
    assert!(!z.neg);
    assert_eq!(z.int_digits, f(""));
    assert_eq!(z.frac_digits, f(""));
    assert!(parse_num(&f("")).is_none());
    assert!(parse_num(&f("1.2.3")).is_none());
    assert!(parse_num(&f("12a")).is_none());
    assert!(parse_num(&f(".5")).is_some());
    assert!(parse_num(&f("+41")).is_some());
}

#[test]
fn check_num_type_flags_words() {
    assert!(xsv::num::check_num_type(&vec![f("1"), f("2.5")]).is_ok());
    assert!(xsv::num::check_num_type(&vec![f("1"), f("x")]).is_err());
}

#[test]
fn iter_cmp_rows() {
    let a = row(&["a", "b"]);
    let b = row(&["a", "c"]);
    assert_eq!(xsv::sort::iter_cmp(&a, &b), Ordering::Less);
    assert_eq!(xsv::sort::iter_cmp(&b, &a), Ordering::Greater);
    assert_eq!(xsv::sort::iter_cmp(&a, &a), Ordering::Equal);
}

#[test]
fn quick_sort_pairs() {
    let pairs = vec![
        (vec![f("b")], 0usize),
        (vec![f("a")], 1usize),
        (vec![f("a")], 2usize),
    ];
    let sorted = xsv::sort::quick_sort(pairs, false, false);
    let keys: Vec<String> = sorted
        .iter()
        .map(|p| String::from_utf8(p.0[0].clone()).unwrap())
        .collect();
    let pos: Vec<usize> = sorted.iter().map(|p| p.1).collect();
    assert_eq!(keys, vec!["a", "a", "b"]);
    assert_eq!(pos, vec![1, 2, 0]);
}

#[test]
fn compare_partition_splits() {
    let pairs = vec![
        (vec![f("c")], 0usize),
        (vec![f("a")], 1usize),
        (vec![f("b")], 2usize),
    ];
    let (pivot, left, right) = xsv::sort::compare_partition(pairs, false, false);
    assert_eq!(pivot.0[0], f("b"));
    assert_eq!(left.len(), 1);
    assert_eq!(right.len(), 1);
}

#[test]
fn common_xsv_starts_empty() {
    let c = xsv::CommonXsv::new();
    assert!(c.reader.is_empty());
    assert!(c.writer.is_empty());
    assert!(c.path.is_none());
}

#[test]
fn cli_error_carries_message() {
    let e = xsv::CliError::Other("parse error.".to_string());
    assert_eq!(e.message(), "parse error.");
}
