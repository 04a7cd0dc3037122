//! Runs the in-memory commands on concrete inputs and checks the
//! exact rows they return.
use xsv::examples;
use xsv::join::JoinMode;
use xsv::index::RowIndex;

fn f(s: &str) -> Vec<u8> {
    s.as_bytes().to_vec()
}

fn row(fields: &[&str]) -> Vec<Vec<u8>> {
    fields.iter().map(|s| f(s)).collect()
}

fn table(rows: &[&[&str]]) -> Vec<Vec<Vec<u8>>> {
    rows.iter().map(|r| row(r)).collect()
}

fn strings(rows: &Vec<Vec<Vec<u8>>>) -> Vec<Vec<String>> {
    rows.iter()
        .map(|r| r.iter().map(|c| String::from_utf8(c.clone()).unwrap()).collect())
        .collect()
}

fn expect(rows: &[&[&str]]) -> Vec<Vec<String>> {
    rows.iter().map(|r| r.iter().map(|s| s.to_string()).collect()).collect()
}

#[test]
fn prop_count() {
    assert_eq!(examples::prop_count(), 2);
}

#[test]
fn prop_count_headers() {
    assert_eq!(examples::prop_count_headers(), 1);
}

#[test]
fn prop_count_indexed() {
    assert_eq!(examples::prop_count_indexed(), 2);
}

#[test]
fn prop_count_indexed_headers() {
    assert_eq!(examples::prop_count_indexed_headers(), 1);
}

#[test]
fn cat_rows_headers() {
    let got = examples::cat_rows_headers();
    assert_eq!(strings(&got), expect(&[&["h1", "h2"], &["a", "b"], &["y", "z"]]));
}

#[test]
fn cat_rows_space() {
    // The lone row of the second input serves as its header and is
    // not data; the first input is empty, so nothing comes out.
    let got = examples::cat_rows_space();
    assert_eq!(strings(&got), expect(&[]));
}

#[test]
fn cat_cols_headers() {
    let got = examples::cat_cols_headers();
    assert_eq!(strings(&got), expect(&[&["h1", "h2", "h3", "h4"], &["a", "b", "y", "z"]]));
}

#[test]
fn cat_cols_no_pad() {
    let got = examples::cat_cols_no_pad();
    assert_eq!(strings(&got), expect(&[&["a", "b", "y", "z"]]));
}

#[test]
fn cat_cols_pad() {
    let got = examples::cat_cols_pad();
    assert_eq!(strings(&got), expect(&[&["a", "b", "y", "z"], &["", "", "y", "z"]]));
}

#[test]
fn frequency_no_headers() {
    let got = examples::frequency_no_headers();
    assert_eq!(
        strings(&got),
        expect(&[
            &["1", "a", "3"],
            &["1", "(NULL)", "2"],
            &["1", "h1", "1"],
            &["1", "b", "1"],
        ])
    );
}

#[test]
fn frequency_no_nulls() {
    let got = examples::frequency_no_nulls();
    assert_eq!(
        strings(&got),
        expect(&[
            &["field", "value", "count"],
            &["h1", "a", "3"],
            &["h1", "b", "1"],
            &["h1", "(NULL)", "1"],
        ])
    );
}

#[test]
fn frequency_nulls() {
    let got = examples::frequency_nulls();
    assert_eq!(
        strings(&got),
        expect(&[
            &["field", "value", "count"],
            &["h1", "a", "3"],
            &["h1", "(NULL)", "2"],
            &["h1", "b", "1"],
        ])
    );
}

#[test]
fn frequency_limit() {
    let got = examples::frequency_limit();
    assert_eq!(
        strings(&got),
        expect(&[&["field", "value", "count"], &["h1", "a", "3"], &["h2", "z", "3"]])
    );
}

#[test]
fn frequency_asc() {
    let got = examples::frequency_asc();
    assert_eq!(strings(&got), expect(&[&["field", "value", "count"], &["h2", "x", "1"]]));
}

#[test]
fn frequency_select() {
    let got = examples::frequency_select();
    assert_eq!(
        strings(&got),
        expect(&[
            &["field", "value", "count"],
            &["h2", "z", "3"],
            &["h2", "y", "2"],
            &["h2", "x", "1"],
        ])
    );
}

#[test]
fn prop_frequency() {
    let got = examples::prop_frequency();
    assert_eq!(
        strings(&got),
        expect(&[
            &["field", "value", "count"],
            &["x", "x", "2"],
            &["y", "(NULL)", "1"],
            &["y", "m", "1"],
            &["z", "z", "1"],
            &["z", "zl", "1"],
        ])
    );
}

#[test]
fn frequency_bom() {
    let got = examples::frequency_bom();
    assert_eq!(
        strings(&got),
        expect(&[&["field", "value", "count"], &["\u{FEFF}", "(NULL)", "1"]])
    );
}

#[test]
fn prop_frequency_indexed() {
    let got = examples::prop_frequency_indexed();
    assert_eq!(
        strings(&got),
        expect(&[
            &["field", "value", "count"],
            &["x", "x", "2"],
            &["y", "y", "1"],
            &["y", "m", "1"],
            &["z", "z", "1"],
            &["z", "zl", "1"],
        ])
    );
}

#[test]
fn join_inner_issue11() {
    let got = examples::join_inner_issue11();
    assert_eq!(
        strings(&got),
        expect(&[&["1", "2", "2", "1"], &["3", "4", "4", "3"], &["5", "6", "6", "5"]])
    );
}

#[test]
fn join_cross() {
    let got = examples::join_cross();
    assert_eq!(
        strings(&got),
        expect(&[
            &["h1", "h2", "h3", "h4"],
            &["a", "b", "1", "2"],
            &["a", "b", "3", "4"],
            &["c", "d", "1", "2"],
            &["c", "d", "3", "4"],
        ])
    );
}

#[test]
fn join_cross_no_headers() {
    let got = examples::join_cross_no_headers();
    assert_eq!(
        strings(&got),
        expect(&[
            &["a", "b", "1", "2"],
            &["a", "b", "3", "4"],
            &["c", "d", "1", "2"],
            &["c", "d", "3", "4"],
        ])
    );
}

fn cities() -> Vec<Vec<Vec<u8>>> {
    table(&[
        &["city", "state"],
        &["Boston", "MA"],
        &["New York", "NY"],
        &["San Francisco", "CA"],
        &["Buffalo", "NY"],
    ])
}

fn places() -> Vec<Vec<Vec<u8>>> {
    table(&[
        &["city", "place"],
        &["Boston", "Logan Airport"],
        &["Boston", "Boston Garden"],
        &["Buffalo", "Ralph Wilson Stadium"],
        &["Orlando", "Disney World"],
    ])
}

#[test]
fn join_inner_cities() {
    let got = examples::run_join(
        &cities(),
        &places(),
        &f("city"),
        &f("city"),
        true,
        false,
        false,
        JoinMode::Inner,
    );
    assert_eq!(
        strings(&got),
        expect(&[
            &["city", "state", "city", "place"],
            &["Boston", "MA", "Boston", "Logan Airport"],
            &["Boston", "MA", "Boston", "Boston Garden"],
            &["Buffalo", "NY", "Buffalo", "Ralph Wilson Stadium"],
        ])
    );
}

#[test]
fn join_outer_left_cities() {
    let got = examples::run_join(
        &cities(),
        &places(),
        &f("city"),
        &f("city"),
        true,
        false,
        false,
        JoinMode::Left,
    );
    assert_eq!(
        strings(&got),
        expect(&[
            &["city", "state", "city", "place"],
            &["Boston", "MA", "Boston", "Logan Airport"],
            &["Boston", "MA", "Boston", "Boston Garden"],
            &["New York", "NY", "", ""],
            &["San Francisco", "CA", "", ""],
            &["Buffalo", "NY", "Buffalo", "Ralph Wilson Stadium"],
        ])
    );
}

#[test]
fn join_outer_right_cities() {
    let got = examples::run_join(
        &cities(),
        &places(),
        &f("city"),
        &f("city"),
        true,
        false,
        false,
        JoinMode::Right,
    );
    assert_eq!(
        strings(&got),
        expect(&[
            &["city", "state", "city", "place"],
            &["Boston", "MA", "Boston", "Logan Airport"],
            &["Boston", "MA", "Boston", "Boston Garden"],
            &["Buffalo", "NY", "Buffalo", "Ralph Wilson Stadium"],
            &["", "", "Orlando", "Disney World"],
        ])
    );
}

#[test]
fn join_outer_full_cities() {
    let got = examples::run_join(
        &cities(),
        &places(),
        &f("city"),
        &f("city"),
        true,
        false,
        false,
        JoinMode::Full,
    );
    assert_eq!(
        strings(&got),
        expect(&[
            &["city", "state", "city", "place"],
            &["Boston", "MA", "Boston", "Logan Airport"],
            &["Boston", "MA", "Boston", "Boston Garden"],
            &["New York", "NY", "", ""],
            &["San Francisco", "CA", "", ""],
            &["Buffalo", "NY", "Buffalo", "Ralph Wilson Stadium"],
            &["", "", "Orlando", "Disney World"],
        ])
    );
}

#[test]
fn prop_sort_headers() {
    let got = examples::prop_sort_headers();
    assert_eq!(
        strings(&got),
        expect(&[&["N", "S"], &["1", "d"], &["10", "a"], &["2", "c"], &["LETTER", "b"]])
    );
}

#[test]
fn prop_sort_no_headers() {
    let got = examples::prop_sort_no_headers();
    assert_eq!(
        strings(&got),
        expect(&[
            &["1", "d"],
            &["10", "a"],
            &["2", "c"],
            &["LETTER", "b"],
            &["N", "S"],
        ])
    );
}

#[test]
fn sort_select() {
    let got = examples::sort_select();
    assert_eq!(strings(&got), expect(&[&["2", "a"], &["1", "b"]]));
}

#[test]
fn sort_numeric() {
    let got = examples::sort_numeric();
    assert_eq!(
        strings(&got),
        expect(&[&["N", "S"], &["LETTER", "b"], &["1", "d"], &["2", "c"], &["10", "a"]])
    );
}

#[test]
fn sort_numeric_non_natural() {
    let got = examples::sort_numeric_non_natural();
    assert_eq!(
        strings(&got),
        expect(&[
            &["N", "S"],
            &["LETTER", "c"],
            &["3.33", "e"],
            &["5", "b"],
            &["7.4", "d"],
            &["8.33", "a"],
        ])
    );
}

#[test]
fn sort_reverse() {
    let got = examples::sort_reverse();
    assert_eq!(strings(&got), expect(&[&["R", "S"], &["2", "a"], &["1", "b"]]));
}

#[test]
fn sort_is_idempotent_bytewise() {
    let sorted = examples::prop_sort_no_headers();
    let again = examples::run_sort(&sorted, &f("1-"), false, false, false);
    assert_eq!(strings(&again), strings(&sorted));
}

#[test]
fn terasort_matches_sort() {
    let rows = table(&[
        &["N", "S"],
        &["10", "a"],
        &["LETTER", "b"],
        &["2", "c"],
        &["1", "d"],
    ]);
    let plain = examples::run_sort(&rows, &f("1"), false, false, true);
    let tera = examples::run_terasort(
        &rows,
        &f("1"),
        false,
        false,
        false,
        false,
        true,
        5000,
        10,
        Some(42),
    );
    assert_eq!(strings(&tera), strings(&plain));
}

#[test]
fn terasort_seeded_deterministic() {
    let rows = table(&[&["k"], &["b"], &["c"], &["a"]]);
    let one = examples::run_terasort(
        &rows,
        &f("1"),
        false,
        false,
        false,
        false,
        true,
        2,
        2,
        Some(7),
    );
    let two = examples::run_terasort(
        &rows,
        &f("1"),
        false,
        false,
        false,
        false,
        true,
        2,
        2,
        Some(7),
    );
    assert_eq!(strings(&one), strings(&two));
    assert_eq!(strings(&one), expect(&[&["k"], &["a"], &["b"], &["c"]]));
}

#[test]
fn terasort_reverse_numeric() {
    let rows = table(&[&["n"], &["2"], &["10"], &["1"]]);
    let got = examples::run_terasort(
        &rows,
        &f("1"),
        false,
        false,
        true,
        true,
        true,
        5000,
        10,
        Some(1),
    );
    assert_eq!(strings(&got), expect(&[&["n"], &["10"], &["2"], &["1"]]));
}

#[test]
fn terasort_drops_null_keys() {
    let rows = table(&[&["n"], &["b"], &[""], &["a"]]);
    let got = examples::run_terasort(
        &rows,
        &f("1"),
        false,
        false,
        false,
        false,
        true,
        5000,
        10,
        Some(1),
    );
    assert_eq!(strings(&got), expect(&[&["n"], &["a"], &["b"]]));
}

#[test]
fn multijoin_two_sorted_inputs() {
    let a = table(&[&["k", "x"], &["1", "x"], &["2", "y"]]);
    let b = table(&[&["k", "u"], &["1", "u"], &["1", "v"], &["3", "w"]]);
    let tables = vec![a, b];
    let exprs = vec![f("1"), f("1")];
    let got = xsv::multijoin::multijoin(
        &tables, &exprs, true, false, false, false, true, false, true,
    )
    .unwrap_or_else(|_| Vec::new());
    assert_eq!(
        strings(&got),
        expect(&[
            &["k", "x", "k", "u"],
            &["1", "x", "1", "u"],
            &["1", "x", "1", "v"],
        ])
    );
}

#[test]
fn multijoin_three_inputs() {
    let a = table(&[&["1", "x"], &["2", "y"]]);
    let b = table(&[&["1", "u"], &["2", "v"]]);
    let c = table(&[&["2", "m"], &["3", "n"]]);
    let tables = vec![a, b, c];
    let exprs = vec![f("1"), f("1"), f("1")];
    let got = xsv::multijoin::multijoin(
        &tables, &exprs, false, false, false, false, true, false, true,
    )
    .unwrap_or_else(|_| Vec::new());
    assert_eq!(strings(&got), expect(&[&["2", "y", "2", "v", "2", "m"]]));
}

#[test]
fn multijoin_ordering_violation() {
    let a = table(&[&["2", "y"], &["1", "x"]]);
    let b = table(&[&["1", "u"]]);
    let tables = vec![a, b];
    let exprs = vec![f("1"), f("1")];
    let got = xsv::multijoin::multijoin(
        &tables, &exprs, false, false, false, false, true, false, true,
    );
    assert!(matches!(got, Err(xsv::multijoin::JoinError::OrderingViolation)));
}

#[test]
fn multijoin_unique_takes_first_match_only() {
    // One left row against two equal-key right rows: with the
    // uniqueness flag only the first right row is joined on.
    let a = table(&[&["1", "x"]]);
    let b = table(&[&["1", "u"], &["1", "v"]]);
    let tables = vec![a, b];
    let exprs = vec![f("1"), f("1")];
    let got = xsv::multijoin::multijoin(
        &tables, &exprs, false, false, false, true, true, false, false,
    )
    .unwrap_or_else(|_| Vec::new());
    assert_eq!(strings(&got), expect(&[&["1", "x", "1", "u"]]));
}

#[test]
fn multijoin_unique_skips_repeated_left_keys() {
    let a = table(&[&["1", "x"], &["1", "y"]]);
    let b = table(&[&["1", "u"]]);
    let tables = vec![a, b];
    let exprs = vec![f("1"), f("1")];
    let got = xsv::multijoin::multijoin(
        &tables, &exprs, false, false, false, true, true, false, false,
    )
    .unwrap_or_else(|_| Vec::new());
    assert_eq!(strings(&got), expect(&[&["1", "x", "1", "u"]]));
}

#[test]
fn multijoin_needs_one_order_flag() {
    let a = table(&[&["1", "x"]]);
    let tables = vec![a.clone(), a];
    let exprs = vec![f("1"), f("1")];
    let got = xsv::multijoin::multijoin(
        &tables, &exprs, false, false, false, false, false, false, false,
    );
    assert!(matches!(got, Err(xsv::multijoin::JoinError::BadOrderFlags)));
}

#[test]
fn slice_index() {
    let got = examples::slice_index();
    assert_eq!(strings(&got), expect(&[&["header"], &["b"]]));
}

#[test]
fn slice_index_no_headers() {
    let got = examples::slice_index_no_headers();
    assert_eq!(strings(&got), expect(&[&["b"]]));
}

#[test]
fn slice_index_withindex() {
    let got = examples::slice_index_withindex();
    assert_eq!(strings(&got), expect(&[&["header"], &["b"]]));
}

#[test]
fn slice_index_no_headers_withindex() {
    let got = examples::slice_index_no_headers_withindex();
    assert_eq!(strings(&got), expect(&[&["b"]]));
}

#[test]
fn slice_range_with_headers() {
    let rows = table(&[&["header"], &["a"], &["b"], &["c"], &["d"], &["e"]]);
    let got = xsv::transforms::slice_rows(&rows, true, 1, Some(3));
    assert_eq!(strings(&got), expect(&[&["header"], &["b"], &["c"]]));
}

#[test]
fn slice_open_end() {
    let rows = table(&[&["header"], &["a"], &["b"], &["c"], &["d"], &["e"]]);
    let got = xsv::transforms::slice_rows(&rows, true, 3, None);
    assert_eq!(strings(&got), expect(&[&["header"], &["d"], &["e"]]));
}

#[test]
fn index_round_trip() {
    let ix = RowIndex { offsets: vec![0, 17, 99, 1 << 40] };
    let bytes = ix.encode();
    assert_eq!(bytes.len(), 5 * 8);
    let back = RowIndex::decode(&bytes).unwrap();
    assert_eq!(back.offsets, vec![0, 17, 99, 1 << 40]);
    assert_eq!(back.count(), 4);
    assert_eq!(back.seek_row(2), 99);
}

#[test]
fn index_rejects_garbage() {
    assert!(RowIndex::decode(&vec![1, 2, 3]).is_none());
    // Sixteen bytes whose trailing count does not name one offset.
    let mut bad = vec![0u8; 16];
    bad[15] = 9;
    assert!(RowIndex::decode(&bad).is_none());
}

#[test]
fn flatten_labels_and_condense() {
    let rows = table(&[&["name", "note"], &["ab", "abcdef"]]);
    let got = xsv::transforms::flatten_rows(&rows, true, Some(3), &f("#"));
    assert_eq!(
        strings(&got),
        expect(&[&["name", "ab"], &["note", "abc..."]])
    );
}

#[test]
fn flatten_no_headers_uses_indices() {
    let rows = table(&[&["x", "y"], &["u", "v"]]);
    let got = xsv::transforms::flatten_rows(&rows, false, None, &f("#"));
    assert_eq!(
        strings(&got),
        expect(&[
            &["0", "x"],
            &["1", "y"],
            &["#", ""],
            &["0", "u"],
            &["1", "v"],
        ])
    );
}

#[test]
fn multijoin_equals_nested_joins() {
    // Three sorted inputs without headers: the three-way join equals
    // joining the first two and then the third on the same columns.
    let a = table(&[&["1", "x"], &["2", "y"], &["2", "z"]]);
    let b = table(&[&["1", "u"], &["2", "v"]]);
    let c = table(&[&["2", "m"], &["2", "n"]]);
    let tables = vec![a.clone(), b.clone(), c.clone()];
    let exprs = vec![f("1"), f("1"), f("1")];
    let three = xsv::multijoin::multijoin(
        &tables, &exprs, false, false, true, false, true, false, false,
    )
    .unwrap();
    let two = examples::run_join(&a, &b, &f("1"), &f("1"), false, false, true, JoinMode::Inner);
    let nested = examples::run_join(&two, &c, &f("1"), &f("1"), false, false, true, JoinMode::Inner);
    assert_eq!(strings(&three), strings(&nested));
    assert_eq!(
        strings(&three),
        expect(&[
            &["2", "y", "2", "v", "2", "m"],
            &["2", "y", "2", "v", "2", "n"],
            &["2", "z", "2", "v", "2", "m"],
            &["2", "z", "2", "v", "2", "n"],
        ])
    );
}

#[test]
fn sort_deterministic_across_runs() {
    let rows = table(&[&["k"], &["b"], &["a"], &["b"]]);
    let one = examples::run_sort(&rows, &f("1"), false, false, true);
    let two = examples::run_sort(&rows, &f("1"), false, false, true);
    assert_eq!(strings(&one), strings(&two));
}

#[test]
fn count_empty_input() {
    let rows: Vec<Vec<Vec<u8>>> = Vec::new();
    assert_eq!(examples::run_count(&rows, true), 0);
    assert_eq!(examples::run_count(&rows, false), 0);
}
