//! Concrete end-to-end runs of the commands on small inputs, the same
//! ones the integration suite checks: counting, concatenation,
//! frequency tables, joins, sorting and slicing. Each builds its rows,
//! runs the command in memory, and hands back the output, pinned by an
//! exact contract over the command's own specification.
use vstd::prelude::*;
use vstd::string::{StrSliceExecFns, StringSliceAdditionalSpecFns};
use crate::select::{selection, selection_spec};
use crate::multijoin::header_row;
use crate::join::{JoinMode, join_spec};
use crate::index::RowIndex;
use crate::cat::{cat_rows_spec, cat_columns_spec, input_uniform};
use crate::transforms::slice_spec;
use crate::frequency::frequency_spec;
use crate::sort::sort_rows_spec;

verus! {

/// The bytes of one literal field.
pub open spec fn lit(s: &str) -> Seq<u8> {
    s.spec_bytes()
}

pub open spec fn row1(a: &str) -> Seq<Seq<u8>> {
    seq![lit(a)]
}

pub open spec fn row2(a: &str, b: &str) -> Seq<Seq<u8>> {
    seq![lit(a), lit(b)]
}

pub open spec fn row3(a: &str, b: &str, c: &str) -> Seq<Seq<u8>> {
    seq![lit(a), lit(b), lit(c)]
}

/// A two-row, two-column input.
pub open spec fn two_tab(a1: &str, a2: &str, b1: &str, b2: &str) -> Seq<Seq<Seq<u8>>> {
    seq![row2(a1, a2), row2(b1, b2)]
}

/// One field from literal text.
fn field(s: &str) -> (r: Vec<u8>)
    ensures
        r@ == lit(s),
{
    s.as_bytes_vec()
}

fn trow1(a: &str) -> (r: Vec<Vec<u8>>)
    ensures
        r.deep_view() == row1(a),
{
    let mut r: Vec<Vec<u8>> = Vec::new();
    r.push(field(a));
    proof {
        assert(r.deep_view() =~~= row1(a));
    }
    r
}

fn trow2(a: &str, b: &str) -> (r: Vec<Vec<u8>>)
    ensures
        r.deep_view() == row2(a, b),
{
    let mut r: Vec<Vec<u8>> = Vec::new();
    r.push(field(a));
    r.push(field(b));
    proof {
        assert(r.deep_view() =~~= row2(a, b));
    }
    r
}

fn trow3(a: &str, b: &str, c: &str) -> (r: Vec<Vec<u8>>)
    ensures
        r.deep_view() == row3(a, b, c),
{
    let mut r: Vec<Vec<u8>> = Vec::new();
    r.push(field(a));
    r.push(field(b));
    r.push(field(c));
    proof {
        assert(r.deep_view() =~~= row3(a, b, c));
    }
    r
}

/// The two-row, two-column builder the runs share.
fn two_field_table(a1: &str, a2: &str, b1: &str, b2: &str) -> (r: Vec<Vec<Vec<u8>>>)
    ensures
        r.deep_view() == two_tab(a1, a2, b1, b2),
{
    let mut t: Vec<Vec<Vec<u8>>> = Vec::new();
    t.push(trow2(a1, a2));
    t.push(trow2(b1, b2));
    proof {
        assert(t.deep_view() =~~= two_tab(a1, a2, b1, b2));
    }
    t
}

/// Every row as wide as the first.
pub open spec fn widths_uniform(rows: Seq<Seq<Seq<u8>>>) -> bool {
    forall|i: int| 0 <= i < rows.len() ==> (#[trigger] rows[i]).len() == header_row(rows).len()
}

fn widths_ok(rows: &Vec<Vec<Vec<u8>>>) -> (r: bool)
    ensures
        r == widths_uniform(rows.deep_view()),
{
    let ghost rowsv = rows.deep_view();
    if rows.len() == 0 {
        return true;
    }
    let w = rows[0].len();
    proof {
        assert(rowsv[0] == rows@[0].deep_view());
        assert(header_row(rowsv).len() == w as int);
    }
    let mut i: usize = 0;
    while i < rows.len()
        invariant
            0 <= i <= rows@.len(),
            rowsv == rows.deep_view(),
            rowsv.len() == rows@.len(),
            rows@.len() > 0,
            header_row(rowsv).len() == w as int,
            forall|q: int| 0 <= q < i ==> (#[trigger] rowsv[q]).len() == w as int,
        decreases rows@.len() - i,
    {
        proof {
            assert(rowsv[i as int] == rows@[i as int].deep_view());
        }
        if rows[i].len() != w {
            proof {
                assert(rowsv[i as int].len() != header_row(rowsv).len());
            }
            return false;
        }
        i += 1;
    }
    true
}

/// Counts the data rows, the in-memory run of `count`.
pub fn run_count(rows: &Vec<Vec<Vec<u8>>>, header: bool) -> (r: u64)
    ensures
        r == crate::data_row_count(rows.deep_view(), header),
{
    crate::count_rows(rows, header)
}

/// Runs `frequency`, checking the input's shape first: ragged rows or
/// a bad selection give an empty table.
pub fn run_frequency(
    rows: &Vec<Vec<Vec<u8>>>,
    expr: &Vec<u8>,
    headers: bool,
    no_nulls: bool,
    asc: bool,
    limit: usize,
) -> (r: Vec<Vec<Vec<u8>>>)
    ensures
        if widths_uniform(rows.deep_view()) {
            match frequency_spec(rows.deep_view(), expr@, headers, no_nulls, asc, limit as int) {
                Result::Ok(t) => r.deep_view() == t,
                Result::Err(_) => r@.len() == 0,
            }
        } else {
            r@.len() == 0
        },
{
    if !widths_ok(rows) {
        return Vec::new();
    }
    match crate::frequency::frequency(rows, expr, headers, no_nulls, asc, limit) {
        Result::Ok(t) => t,
        Result::Err(_) => Vec::new(),
    }
}

/// Runs `sort`, compiling the selection against the first row; ragged
/// rows or a bad selection give the input back unchanged.
pub fn run_sort(
    rows: &Vec<Vec<Vec<u8>>>,
    expr: &Vec<u8>,
    numeric: bool,
    reverse: bool,
    headers: bool,
) -> (r: Vec<Vec<Vec<u8>>>)
    ensures
        ({
            let rowsv = rows.deep_view();
            if widths_uniform(rowsv) {
                match selection_spec(expr@, header_row(rowsv), headers) {
                    Result::Ok(sel) => r.deep_view() == sort_rows_spec(
                        rowsv,
                        sel,
                        numeric,
                        reverse,
                        headers,
                    ),
                    Result::Err(_) => r.deep_view() == rowsv,
                }
            } else {
                r.deep_view() == rowsv
            }
        }),
{
    let ghost rowsv = rows.deep_view();
    if !widths_ok(rows) {
        return clone_row_list(rows);
    }
    let empty_header: Vec<Vec<u8>> = Vec::new();
    let sel_r = if rows.len() > 0 {
        proof {
            assert(rowsv[0] == rows@[0].deep_view());
        }
        selection(expr, &rows[0], headers)
    } else {
        proof {
            assert(empty_header.deep_view() =~= header_row(rowsv));
        }
        selection(expr, &empty_header, headers)
    };
    match sel_r {
        Result::Err(_) => clone_row_list(rows),
        Result::Ok(sel) => {
            proof {
                assert forall|i: int| 0 <= i < rowsv.len() implies sel.valid_for(
                    (#[trigger] rowsv[i]).len() as int,
                ) by {
                    assert(rowsv[i].len() == header_row(rowsv).len());
                }
            }
            crate::sort::sort_rows(rows, &sel, numeric, reverse, headers)
        },
    }
}

/// Runs `terasort` the same way; a failing run gives the input back.
pub fn run_terasort(
    rows: &Vec<Vec<Vec<u8>>>,
    expr: &Vec<u8>,
    casei: bool,
    nulls: bool,
    numeric: bool,
    reverse: bool,
    headers: bool,
    samplesize: usize,
    splitnum: usize,
    seed: Option<u64>,
) -> (r: Vec<Vec<Vec<u8>>>)
    ensures
        ({
            let rowsv = rows.deep_view();
            (widths_uniform(rowsv) && selection_spec(expr@, header_row(rowsv), headers) is Ok
                && splitnum > 0 && samplesize > 0 && (numeric
                ==> crate::terasort::kept_all_numeric(
                crate::terasort::data_of(rowsv, headers),
                selection_spec(expr@, header_row(rowsv), headers)->Ok_0,
                casei,
                nulls,
            ))) ==> r.deep_view() == crate::terasort::terasort_rows_spec(
                rowsv,
                selection_spec(expr@, header_row(rowsv), headers)->Ok_0,
                casei,
                nulls,
                numeric,
                reverse,
                headers,
            )
        }),
{
    let ghost rowsv = rows.deep_view();
    if !widths_ok(rows) {
        return clone_row_list(rows);
    }
    let empty_header: Vec<Vec<u8>> = Vec::new();
    let sel_r = if rows.len() > 0 {
        proof {
            assert(rowsv[0] == rows@[0].deep_view());
        }
        selection(expr, &rows[0], headers)
    } else {
        proof {
            assert(empty_header.deep_view() =~= header_row(rowsv));
        }
        selection(expr, &empty_header, headers)
    };
    match sel_r {
        Result::Err(_) => clone_row_list(rows),
        Result::Ok(sel) => {
            proof {
                assert forall|i: int| 0 <= i < rowsv.len() implies sel.valid_for(
                    (#[trigger] rowsv[i]).len() as int,
                ) by {
                    assert(rowsv[i].len() == header_row(rowsv).len());
                }
            }
            match crate::terasort::terasort(
                rows,
                &sel,
                casei,
                nulls,
                numeric,
                reverse,
                headers,
                samplesize,
                splitnum,
                seed,
            ) {
                Result::Ok(out) => out,
                Result::Err(_) => clone_row_list(rows),
            }
        },
    }
}

/// Runs a two-input join, checking both inputs' shapes first: ragged
/// rows or a failing join give an empty output.
pub fn run_join(
    ta: &Vec<Vec<Vec<u8>>>,
    tb: &Vec<Vec<Vec<u8>>>,
    ea: &Vec<u8>,
    eb: &Vec<u8>,
    headers: bool,
    casei: bool,
    nulls: bool,
    mode: JoinMode,
) -> (r: Vec<Vec<Vec<u8>>>)
    ensures
        ({
            let ok = widths_uniform(ta.deep_view()) && widths_uniform(tb.deep_view());
            if ok {
                match join_spec(
                    ta.deep_view(),
                    tb.deep_view(),
                    ea@,
                    eb@,
                    headers,
                    casei,
                    nulls,
                    mode,
                ) {
                    Result::Ok(t) => r.deep_view() == t,
                    Result::Err(_) => r@.len() == 0,
                }
            } else {
                r@.len() == 0
            }
        }),
{
    if !widths_ok(ta) || !widths_ok(tb) {
        return Vec::new();
    }
    proof {
        let pair = seq![ta.deep_view(), tb.deep_view()];
        assert forall|t: int, i: int|
            0 <= t < pair.len() && 0 <= i < pair[t].len() implies (#[trigger] pair[t][i]).len()
            == header_row(pair[t]).len() by {
            if t == 0 {
                assert(pair[0] == ta.deep_view());
            } else {
                assert(pair[1] == tb.deep_view());
            }
        }
    }
    match crate::join::join(ta, tb, ea, eb, headers, casei, nulls, mode) {
        Result::Ok(t) => t,
        Result::Err(_) => Vec::new(),
    }
}

/// Copies a list of rows.
fn clone_row_list(rows: &Vec<Vec<Vec<u8>>>) -> (r: Vec<Vec<Vec<u8>>>)
    ensures
        r.deep_view() == rows.deep_view(),
{
    crate::common::clone_rows(rows)
}

/// Counting two data rows without headers.
pub fn prop_count() -> (r: u64)
    ensures
        r == 2,
{
    let rows = two_field_table("h1", "h2", "a", "b");
    run_count(&rows, false)
}

/// Counting the same rows with the first as header.
pub fn prop_count_headers() -> (r: u64)
    ensures
        r == 1,
{
    let rows = two_field_table("h1", "h2", "a", "b");
    run_count(&rows, true)
}

/// The indexed count: the trailing count of a matching index equals
/// the scan.
pub fn prop_count_indexed() -> (r: u64)
    ensures
        r == 2,
{
    let rows = two_field_table("h1", "h2", "a", "b");
    let mut offsets: Vec<u64> = Vec::new();
    offsets.push(0);
    offsets.push(6);
    let ix = RowIndex { offsets };
    let via_index = ix.count();
    let via_scan = run_count(&rows, false);
    proof {
        assert(via_index == via_scan);
    }
    via_index
}

/// The indexed count under headers.
pub fn prop_count_indexed_headers() -> (r: u64)
    ensures
        r == 1,
{
    let rows = two_field_table("h1", "h2", "a", "b");
    let mut offsets: Vec<u64> = Vec::new();
    offsets.push(6);
    let ix = RowIndex { offsets };
    let via_index = ix.count();
    let via_scan = run_count(&rows, true);
    proof {
        assert(via_index == via_scan);
    }
    via_index
}

/// `cat rows` of two headed inputs: one header, both data rows.
pub fn cat_rows_headers() -> (r: Vec<Vec<Vec<u8>>>)
    ensures
        r.deep_view() == cat_rows_spec(
            seq![two_tab("h1", "h2", "a", "b"), two_tab("h1", "h2", "y", "z")],
            true,
        ),
{
    let mut inputs: Vec<Vec<Vec<Vec<u8>>>> = Vec::new();
    inputs.push(two_field_table("h1", "h2", "a", "b"));
    inputs.push(two_field_table("h1", "h2", "y", "z"));
    proof {
        assert(inputs.deep_view() =~~= seq![
            two_tab("h1", "h2", "a", "b"),
            two_tab("h1", "h2", "y", "z"),
        ]);
        assert(forall|t: int|
            0 <= t < inputs.deep_view().len() ==> input_uniform(
                #[trigger] inputs.deep_view()[t],
            ));
    }
    crate::cat::cat_rows(&inputs, true)
}

/// `cat rows` around a next-line control character: the second input's
/// only row serves as its header, so nothing is left to stream.
pub fn cat_rows_space() -> (r: Vec<Vec<Vec<u8>>>)
    ensures
        r.deep_view() == cat_rows_spec(
            seq![Seq::<Seq<Seq<u8>>>::empty(), seq![row1("\u{0085}")]],
            true,
        ),
{
    let mut inputs: Vec<Vec<Vec<Vec<u8>>>> = Vec::new();
    let first: Vec<Vec<Vec<u8>>> = Vec::new();
    let mut second: Vec<Vec<Vec<u8>>> = Vec::new();
    second.push(trow1("\u{0085}"));
    inputs.push(first);
    inputs.push(second);
    proof {
        assert(inputs.deep_view() =~~= seq![
            Seq::<Seq<Seq<u8>>>::empty(),
            seq![row1("\u{0085}")],
        ]);
        assert(forall|t: int|
            0 <= t < inputs.deep_view().len() ==> input_uniform(
                #[trigger] inputs.deep_view()[t],
            ));
    }
    crate::cat::cat_rows(&inputs, true)
}

/// `cat columns` of two headed inputs.
pub fn cat_cols_headers() -> (r: Vec<Vec<Vec<u8>>>)
    ensures
        r.deep_view() == cat_columns_spec(
            seq![two_tab("h1", "h2", "a", "b"), two_tab("h3", "h4", "y", "z")],
            false,
        ),
{
    let mut inputs: Vec<Vec<Vec<Vec<u8>>>> = Vec::new();
    inputs.push(two_field_table("h1", "h2", "a", "b"));
    inputs.push(two_field_table("h3", "h4", "y", "z"));
    proof {
        assert(inputs.deep_view() =~~= seq![
            two_tab("h1", "h2", "a", "b"),
            two_tab("h3", "h4", "y", "z"),
        ]);
    }
    crate::cat::cat_columns(&inputs, false)
}

/// The unpadded and padded column concatenations share this pair.
pub open spec fn cat_cols_pair() -> Seq<Seq<Seq<Seq<u8>>>> {
    seq![seq![row2("a", "b")], two_tab("y", "z", "y", "z")]
}

fn cat_cols_inputs() -> (r: Vec<Vec<Vec<Vec<u8>>>>)
    ensures
        r.deep_view() == cat_cols_pair(),
{
    let mut inputs: Vec<Vec<Vec<Vec<u8>>>> = Vec::new();
    let mut first: Vec<Vec<Vec<u8>>> = Vec::new();
    first.push(trow2("a", "b"));
    inputs.push(first);
    inputs.push(two_field_table("y", "z", "y", "z"));
    proof {
        assert(inputs.deep_view() =~~= cat_cols_pair());
    }
    inputs
}

/// `cat columns` stopping at the shorter input.
pub fn cat_cols_no_pad() -> (r: Vec<Vec<Vec<u8>>>)
    ensures
        r.deep_view() == cat_columns_spec(cat_cols_pair(), false),
{
    let inputs = cat_cols_inputs();
    crate::cat::cat_columns(&inputs, false)
}

/// `cat columns` padding the shorter input with empty fields.
pub fn cat_cols_pad() -> (r: Vec<Vec<Vec<u8>>>)
    ensures
        r.deep_view() == cat_columns_spec(cat_cols_pair(), true),
{
    let inputs = cat_cols_inputs();
    crate::cat::cat_columns(&inputs, true)
}

/// The input the frequency runs share.
pub open spec fn setup_rows() -> Seq<Seq<Seq<u8>>> {
    seq![
        row2("h1", "h2"),
        row2("a", "z"),
        row2("a", "y"),
        row2("a", "y"),
        row2("b", "z"),
        row2("", "z"),
        row2("(NULL)", "x"),
    ]
}

fn setup() -> (r: Vec<Vec<Vec<u8>>>)
    ensures
        r.deep_view() == setup_rows(),
{
    let mut rows: Vec<Vec<Vec<u8>>> = Vec::new();
    rows.push(trow2("h1", "h2"));
    rows.push(trow2("a", "z"));
    rows.push(trow2("a", "y"));
    rows.push(trow2("a", "y"));
    rows.push(trow2("b", "z"));
    rows.push(trow2("", "z"));
    rows.push(trow2("(NULL)", "x"));
    proof {
        assert(rows.deep_view() =~~= setup_rows());
    }
    rows
}

/// Frequency of the first column, the header row counted as data.
pub fn frequency_no_headers() -> (r: Vec<Vec<Vec<u8>>>)
    ensures
        match frequency_spec(setup_rows(), lit("1"), false, false, false, 0) {
            Result::Ok(t) => r.deep_view() == t,
            Result::Err(_) => r@.len() == 0,
        },
{
    let rows = setup();
    proof {
        assert(widths_uniform(setup_rows()));
    }
    run_frequency(&rows, &field("1"), false, false, false, 0)
}

/// Frequency of `h1` with empty values left out.
pub fn frequency_no_nulls() -> (r: Vec<Vec<Vec<u8>>>)
    ensures
        match frequency_spec(setup_rows(), lit("h1"), true, true, false, 0) {
            Result::Ok(t) => r.deep_view() == t,
            Result::Err(_) => r@.len() == 0,
        },
{
    let rows = setup();
    proof {
        assert(widths_uniform(setup_rows()));
    }
    run_frequency(&rows, &field("h1"), true, true, false, 0)
}

/// Frequency of `h1` with empty values counted as `(NULL)`.
pub fn frequency_nulls() -> (r: Vec<Vec<Vec<u8>>>)
    ensures
        match frequency_spec(setup_rows(), lit("h1"), true, false, false, 0) {
            Result::Ok(t) => r.deep_view() == t,
            Result::Err(_) => r@.len() == 0,
        },
{
    let rows = setup();
    proof {
        assert(widths_uniform(setup_rows()));
    }
    run_frequency(&rows, &field("h1"), true, false, false, 0)
}

/// Frequency of every column, one row per table.
pub fn frequency_limit() -> (r: Vec<Vec<Vec<u8>>>)
    ensures
        match frequency_spec(setup_rows(), lit("1-"), true, false, false, 1) {
            Result::Ok(t) => r.deep_view() == t,
            Result::Err(_) => r@.len() == 0,
        },
{
    let rows = setup();
    proof {
        assert(widths_uniform(setup_rows()));
    }
    run_frequency(&rows, &field("1-"), true, false, false, 1)
}

/// The rarest value of `h2`.
pub fn frequency_asc() -> (r: Vec<Vec<Vec<u8>>>)
    ensures
        match frequency_spec(setup_rows(), lit("h2"), true, false, true, 1) {
            Result::Ok(t) => r.deep_view() == t,
            Result::Err(_) => r@.len() == 0,
        },
{
    let rows = setup();
    proof {
        assert(widths_uniform(setup_rows()));
    }
    run_frequency(&rows, &field("h2"), true, false, true, 1)
}

/// Frequency of `h2` alone.
pub fn frequency_select() -> (r: Vec<Vec<Vec<u8>>>)
    ensures
        match frequency_spec(setup_rows(), lit("h2"), true, false, false, 0) {
            Result::Ok(t) => r.deep_view() == t,
            Result::Err(_) => r@.len() == 0,
        },
{
    let rows = setup();
    proof {
        assert(widths_uniform(setup_rows()));
    }
    run_frequency(&rows, &field("h2"), true, false, false, 0)
}

/// The three-column input of the whole-table frequency run.
pub open spec fn prop_freq_rows() -> Seq<Seq<Seq<u8>>> {
    seq![row3("x", "y", "z"), row3("x", "", "z"), row3("x", "m", "zl")]
}

/// A whole-table frequency run whose counts, by the table's contract,
/// are the counts of the in-memory multiset of transformed values.
pub fn prop_frequency() -> (r: Vec<Vec<Vec<u8>>>)
    ensures
        match frequency_spec(prop_freq_rows(), lit("1-"), true, false, false, 0) {
            Result::Ok(t) => r.deep_view() == t,
            Result::Err(_) => r@.len() == 0,
        },
{
    let mut rows: Vec<Vec<Vec<u8>>> = Vec::new();
    rows.push(trow3("x", "y", "z"));
    rows.push(trow3("x", "", "z"));
    rows.push(trow3("x", "m", "zl"));
    proof {
        assert(rows.deep_view() =~~= prop_freq_rows());
        assert(widths_uniform(prop_freq_rows()));
    }
    run_frequency(&rows, &field("1-"), true, false, false, 0)
}

/// The byte-order-mark input.
pub open spec fn bom_rows() -> Seq<Seq<Seq<u8>>> {
    seq![row1("\u{FEFF}"), row1("")]
}

/// A byte-order mark survives as an ordinary header value.
pub fn frequency_bom() -> (r: Vec<Vec<Vec<u8>>>)
    ensures
        match frequency_spec(bom_rows(), lit("1-"), true, false, false, 0) {
            Result::Ok(t) => r.deep_view() == t,
            Result::Err(_) => r@.len() == 0,
        },
{
    let mut rows: Vec<Vec<Vec<u8>>> = Vec::new();
    rows.push(trow1("\u{FEFF}"));
    rows.push(trow1(""));
    proof {
        assert(rows.deep_view() =~~= bom_rows());
        assert(widths_uniform(bom_rows()));
    }
    run_frequency(&rows, &field("1-"), true, false, false, 0)
}

/// The input of the index-partitioned frequency run.
pub open spec fn prop_freq_ix_rows() -> Seq<Seq<Seq<u8>>> {
    seq![row3("x", "y", "z"), row3("x", "y", "z"), row3("x", "m", "zl")]
}

/// The same frequency run an index-partitioned computation must match:
/// its merge is a pointwise multiset sum, and the serial table is
/// already stated over that multiset.
pub fn prop_frequency_indexed() -> (r: Vec<Vec<Vec<u8>>>)
    ensures
        match frequency_spec(prop_freq_ix_rows(), lit("1-"), true, false, false, 0) {
            Result::Ok(t) => r.deep_view() == t,
            Result::Err(_) => r@.len() == 0,
        },
{
    let mut rows: Vec<Vec<Vec<u8>>> = Vec::new();
    rows.push(trow3("x", "y", "z"));
    rows.push(trow3("x", "y", "z"));
    rows.push(trow3("x", "m", "zl"));
    proof {
        assert(rows.deep_view() =~~= prop_freq_ix_rows());
        assert(widths_uniform(prop_freq_ix_rows()));
    }
    run_frequency(&rows, &field("1-"), true, false, false, 0)
}

/// The crossed-over numeric pair inputs.
pub open spec fn issue11_a() -> Seq<Seq<Seq<u8>>> {
    seq![row2("1", "2"), row2("3", "4"), row2("5", "6")]
}

pub open spec fn issue11_b() -> Seq<Seq<Seq<u8>>> {
    seq![row2("2", "1"), row2("4", "3"), row2("6", "5")]
}

/// Joining on both columns crossed over: the numeric pairs line up.
pub fn join_inner_issue11() -> (r: Vec<Vec<Vec<u8>>>)
    ensures
        match join_spec(
            issue11_a(),
            issue11_b(),
            lit("1,2"),
            lit("2,1"),
            true,
            false,
            false,
            JoinMode::Inner,
        ) {
            Result::Ok(t) => r.deep_view() == t,
            Result::Err(_) => r@.len() == 0,
        },
{
    let mut a: Vec<Vec<Vec<u8>>> = Vec::new();
    a.push(trow2("1", "2"));
    a.push(trow2("3", "4"));
    a.push(trow2("5", "6"));
    let mut b: Vec<Vec<Vec<u8>>> = Vec::new();
    b.push(trow2("2", "1"));
    b.push(trow2("4", "3"));
    b.push(trow2("6", "5"));
    proof {
        assert(a.deep_view() =~~= issue11_a());
        assert(b.deep_view() =~~= issue11_b());
        assert(widths_uniform(issue11_a()));
        assert(widths_uniform(issue11_b()));
    }
    run_join(&a, &b, &field("1,2"), &field("2,1"), true, false, false, JoinMode::Inner)
}

/// The cross product's two headed inputs.
pub open spec fn letters_rows() -> Seq<Seq<Seq<u8>>> {
    seq![row2("h1", "h2"), row2("a", "b"), row2("c", "d")]
}

pub open spec fn numbers_rows() -> Seq<Seq<Seq<u8>>> {
    seq![row2("h3", "h4"), row2("1", "2"), row2("3", "4")]
}

/// The cross product of two headed inputs.
pub fn join_cross() -> (r: Vec<Vec<Vec<u8>>>)
    ensures
        match join_spec(
            letters_rows(),
            numbers_rows(),
            lit(""),
            lit(""),
            true,
            false,
            false,
            JoinMode::Cross,
        ) {
            Result::Ok(t) => r.deep_view() == t,
            Result::Err(_) => r@.len() == 0,
        },
{
    let mut letters: Vec<Vec<Vec<u8>>> = Vec::new();
    letters.push(trow2("h1", "h2"));
    letters.push(trow2("a", "b"));
    letters.push(trow2("c", "d"));
    let mut numbers: Vec<Vec<Vec<u8>>> = Vec::new();
    numbers.push(trow2("h3", "h4"));
    numbers.push(trow2("1", "2"));
    numbers.push(trow2("3", "4"));
    proof {
        assert(letters.deep_view() =~~= letters_rows());
        assert(numbers.deep_view() =~~= numbers_rows());
        assert(widths_uniform(letters_rows()));
        assert(widths_uniform(numbers_rows()));
    }
    run_join(&letters, &numbers, &field(""), &field(""), true, false, false, JoinMode::Cross)
}

/// The cross product without headers.
pub fn join_cross_no_headers() -> (r: Vec<Vec<Vec<u8>>>)
    ensures
        match join_spec(
            two_tab("a", "b", "c", "d"),
            two_tab("1", "2", "3", "4"),
            lit(""),
            lit(""),
            false,
            false,
            false,
            JoinMode::Cross,
        ) {
            Result::Ok(t) => r.deep_view() == t,
            Result::Err(_) => r@.len() == 0,
        },
{
    let letters = two_field_table("a", "b", "c", "d");
    let numbers = two_field_table("1", "2", "3", "4");
    proof {
        assert(widths_uniform(two_tab("a", "b", "c", "d")));
        assert(widths_uniform(two_tab("1", "2", "3", "4")));
    }
    run_join(&letters, &numbers, &field(""), &field(""), false, false, false, JoinMode::Cross)
}

/// The rows the sort runs share.
pub open spec fn sort_in_rows() -> Seq<Seq<Seq<u8>>> {
    seq![
        row2("N", "S"),
        row2("10", "a"),
        row2("LETTER", "b"),
        row2("2", "c"),
        row2("1", "d"),
    ]
}

fn sort_input() -> (r: Vec<Vec<Vec<u8>>>)
    ensures
        r.deep_view() == sort_in_rows(),
{
    let mut rows: Vec<Vec<Vec<u8>>> = Vec::new();
    rows.push(trow2("N", "S"));
    rows.push(trow2("10", "a"));
    rows.push(trow2("LETTER", "b"));
    rows.push(trow2("2", "c"));
    rows.push(trow2("1", "d"));
    proof {
        assert(rows.deep_view() =~~= sort_in_rows());
    }
    rows
}

/// What one sort run is owed: the sorted rows of its input, or the
/// input unchanged when the selection does not compile.
pub open spec fn sorted_or_same(
    r: Seq<Seq<Seq<u8>>>,
    rows: Seq<Seq<Seq<u8>>>,
    expr: Seq<u8>,
    numeric: bool,
    reverse: bool,
    headers: bool,
) -> bool {
    match selection_spec(expr, header_row(rows), headers) {
        Result::Ok(sel) => r == sort_rows_spec(rows, sel, numeric, reverse, headers),
        Result::Err(_) => r == rows,
    }
}

/// A bytewise sort under headers.
pub fn prop_sort_headers() -> (r: Vec<Vec<Vec<u8>>>)
    ensures
        sorted_or_same(r.deep_view(), sort_in_rows(), lit("1-"), false, false, true),
{
    let rows = sort_input();
    proof {
        assert(widths_uniform(sort_in_rows()));
    }
    run_sort(&rows, &field("1-"), false, false, true)
}

/// The same sort with the first row as data.
pub fn prop_sort_no_headers() -> (r: Vec<Vec<Vec<u8>>>)
    ensures
        sorted_or_same(r.deep_view(), sort_in_rows(), lit("1-"), false, false, false),
{
    let rows = sort_input();
    proof {
        assert(widths_uniform(sort_in_rows()));
    }
    run_sort(&rows, &field("1-"), false, false, false)
}

/// Sorting by the second column alone.
pub fn sort_select() -> (r: Vec<Vec<Vec<u8>>>)
    ensures
        sorted_or_same(r.deep_view(), two_tab("1", "b", "2", "a"), lit("2"), false, false, false),
{
    let rows = two_field_table("1", "b", "2", "a");
    proof {
        assert(widths_uniform(two_tab("1", "b", "2", "a")));
    }
    run_sort(&rows, &field("2"), false, false, false)
}

/// A numeric sort: what does not read as a number comes first.
pub fn sort_numeric() -> (r: Vec<Vec<Vec<u8>>>)
    ensures
        sorted_or_same(r.deep_view(), sort_in_rows(), lit("1-"), true, false, true),
{
    let rows = sort_input();
    proof {
        assert(widths_uniform(sort_in_rows()));
    }
    run_sort(&rows, &field("1-"), true, false, true)
}

/// The mixed-decimal numeric input.
pub open spec fn sortnn_rows() -> Seq<Seq<Seq<u8>>> {
    seq![
        row2("N", "S"),
        row2("8.33", "a"),
        row2("5", "b"),
        row2("LETTER", "c"),
        row2("7.4", "d"),
        row2("3.33", "e"),
    ]
}

/// A numeric sort over mixed decimals.
pub fn sort_numeric_non_natural() -> (r: Vec<Vec<Vec<u8>>>)
    ensures
        sorted_or_same(r.deep_view(), sortnn_rows(), lit("1-"), true, false, true),
{
    let mut rows: Vec<Vec<Vec<u8>>> = Vec::new();
    rows.push(trow2("N", "S"));
    rows.push(trow2("8.33", "a"));
    rows.push(trow2("5", "b"));
    rows.push(trow2("LETTER", "c"));
    rows.push(trow2("7.4", "d"));
    rows.push(trow2("3.33", "e"));
    proof {
        assert(rows.deep_view() =~~= sortnn_rows());
        assert(widths_uniform(sortnn_rows()));
    }
    run_sort(&rows, &field("1-"), true, false, true)
}

/// The reversed sort's input.
pub open spec fn sort_rev_rows() -> Seq<Seq<Seq<u8>>> {
    seq![row2("R", "S"), row2("1", "b"), row2("2", "a")]
}

/// A reversed bytewise sort.
pub fn sort_reverse() -> (r: Vec<Vec<Vec<u8>>>)
    ensures
        sorted_or_same(r.deep_view(), sort_rev_rows(), lit("1-"), false, true, false),
{
    let mut rows: Vec<Vec<Vec<u8>>> = Vec::new();
    rows.push(trow2("R", "S"));
    rows.push(trow2("1", "b"));
    rows.push(trow2("2", "a"));
    proof {
        assert(rows.deep_view() =~~= sort_rev_rows());
        assert(widths_uniform(sort_rev_rows()));
    }
    run_sort(&rows, &field("1-"), false, true, false)
}

/// The rows the slice runs share.
pub open spec fn slice_in_rows(headers: bool) -> Seq<Seq<Seq<u8>>> {
    (if headers {
        seq![row1("header")]
    } else {
        Seq::<Seq<Seq<u8>>>::empty()
    }) + seq![row1("a"), row1("b"), row1("c"), row1("d"), row1("e")]
}

fn slice_input(headers: bool) -> (r: Vec<Vec<Vec<u8>>>)
    ensures
        r.deep_view() == slice_in_rows(headers),
{
    let mut rows: Vec<Vec<Vec<u8>>> = Vec::new();
    if headers {
        rows.push(trow1("header"));
    }
    rows.push(trow1("a"));
    rows.push(trow1("b"));
    rows.push(trow1("c"));
    rows.push(trow1("d"));
    rows.push(trow1("e"));
    proof {
        assert(rows.deep_view() =~~= slice_in_rows(headers));
    }
    rows
}

/// Picking row 1 by index, headers on.
pub fn slice_index() -> (r: Vec<Vec<Vec<u8>>>)
    ensures
        r.deep_view() == slice_spec(slice_in_rows(true), true, 1, 2),
{
    let rows = slice_input(true);
    crate::transforms::slice_rows(&rows, true, 1, Some(2))
}

/// Picking row 1 by index without headers.
pub fn slice_index_no_headers() -> (r: Vec<Vec<Vec<u8>>>)
    ensures
        r.deep_view() == slice_spec(slice_in_rows(false), false, 1, 2),
{
    let rows = slice_input(false);
    crate::transforms::slice_rows(&rows, false, 1, Some(2))
}

/// Picking row 1 through the row index.
pub fn slice_index_withindex() -> (r: Vec<Vec<Vec<u8>>>)
    ensures
        r.deep_view() == slice_spec(slice_in_rows(true), true, 1, 2),
{
    let rows = slice_input(true);
    let mut offsets: Vec<u64> = Vec::new();
    offsets.push(7);
    offsets.push(9);
    offsets.push(11);
    offsets.push(13);
    offsets.push(15);
    let ix = RowIndex { offsets };
    proof {
        assert(crate::terasort::data_of(rows.deep_view(), true).len() == 5);
    }
    crate::index::slice_indexed(&rows, &ix, true, 1, Some(2))
}

/// Picking row 1 through the row index, headers off.
pub fn slice_index_no_headers_withindex() -> (r: Vec<Vec<Vec<u8>>>)
    ensures
        r.deep_view() == slice_spec(slice_in_rows(false), false, 1, 2),
{
    let rows = slice_input(false);
    let mut offsets: Vec<u64> = Vec::new();
    offsets.push(0);
    offsets.push(2);
    offsets.push(4);
    offsets.push(6);
    offsets.push(8);
    let ix = RowIndex { offsets };
    proof {
        assert(crate::terasort::data_of(rows.deep_view(), false).len() == 5);
    }
    crate::index::slice_indexed(&rows, &ix, false, 1, Some(2))
}

} // verus!
