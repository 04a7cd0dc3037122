//! A verified core of a CSV processing toolkit: column selection,
//! counting, concatenation, slicing, sorting (in-memory and external),
//! joins over sorted inputs, and frequency tables, all specified over
//! sequences of byte fields.
use vstd::prelude::*;

pub mod common;
pub mod num;
pub mod select;
pub mod sort;
pub mod terasort;
pub mod multijoin;
pub mod cat;
pub mod transforms;
pub mod index;
pub mod frequency;
pub mod join;
pub mod examples;

verus! {

/// The error a command hands back to the dispatcher: a usage error, a
/// malformed-CSV error, an I/O error, or a domain error (selection,
/// numeric parse, ordering violation), each carrying its message.
pub enum CliError {
    Flag(String),
    Csv(String),
    Io(String),
    Other(String),
}

impl CliError {
    /// The message carried by the error, whatever its kind.
    pub fn message(&self) -> &String {
        match self {
            CliError::Flag(m) => m,
            CliError::Csv(m) => m,
            CliError::Io(m) => m,
            CliError::Other(m) => m,
        }
    }
}

/// An in-memory byte source and sink pair, the buffer-backed stand-in
/// for a file the commands read from and write to.
pub struct CommonXsv {
    pub reader: Vec<u8>,
    pub writer: Vec<u8>,
    pub path: Option<String>,
}

impl CommonXsv {
    /// A fresh pair of empty buffers with no path.
    pub fn new() -> (r: CommonXsv)
        ensures
            r.reader@.len() == 0,
            r.writer@.len() == 0,
            r.path is None,
    {
        CommonXsv { reader: Vec::new(), writer: Vec::new(), path: None }
    }
}

/// A single CSV field: raw bytes, uninterpreted unless a command
/// needs to read them as text or as a number.
pub type Field = Vec<u8>;

/// One CSV record: an ordered list of fields.
pub type Row = Vec<Field>;

/// The number of data rows in `rows`: every physical row counts,
/// except the header row when headers mode is on.
pub open spec fn data_row_count(rows: Seq<Seq<Seq<u8>>>, headers: bool) -> int {
    if headers && rows.len() > 0 {
        rows.len() - 1
    } else {
        rows.len() as int
    }
}

/// Header preservation: with headers on, the first output row of every
/// non-sort command is a fixed function of the inputs' header rows —
/// `cat rows` and `slice` keep the first input's header, `select`
/// projects it, the joins put the headers side by side, and `frequency`
/// writes its own column names.
pub proof fn lemma_header_preservation(
    inputs: Seq<Seq<Seq<Seq<u8>>>>,
    rows: Seq<Seq<Seq<u8>>>,
    ta: Seq<Seq<Seq<u8>>>,
    tb: Seq<Seq<Seq<u8>>>,
    expr: Seq<u8>,
    start: int,
    end: int,
    no_nulls: bool,
    asc: bool,
    limit: int,
    casei: bool,
    nulls: bool,
    mode: crate::join::JoinMode,
)
    requires
        rows.len() > 0,
    ensures
        inputs.len() > 0 && inputs[0].len() > 0 ==> crate::cat::cat_rows_spec(inputs, true)[0]
            == inputs[0][0],
        crate::transforms::slice_spec(rows, true, start, end)[0] == rows[0],
        crate::transforms::select_spec(rows, expr, true) matches Result::Ok(out) ==> out[0]
            == crate::select::apply_selection(
            crate::select::selection_spec(expr, rows[0], true)->Ok_0,
            rows[0],
        ),
        crate::frequency::frequency_spec(rows, expr, true, no_nulls, asc, limit) matches
            Result::Ok(out) ==> out[0] == seq![
            seq![102u8, 105u8, 101u8, 108u8, 100u8],
            seq![118u8, 97u8, 108u8, 117u8, 101u8],
            seq![99u8, 111u8, 117u8, 110u8, 116u8],
        ],
        crate::join::join_spec(ta, tb, expr, expr, true, casei, nulls, mode) matches Result::Ok(
            out,
        ) ==> out[0] == crate::multijoin::header_row(ta) + crate::multijoin::header_row(tb),
{
    assert(crate::multijoin::header_row(rows) == rows[0]);
    if crate::transforms::select_spec(rows, expr, true) is Ok {
        let sel = crate::select::selection_spec(expr, rows[0], true)->Ok_0;
        assert(rows.map_values(|r: Seq<Seq<u8>>| crate::select::apply_selection(sel, r))[0]
            == crate::select::apply_selection(sel, rows[0]));
    }
}

/// Counts the data rows of `rows`, not counting the header row
/// when `headers` is set.
pub fn count_rows(rows: &Vec<Row>, headers: bool) -> (count: u64)
    ensures
        count == data_row_count(rows.deep_view(), headers),
{
    let n = rows.len();
    if headers && n > 0 {
        (n - 1) as u64
    } else {
        n as u64
    }
}

} // verus!
