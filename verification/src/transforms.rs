//! Single-pass row transforms: slicing a row range, projecting columns
//! through a selection, and flattening records into labeled lines.
use vstd::prelude::*;
use crate::common::{clone_row, clone_field, copy_range};
use crate::select::{selection, selection_spec, apply_selection, SelectError};
use crate::terasort::data_of;
use crate::multijoin::header_row;

verus! {

pub open spec fn clamp(x: int, n: int) -> int {
    if x < n {
        x
    } else {
        n
    }
}

/// What `slice` returns: the header kept when headers are on, and the
/// data rows from `start` up to `end`, both clamped to the data.
pub open spec fn slice_spec(rows: Seq<Seq<Seq<u8>>>, headers: bool, start: int, end: int) -> Seq<
    Seq<Seq<u8>>,
> {
    let data = data_of(rows, headers);
    let s = clamp(start, data.len() as int);
    let e = clamp(end, data.len() as int);
    let body = if s <= e {
        data.subrange(s, e)
    } else {
        Seq::empty()
    };
    if headers && rows.len() > 0 {
        seq![rows[0]] + body
    } else {
        body
    }
}

/// Takes the data rows from `start` up to `end` (`None` meaning all
/// the rest), the header row passing through when headers are on.
pub fn slice_rows(rows: &Vec<Vec<Vec<u8>>>, headers: bool, start: usize, end: Option<usize>) -> (
    out: Vec<Vec<Vec<u8>>>)
    ensures
        out.deep_view() == slice_spec(
            rows.deep_view(),
            headers,
            start as int,
            match end {
                Option::Some(e) => e as int,
                Option::None => data_of(rows.deep_view(), headers).len() as int,
            },
        ),
{
    let ghost rowsv = rows.deep_view();
    let hstart: usize = if headers && rows.len() > 0 {
        1
    } else {
        0
    };
    let ghost data = data_of(rowsv, headers);
    proof {
        assert(data =~= rowsv.skip(hstart as int));
    }
    let dlen = rows.len() - hstart;
    let s = if start < dlen {
        start
    } else {
        dlen
    };
    let e = match end {
        Option::Some(e) => if e < dlen {
            e
        } else {
            dlen
        },
        Option::None => dlen,
    };
    let mut out: Vec<Vec<Vec<u8>>> = Vec::new();
    if hstart == 1 {
        let hd = clone_row(&rows[0]);
        let ghost hv = hd.deep_view();
        out.push(hd);
        proof {
            assert(rowsv[0] == rows@[0].deep_view());
            assert(out.deep_view() =~~= Seq::<Seq<Seq<u8>>>::empty().push(rowsv[0]));
        }
    }
    let ghost base = out.deep_view();
    if s < e {
        let mut i: usize = s;
        while i < e
            invariant
                s <= i <= e,
                hstart + e <= rows@.len(),
                hstart + e <= usize::MAX,
                rowsv == rows.deep_view(),
                rowsv.len() == rows@.len(),
                data =~= rowsv.skip(hstart as int),
                out.deep_view() =~= base + data.subrange(s as int, i as int),
            decreases e - i,
        {
            let row = clone_row(&rows[hstart + i]);
            let ghost prev = out.deep_view();
            let ghost rv = row.deep_view();
            out.push(row);
            proof {
                assert(out.deep_view() =~~= prev.push(rv));
                assert(rowsv[hstart + i] == rows@[(hstart + i) as int].deep_view());
                assert(data[i as int] == rowsv[hstart + i]);
                assert(out.deep_view() =~= base + data.subrange(s as int, i + 1 as int));
            }
            i += 1;
        }
    }
    proof {
        assert(out.deep_view() =~= slice_spec(
            rowsv,
            headers,
            start as int,
            match end {
                Option::Some(e2) => e2 as int,
                Option::None => data.len() as int,
            },
        ));
    }
    out
}

/// What `select` returns: every row — header included — projected
/// through the selection the expression compiles to.
pub open spec fn select_spec(rows: Seq<Seq<Seq<u8>>>, expr: Seq<u8>, headers: bool) -> Result<
    Seq<Seq<Seq<u8>>>,
    SelectError,
> {
    match selection_spec(expr, header_row(rows), headers) {
        Result::Err(e) => Result::Err(e),
        Result::Ok(sel) => Result::Ok(rows.map_values(|r: Seq<Seq<u8>>| apply_selection(sel, r))),
    }
}

/// Projects every row of the input through the selection compiled
/// from `expr` against the first row.
pub fn select_rows(rows: &Vec<Vec<Vec<u8>>>, expr: &Vec<u8>, headers: bool) -> (r: Result<
    Vec<Vec<Vec<u8>>>,
    SelectError,
>)
    requires
        forall|i: int|
            0 <= i < rows.deep_view().len() ==> (#[trigger] rows.deep_view()[i]).len()
                == header_row(rows.deep_view()).len(),
    ensures
        match r {
            Result::Ok(out) => select_spec(rows.deep_view(), expr@, headers) == Result::<
                Seq<Seq<Seq<u8>>>,
                SelectError,
            >::Ok(out.deep_view()),
            Result::Err(e) => select_spec(rows.deep_view(), expr@, headers) == Result::<
                Seq<Seq<Seq<u8>>>,
                SelectError,
            >::Err(e),
        },
{
    let ghost rowsv = rows.deep_view();
    let empty_header: Vec<Vec<u8>> = Vec::new();
    let sel_r = if rows.len() > 0 {
        proof {
            assert(rowsv[0] == rows@[0].deep_view());
            assert(header_row(rowsv) == rowsv[0]);
        }
        selection(expr, &rows[0], headers)
    } else {
        proof {
            assert(empty_header.deep_view() =~= header_row(rowsv));
        }
        selection(expr, &empty_header, headers)
    };
    let sel = match sel_r {
        Result::Err(e) => {
            return Err(e);
        },
        Result::Ok(sel) => sel,
    };
    let mut out: Vec<Vec<Vec<u8>>> = Vec::new();
    let mut i: usize = 0;
    while i < rows.len()
        invariant
            0 <= i <= rows@.len(),
            rowsv == rows.deep_view(),
            rowsv.len() == rows@.len(),
            sel.valid_for(header_row(rowsv).len() as int),
            forall|k: int|
                0 <= k < rowsv.len() ==> (#[trigger] rowsv[k]).len() == header_row(rowsv).len(),
            out.deep_view() =~= rowsv.map_values(|r: Seq<Seq<u8>>| apply_selection(sel@, r)).take(
                i as int,
            ),
        decreases rows@.len() - i,
    {
        proof {
            assert(rowsv[i as int] == rows@[i as int].deep_view());
            assert(rows@[i as int].deep_view().len() == rows@[i as int]@.len());
        }
        let prow = sel.select(&rows[i]);
        let ghost prev = out.deep_view();
        let ghost pv = prow.deep_view();
        out.push(prow);
        proof {
            assert(out.deep_view() =~~= prev.push(pv));
            assert(out.deep_view() =~= rowsv.map_values(
                |r: Seq<Seq<u8>>| apply_selection(sel@, r),
            ).take(i + 1 as int));
        }
        i += 1;
    }
    proof {
        assert(out.deep_view() =~= rowsv.map_values(|r: Seq<Seq<u8>>| apply_selection(sel@, r)));
    }
    Ok(out)
}

/// The decimal digits of `n`.
pub open spec fn dec_digits(n: int) -> Seq<u8>
    decreases n,
{
    if n < 10 {
        seq![(48 + if n >= 0 {
            n
        } else {
            0
        }) as u8]
    } else {
        dec_digits(n / 10).push((48 + n % 10) as u8)
    }
}

/// Writes `n` in decimal.
pub fn dec_bytes(n: u64) -> (r: Vec<u8>)
    ensures
        r@ == dec_digits(n as int),
    decreases n,
{
    if n < 10 {
        let mut r: Vec<u8> = Vec::new();
        r.push(48 + (n as u8));
        proof {
            assert(r@ =~= dec_digits(n as int));
        }
        r
    } else {
        let mut r = dec_bytes(n / 10);
        r.push(48 + ((n % 10) as u8));
        proof {
            assert(r@ =~= dec_digits(n as int));
        }
        r
    }
}

/// A field cut to `limit` bytes, three dots marking the cut.
pub open spec fn condensed(f: Seq<u8>, limit: Option<int>) -> Seq<u8> {
    match limit {
        Option::None => f,
        Option::Some(n) => if f.len() <= n {
            f
        } else {
            f.take(n) + seq![46u8, 46u8, 46u8]
        },
    }
}

/// The flattened lines of one record: one `[label, value]` row per
/// field, the label the header name, or the column number without
/// headers.
pub open spec fn flat_record(
    row: Seq<Seq<u8>>,
    hdr: Seq<Seq<u8>>,
    headers: bool,
    limit: Option<int>,
) -> Seq<Seq<Seq<u8>>> {
    Seq::new(
        if row.len() < hdr.len() {
            row.len()
        } else {
            hdr.len()
        },
        |j: int|
            seq![
                if headers {
                    hdr[j]
                } else {
                    dec_digits(j)
                },
                condensed(row[j], limit),
            ],
    )
}

/// The flattened lines of the data records from `i` on, a separator
/// row between records when the separator is nonempty.
pub open spec fn flat_from(
    data: Seq<Seq<Seq<u8>>>,
    hdr: Seq<Seq<u8>>,
    headers: bool,
    limit: Option<int>,
    sep: Seq<u8>,
    i: int,
) -> Seq<Seq<Seq<u8>>>
    decreases data.len() - i,
{
    if i < 0 || i >= data.len() {
        seq![]
    } else {
        (if i > 0 && sep.len() > 0 {
            seq![seq![sep, Seq::<u8>::empty()]]
        } else {
            seq![]
        }) + flat_record(data[i], hdr, headers, limit) + flat_from(
            data,
            hdr,
            headers,
            limit,
            sep,
            i + 1,
        )
    }
}

/// What `flatten` returns over the whole input.
pub open spec fn flatten_spec(
    rows: Seq<Seq<Seq<u8>>>,
    headers: bool,
    limit: Option<int>,
    sep: Seq<u8>,
) -> Seq<Seq<Seq<u8>>> {
    flat_from(data_of(rows, headers), header_row(rows), headers, limit, sep, 0)
}

/// Flattens each record into one labeled line per field, records
/// separated by a separator line.
#[verifier::rlimit(100)]
pub fn flatten_rows(
    rows: &Vec<Vec<Vec<u8>>>,
    headers: bool,
    condense: Option<usize>,
    separator: &Vec<u8>,
) -> (out: Vec<Vec<Vec<u8>>>)
    ensures
        out.deep_view() == flatten_spec(
            rows.deep_view(),
            headers,
            match condense {
                Option::Some(c) => Option::Some(c as int),
                Option::None => Option::None,
            },
            separator@,
        ),
{
    let ghost rowsv = rows.deep_view();
    let ghost limit: Option<int> = match condense {
        Option::Some(c) => Option::Some(c as int),
        Option::None => Option::None,
    };
    let ghost hdr = header_row(rowsv);
    let hstart: usize = if headers && rows.len() > 0 {
        1
    } else {
        0
    };
    let ghost data = data_of(rowsv, headers);
    proof {
        assert(data =~= rowsv.skip(hstart as int));
    }
    let hwidth: usize = if rows.len() > 0 {
        rows[0].len()
    } else {
        0
    };
    proof {
        if rows@.len() > 0 {
            assert(rowsv[0] == rows@[0].deep_view());
            assert(hdr.len() == rows@[0]@.len());
        }
    }
    let mut out: Vec<Vec<Vec<u8>>> = Vec::new();
    let mut i: usize = hstart;
    while i < rows.len()
        invariant
            hstart <= i <= rows@.len(),
            hstart <= 1,
            rowsv == rows.deep_view(),
            rowsv.len() == rows@.len(),
            data =~= rowsv.skip(hstart as int),
            hdr == header_row(rowsv),
            hwidth as int == hdr.len(),
            limit == (match condense {
                Option::Some(c) => Option::Some(c as int),
                Option::None => Option::<int>::None,
            }),
            out.deep_view() + flat_from(data, hdr, headers, limit, separator@, i - hstart)
                =~= flat_from(data, hdr, headers, limit, separator@, 0),
        decreases rows@.len() - i,
    {
        let ghost di = i - hstart;
        if i > hstart && separator.len() > 0 {
            let mut sep_row: Vec<Vec<u8>> = Vec::new();
            sep_row.push(clone_field(separator));
            let empty: Vec<u8> = Vec::new();
            sep_row.push(empty);
            let ghost prev = out.deep_view();
            let ghost sv = sep_row.deep_view();
            out.push(sep_row);
            proof {
                assert(sv =~~= seq![separator@, Seq::<u8>::empty()]);
                assert(out.deep_view() =~~= prev.push(sv));
            }
        }
        let row = &rows[i];
        proof {
            assert(rowsv[i as int] == rows@[i as int].deep_view());
            assert(data[di] == rowsv[i as int]);
        }
        let width = if row.len() < hwidth {
            row.len()
        } else {
            hwidth
        };
        let ghost recs = flat_record(data[di], hdr, headers, limit);
        let ghost outmid = out.deep_view();
        let mut j: usize = 0;
        while j < width
            invariant
                0 <= j <= width,
                rowsv == rows.deep_view(),
                rowsv.len() == rows@.len(),
                hstart <= i < rows@.len(),
                di == i - hstart,
                data =~= rowsv.skip(hstart as int),
                hdr == header_row(rowsv),
                hwidth as int == hdr.len(),
                row == &rows@[i as int],
                data[di] == rowsv[i as int],
                rowsv[i as int].len() == row@.len(),
                width as int == if row@.len() < hwidth {
                    row@.len() as int
                } else {
                    hwidth as int
                },
                limit == (match condense {
                    Option::Some(c) => Option::Some(c as int),
                    Option::None => Option::<int>::None,
                }),
                recs == flat_record(data[di], hdr, headers, limit),
                recs.len() == width as int,
                out.deep_view() =~= outmid + recs.take(j as int),
            decreases width - j,
        {
            let mut line: Vec<Vec<u8>> = Vec::new();
            if headers {
                proof {
                    if rows@.len() > 0 {
                        assert(hdr[j as int] == rows@[0]@[j as int]@);
                        assert(rowsv[0] == rows@[0].deep_view());
                    }
                }
                line.push(clone_field(&rows[0][j]));
            } else {
                line.push(dec_bytes(j as u64));
            }
            let field = &row[j];
            proof {
                assert(data[di][j as int] == row@[j as int]@);
            }
            let cf = match condense {
                Option::Some(n) => {
                    if field.len() <= n {
                        clone_field(field)
                    } else {
                        let mut c = copy_range(field, 0, n);
                        c.push(46);
                        c.push(46);
                        c.push(46);
                        proof {
                            assert(c@ =~= condensed(row@[j as int]@, limit));
                        }
                        c
                    }
                },
                Option::None => clone_field(field),
            };
            line.push(cf);
            let ghost prev = out.deep_view();
            let ghost lv = line.deep_view();
            out.push(line);
            proof {
                assert(lv =~~= recs[j as int]);
                assert(out.deep_view() =~~= prev.push(lv));
                assert(out.deep_view() =~= outmid + recs.take(j + 1 as int));
            }
            j += 1;
        }
        proof {
            assert(recs.take(width as int) =~= recs);
            assert(flat_from(data, hdr, headers, limit, separator@, di) =~= (if di > 0
                && separator@.len() > 0 {
                seq![seq![separator@, Seq::<u8>::empty()]]
            } else {
                Seq::<Seq<Seq<u8>>>::empty()
            }) + recs + flat_from(data, hdr, headers, limit, separator@, di + 1));
            assert(out.deep_view() + flat_from(data, hdr, headers, limit, separator@, di + 1)
                =~= flat_from(data, hdr, headers, limit, separator@, 0));
        }
        i += 1;
    }
    proof {
        assert(flat_from(data, hdr, headers, limit, separator@, rows@.len() - hstart) =~= Seq::<
            Seq<Seq<u8>>,
        >::empty());
        assert(out.deep_view() =~= flat_from(data, hdr, headers, limit, separator@, 0));
    }
    out
}

} // verus!
