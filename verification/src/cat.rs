//! Concatenation of inputs: by row — the first input's header kept,
//! every input's data rows streamed in argument order — or by column,
//! rows zipped side by side, stopping at the shortest input unless
//! padding fills the difference with empty fields.
use vstd::prelude::*;
use crate::common::clone_row;
use crate::terasort::data_of;
use crate::multijoin::concat_rows;

verus! {

/// The data rows of all inputs from `t` on, in argument order.
pub open spec fn cat_data(inputs: Seq<Seq<Seq<Seq<u8>>>>, headers: bool, t: int) -> Seq<
    Seq<Seq<u8>>,
>
    decreases inputs.len() - t,
{
    if t < 0 || t >= inputs.len() {
        seq![]
    } else {
        data_of(inputs[t], headers) + cat_data(inputs, headers, t + 1)
    }
}

/// What `cat rows` returns: the first input's header when headers are
/// on, then every input's data rows in argument order.
pub open spec fn cat_rows_spec(inputs: Seq<Seq<Seq<Seq<u8>>>>, headers: bool) -> Seq<Seq<Seq<u8>>> {
    if headers && inputs.len() > 0 && inputs[0].len() > 0 {
        seq![inputs[0][0]] + cat_data(inputs, headers, 0)
    } else {
        cat_data(inputs, headers, 0)
    }
}

/// Every record of one input as wide as its first.
pub open spec fn input_uniform(t: Seq<Seq<Seq<u8>>>) -> bool {
    forall|i: int| 0 <= i < t.len() ==> (#[trigger] t[i]).len() == input_width(t)
}

/// Concatenates inputs by row. Each input must hold records of one
/// width, as the record reader enforces; the reader raises a CSV error
/// on a ragged input before the rows ever reach this step.
#[verifier::rlimit(100)]
pub fn cat_rows(inputs: &Vec<Vec<Vec<Vec<u8>>>>, headers: bool) -> (out: Vec<Vec<Vec<u8>>>)
    requires
        forall|t: int|
            0 <= t < inputs.deep_view().len() ==> input_uniform(#[trigger] inputs.deep_view()[t]),
    ensures
        out.deep_view() == cat_rows_spec(inputs.deep_view(), headers),
{
    let ghost inputsv = inputs.deep_view();
    let mut out: Vec<Vec<Vec<u8>>> = Vec::new();
    if headers && inputs.len() > 0 && inputs[0].len() > 0 {
        let hd = clone_row(&inputs[0][0]);
        let ghost hv = hd.deep_view();
        out.push(hd);
        proof {
            assert(inputsv[0][0] == inputs@[0]@[0].deep_view());
            assert(out.deep_view() =~~= Seq::<Seq<Seq<u8>>>::empty().push(inputsv[0][0]));
        }
    }
    let ghost base = out.deep_view();
    let mut t: usize = 0;
    while t < inputs.len()
        invariant
            0 <= t <= inputs@.len(),
            inputsv == inputs.deep_view(),
            inputsv.len() == inputs@.len(),
            out.deep_view() + cat_data(inputsv, headers, t as int) =~= base + cat_data(
                inputsv,
                headers,
                0,
            ),
        decreases inputs@.len() - t,
    {
        let start: usize = if headers && inputs[t].len() > 0 {
            1
        } else {
            0
        };
        let table = &inputs[t];
        let ghost datat = data_of(inputsv[t as int], headers);
        proof {
            assert(inputsv[t as int] == inputs@[t as int].deep_view());
            assert(datat =~= inputsv[t as int].skip(start as int));
        }
        let mut i: usize = start;
        while i < table.len()
            invariant
                start <= i <= table@.len(),
                table == &inputs@[t as int],
                inputsv == inputs.deep_view(),
                0 <= t < inputsv.len(),
                inputsv[t as int].len() == table@.len(),
                datat == data_of(inputsv[t as int], headers),
                datat =~= inputsv[t as int].skip(start as int),
                out.deep_view() + datat.skip(i - start) + cat_data(inputsv, headers, t + 1) =~= base
                    + cat_data(inputsv, headers, 0),
            decreases table@.len() - i,
        {
            let row = clone_row(&table[i]);
            let ghost prev = out.deep_view();
            let ghost rv = row.deep_view();
            out.push(row);
            proof {
                assert(out.deep_view() =~~= prev.push(rv));
                assert(inputsv[t as int][i as int] == table@[i as int].deep_view());
                assert(datat[i - start] == inputsv[t as int][i as int]);
                assert(prev.push(rv) + datat.skip(i + 1 - start) =~= prev + datat.skip(i - start));
                assert(out.deep_view() + datat.skip(i + 1 - start) + cat_data(
                    inputsv,
                    headers,
                    t + 1,
                ) =~= base + cat_data(inputsv, headers, 0));
            }
            i += 1;
        }
        proof {
            assert(datat.skip(datat.len() as int) =~= Seq::<Seq<Seq<u8>>>::empty());
            assert(cat_data(inputsv, headers, t as int) =~= datat + cat_data(
                inputsv,
                headers,
                t + 1,
            ));
            assert(out.deep_view() + cat_data(inputsv, headers, t + 1) =~= base + cat_data(
                inputsv,
                headers,
                0,
            ));
        }
        t += 1;
    }
    proof {
        assert(cat_data(inputsv, headers, inputs@.len() as int) =~= Seq::<Seq<Seq<u8>>>::empty());
        assert(out.deep_view() =~= base + cat_data(inputsv, headers, 0));
        assert(out.deep_view() =~= cat_rows_spec(inputsv, headers));
    }
    out
}

/// The width of one input: the width of its first row.
pub open spec fn input_width(table: Seq<Seq<Seq<u8>>>) -> int {
    if table.len() > 0 {
        table[0].len() as int
    } else {
        0
    }
}

/// A run of `n` empty fields.
pub open spec fn empty_fields(n: int) -> Seq<Seq<u8>> {
    Seq::new(if n >= 0 {
        n as nat
    } else {
        0
    }, |i: int| Seq::<u8>::empty())
}

/// One output row of `cat columns`: the fields of row `r` of every
/// input from `t` on, an exhausted input contributing empty fields.
pub open spec fn col_row(inputs: Seq<Seq<Seq<Seq<u8>>>>, r: int, t: int) -> Seq<Seq<u8>>
    decreases inputs.len() - t,
{
    if t < 0 || t >= inputs.len() {
        seq![]
    } else {
        (if r < inputs[t].len() {
            inputs[t][r]
        } else {
            empty_fields(input_width(inputs[t]))
        }) + col_row(inputs, r, t + 1)
    }
}

/// The row count folds of `cat columns`.
pub open spec fn max_rows_from(inputs: Seq<Seq<Seq<Seq<u8>>>>, t: int, acc: int) -> int
    decreases inputs.len() - t,
{
    if t < 0 || t >= inputs.len() {
        acc
    } else {
        max_rows_from(inputs, t + 1, if inputs[t].len() > acc {
            inputs[t].len() as int
        } else {
            acc
        })
    }
}

pub open spec fn min_rows_from(inputs: Seq<Seq<Seq<Seq<u8>>>>, t: int, acc: int) -> int
    decreases inputs.len() - t,
{
    if t < 0 || t >= inputs.len() {
        acc
    } else {
        min_rows_from(inputs, t + 1, if inputs[t].len() < acc {
            inputs[t].len() as int
        } else {
            acc
        })
    }
}

/// How many rows `cat columns` writes: up to the longest input when
/// padding, else up to the shortest.
pub open spec fn cat_columns_len(inputs: Seq<Seq<Seq<Seq<u8>>>>, pad: bool) -> int {
    if inputs.len() == 0 {
        0
    } else if pad {
        max_rows_from(inputs, 0, 0)
    } else {
        min_rows_from(inputs, 0, inputs[0].len() as int)
    }
}

/// What `cat columns` returns: the inputs zipped row by row.
pub open spec fn cat_columns_spec(inputs: Seq<Seq<Seq<Seq<u8>>>>, pad: bool) -> Seq<Seq<Seq<u8>>> {
    Seq::new(
        if cat_columns_len(inputs, pad) >= 0 {
            cat_columns_len(inputs, pad) as nat
        } else {
            0
        },
        |r: int| col_row(inputs, r, 0),
    )
}

/// Concatenates inputs by column: row `r` of the output holds row `r`
/// of every input side by side; with `pad`, an input that ran out
/// contributes one empty field per column, else the zip stops at the
/// shortest input.
pub fn cat_columns(inputs: &Vec<Vec<Vec<Vec<u8>>>>, pad: bool) -> (out: Vec<Vec<Vec<u8>>>)
    ensures
        out.deep_view() == cat_columns_spec(inputs.deep_view(), pad),
{
    let ghost inputsv = inputs.deep_view();
    let mut out: Vec<Vec<Vec<u8>>> = Vec::new();
    if inputs.len() == 0 {
        proof {
            assert(out.deep_view() =~= cat_columns_spec(inputsv, pad));
        }
        return out;
    }
    // The number of output rows.
    let mut nrows: usize = if pad {
        0
    } else {
        inputs[0].len()
    };
    let mut t: usize = 0;
    proof {
        assert(inputsv[0].len() == inputs@[0]@.len());
    }
    while t < inputs.len()
        invariant
            0 <= t <= inputs@.len(),
            inputsv == inputs.deep_view(),
            inputsv.len() == inputs@.len(),
            inputs@.len() > 0,
            pad ==> max_rows_from(inputsv, 0, 0) == max_rows_from(inputsv, t as int, nrows as int),
            !pad ==> min_rows_from(inputsv, 0, inputsv[0].len() as int) == min_rows_from(
                inputsv,
                t as int,
                nrows as int,
            ),
        decreases inputs@.len() - t,
    {
        proof {
            assert(inputsv[t as int].len() == inputs@[t as int]@.len());
        }
        let l = inputs[t].len();
        if pad {
            if l > nrows {
                nrows = l;
            }
        } else {
            if l < nrows {
                nrows = l;
            }
        }
        t += 1;
    }
    proof {
        assert(nrows as int == cat_columns_len(inputsv, pad));
    }
    let mut r: usize = 0;
    while r < nrows
        invariant
            0 <= r <= nrows,
            inputsv == inputs.deep_view(),
            inputsv.len() == inputs@.len(),
            nrows as int == cat_columns_len(inputsv, pad),
            out.deep_view().len() == r as int,
            forall|q: int| 0 <= q < r ==> #[trigger] out.deep_view()[q] == col_row(inputsv, q, 0),
        decreases nrows - r,
    {
        let mut row: Vec<Vec<u8>> = Vec::new();
        let mut t2: usize = 0;
        while t2 < inputs.len()
            invariant
                0 <= t2 <= inputs@.len(),
                inputsv == inputs.deep_view(),
                inputsv.len() == inputs@.len(),
                row.deep_view() + col_row(inputsv, r as int, t2 as int) =~= col_row(
                    inputsv,
                    r as int,
                    0,
                ),
            decreases inputs@.len() - t2,
        {
            proof {
                assert(inputsv[t2 as int] == inputs@[t2 as int].deep_view());
                assert(inputsv[t2 as int].len() == inputs@[t2 as int]@.len());
            }
            let table = &inputs[t2];
            if r < table.len() {
                let piece = clone_row(&table[r]);
                let merged = concat_rows(&row, &piece);
                let ghost prevd = row.deep_view();
                row = merged;
                proof {
                    assert(inputsv[t2 as int][r as int] == table@[r as int].deep_view());
                    assert(row.deep_view() =~= prevd + inputsv[t2 as int][r as int]);
                    assert(col_row(inputsv, r as int, t2 as int) =~= inputsv[t2 as int][r as int]
                        + col_row(inputsv, r as int, t2 + 1));
                    assert(row.deep_view() + col_row(inputsv, r as int, t2 + 1) =~= col_row(
                        inputsv,
                        r as int,
                        0,
                    ));
                }
            } else {
                let w = if table.len() > 0 {
                    table[0].len()
                } else {
                    0
                };
                proof {
                    assert(w as int == input_width(inputsv[t2 as int])) by {
                        if table@.len() > 0 {
                            assert(inputsv[t2 as int][0] == table@[0].deep_view());
                            assert(table@[0].deep_view().len() == table@[0]@.len());
                        }
                    }
                }
                let ghost prevd = row.deep_view();
                let mut z: usize = 0;
                while z < w
                    invariant
                        0 <= z <= w,
                        row.deep_view() =~= prevd + empty_fields(z as int),
                    decreases w - z,
                {
                    let f: Vec<u8> = Vec::new();
                    let ghost prevr = row.deep_view();
                    row.push(f);
                    proof {
                        assert(row.deep_view() =~~= prevr.push(Seq::<u8>::empty()));
                        assert(row.deep_view() =~= prevd + empty_fields(z + 1));
                    }
                    z += 1;
                }
                proof {
                    assert(col_row(inputsv, r as int, t2 as int) =~= empty_fields(
                        input_width(inputsv[t2 as int]),
                    ) + col_row(inputsv, r as int, t2 + 1));
                    assert(row.deep_view() + col_row(inputsv, r as int, t2 + 1) =~= col_row(
                        inputsv,
                        r as int,
                        0,
                    ));
                }
            }
            t2 += 1;
        }
        proof {
            assert(col_row(inputsv, r as int, inputs@.len() as int) =~= Seq::<Seq<u8>>::empty());
            assert(row.deep_view() =~= col_row(inputsv, r as int, 0));
        }
        let ghost prev = out.deep_view();
        let ghost rv = row.deep_view();
        out.push(row);
        proof {
            assert(out.deep_view() =~~= prev.push(rv));
        }
        r += 1;
    }
    proof {
        assert(out.deep_view() =~= cat_columns_spec(inputsv, pad));
    }
    out
}

} // verus!
