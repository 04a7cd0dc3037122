//! The sorted-stream multi-way inner join: the first input is walked
//! once — its keys checked against the declared order — and for each of
//! its rows the matching rows of every further input are joined on,
//! input by input, the output row being the concatenation of one row
//! from each input.
use vstd::prelude::*;
use crate::common::{row_key_spec, get_row_key, clone_row, cmp_key, keys_cmp};
use crate::select::{Selection, selection, selection_spec, SelectError};
use crate::sort::{KeyV, kv, keyv_lt};
use crate::terasort::key_has_null;

verus! {

/// Why a join failed.
#[derive(Clone, Copy, Debug, PartialEq, Eq)]
pub enum JoinError {
    /// Neither or both of the order flags were given.
    BadOrderFlags,
    /// A selection expression failed to compile.
    Select(SelectError),
    /// The column selections do not all name the same number of columns.
    SelectionMismatch,
    /// A key of the first input out of the declared order.
    OrderingViolation,
}

/// The join key of one row under the comparison mode.
pub open spec fn jkey(row: Seq<Seq<u8>>, sel: Seq<int>, casei: bool, numeric: bool) -> KeyV {
    kv(row_key_spec(sel, row, casei), numeric)
}

/// The joined rows grown from `acc` by matching rows of the inputs
/// from `k` on, the scan of input `k` standing at row `i`: every way
/// of extending `acc` with one key-matching row from each remaining
/// input, in input order — under `unique`, only the first key-matching
/// row of each remaining input is taken.
pub open spec fn join_level(
    acc: Seq<Seq<u8>>,
    key: KeyV,
    tables: Seq<Seq<Seq<Seq<u8>>>>,
    sels: Seq<Seq<int>>,
    casei: bool,
    numeric: bool,
    unique: bool,
    k: int,
    i: int,
) -> Seq<Seq<Seq<u8>>>
    decreases tables.len() - k, if 0 <= k < tables.len() {
        tables[k].len() - i
    } else {
        0
    },
{
    if k < 0 || k >= tables.len() {
        seq![acc]
    } else if i < 0 || i >= tables[k].len() {
        seq![]
    } else {
        let r2 = tables[k][i];
        if jkey(r2, sels[k], casei, numeric) == key {
            if unique {
                join_level(acc + r2, key, tables, sels, casei, numeric, unique, k + 1, 0)
            } else {
                join_level(acc + r2, key, tables, sels, casei, numeric, unique, k + 1, 0)
                    + join_level(acc, key, tables, sels, casei, numeric, unique, k, i + 1)
            }
        } else {
            join_level(acc, key, tables, sels, casei, numeric, unique, k, i + 1)
        }
    }
}

/// Whether `cur` breaks the declared order after `prev`.
pub open spec fn order_violated(
    prev: Seq<Seq<u8>>,
    cur: Seq<Seq<u8>>,
    numeric: bool,
    ascended: bool,
) -> bool {
    if ascended {
        keyv_lt(kv(cur, numeric), kv(prev, numeric))
    } else {
        keyv_lt(kv(prev, numeric), kv(cur, numeric))
    }
}

/// The walk of the first input from row `i` with `tmp` the key of the
/// last row taken: empty keys are skipped under the null policy, a
/// repeated key is skipped under `--unique`, a key out of order stops
/// the join, and each taken row contributes its joined rows.
pub open spec fn mj_scan(
    tables: Seq<Seq<Seq<Seq<u8>>>>,
    sels: Seq<Seq<int>>,
    casei: bool,
    numeric: bool,
    nulls: bool,
    unique: bool,
    ascended: bool,
    i: int,
    tmp: Option<Seq<Seq<u8>>>,
) -> Result<Seq<Seq<Seq<u8>>>, JoinError>
    decreases tables[0].len() - i,
{
    let t0 = tables[0];
    if i < 0 || i >= t0.len() || tables.len() == 0 {
        Result::Ok(seq![])
    } else {
        let kb = row_key_spec(sels[0], t0[i], casei);
        if !nulls && key_has_null(t0[i], sels[0], casei) {
            mj_scan(tables, sels, casei, numeric, nulls, unique, ascended, i + 1, tmp)
        } else if unique && tmp == Option::Some(kb) {
            mj_scan(tables, sels, casei, numeric, nulls, unique, ascended, i + 1, tmp)
        } else if tmp is Some && order_violated(tmp->0, kb, numeric, ascended) {
            Result::Err(JoinError::OrderingViolation)
        } else {
            match mj_scan(
                tables,
                sels,
                casei,
                numeric,
                nulls,
                unique,
                ascended,
                i + 1,
                Option::Some(kb),
            ) {
                Result::Ok(rest) => Result::Ok(
                    join_level(t0[i], kv(kb, numeric), tables, sels, casei, numeric, unique, 1, 0)
                        + rest,
                ),
                Result::Err(e) => Result::Err(e),
            }
        }
    }
}

/// What the multi-way join returns over the data rows of its inputs.
pub open spec fn multijoin_data_spec(
    tables: Seq<Seq<Seq<Seq<u8>>>>,
    sels: Seq<Seq<int>>,
    casei: bool,
    numeric: bool,
    nulls: bool,
    unique: bool,
    ascended: bool,
) -> Result<Seq<Seq<Seq<u8>>>, JoinError> {
    mj_scan(tables, sels, casei, numeric, nulls, unique, ascended, 0, Option::None)
}

/// Concatenates the fields of two rows.
pub fn concat_rows(a: &Vec<Vec<u8>>, b: &Vec<Vec<u8>>) -> (r: Vec<Vec<u8>>)
    ensures
        r.deep_view() == a.deep_view() + b.deep_view(),
{
    let mut r = clone_row(a);
    let mut j: usize = 0;
    while j < b.len()
        invariant
            0 <= j <= b@.len(),
            b.deep_view().len() == b@.len(),
            r.deep_view() =~= a.deep_view() + b.deep_view().take(j as int),
        decreases b@.len() - j,
    {
        let f = crate::common::clone_field(&b[j]);
        let ghost prev = r.deep_view();
        let ghost fv = f@;
        r.push(f);
        proof {
            assert(r.deep_view() =~~= prev.push(fv));
            assert(b.deep_view()[j as int] == b@[j as int]@);
            assert(r.deep_view() =~= a.deep_view() + b.deep_view().take(j + 1 as int));
        }
        j += 1;
    }
    proof {
        assert(b.deep_view().take(b@.len() as int) =~= b.deep_view());
    }
    r
}

/// Selections are valid for every row of every input.
pub open spec fn sels_fit(tables: Seq<Seq<Seq<Seq<u8>>>>, sels: Seq<Seq<int>>) -> bool {
    forall|t: int, i: int|
        0 <= t < tables.len() && 0 <= i < tables[t].len()
            ==> crate::select::positions_in_width(
            sels[t],
            (#[trigger] tables[t][i]).len() as int,
        )
}

/// Joins `acc` against the inputs from `k` on, appending every joined
/// row to the output in input order; under `unique` only the first
/// key-equal row of each input is joined on.
#[verifier::rlimit(100)]
fn inner_join_operator(
    tables: &Vec<Vec<Vec<Vec<u8>>>>,
    sels: &Vec<Selection>,
    key: &Vec<Vec<u8>>,
    acc: &Vec<Vec<u8>>,
    k: usize,
    casei: bool,
    numeric: bool,
    unique: bool,
    out: &mut Vec<Vec<Vec<u8>>>,
)
    requires
        sels@.len() == tables@.len(),
        1 <= k <= tables@.len(),
        sels_fit(tables.deep_view(), sels@.map_values(|s: Selection| s@)),
    ensures
        final(out).deep_view() == old(out).deep_view() + join_level(
            acc.deep_view(),
            kv(key.deep_view(), numeric),
            tables.deep_view(),
            sels@.map_values(|s: Selection| s@),
            casei,
            numeric,
            unique,
            k as int,
            0,
        ),
    decreases tables@.len() - k,
{
    let ghost tablesv = tables.deep_view();
    let ghost selsv = sels@.map_values(|s: Selection| s@);
    let ghost keyv = kv(key.deep_view(), numeric);
    let ghost accv = acc.deep_view();
    let ghost base = out.deep_view();
    if k == tables.len() {
        let row = clone_row(acc);
        let ghost prev = out.deep_view();
        out.push(row);
        proof {
            assert(out.deep_view() =~~= prev.push(accv));
            assert(out.deep_view() =~= base + join_level(
                accv,
                keyv,
                tablesv,
                selsv,
                casei,
                numeric,
                unique,
                k as int,
                0,
            ));
        }
        return ;
    }
    let table = &tables[k];
    let tn = tables.len();
    let mut i: usize = 0;
    while i < table.len()
        invariant
            sels@.len() == tables@.len(),
            tn == tables@.len(),
            1 <= k < tn,
            sels_fit(tables.deep_view(), sels@.map_values(|s: Selection| s@)),
            tablesv == tables.deep_view(),
            selsv == sels@.map_values(|s: Selection| s@),
            keyv == kv(key.deep_view(), numeric),
            accv == acc.deep_view(),
            table == &tables[k as int],
            0 <= i <= table@.len(),
            tablesv[k as int].len() == table@.len(),
            base == old(out).deep_view(),
            join_level(accv, keyv, tablesv, selsv, casei, numeric, unique, k as int, 0) =~= (
            out.deep_view().skip(base.len() as int)) + join_level(
                accv,
                keyv,
                tablesv,
                selsv,
                casei,
                numeric,
                unique,
                k as int,
                i as int,
            ),
            out.deep_view().len() >= base.len(),
            forall|t: int| 0 <= t < base.len() ==> #[trigger] out.deep_view()[t] == base[t],
        decreases table@.len() - i,
    {
        proof {
            assert(tablesv[k as int][i as int] == table@[i as int].deep_view());
            assert(selsv[k as int] == sels@[k as int]@);
            assert(table@[i as int].deep_view().len() == table@[i as int]@.len());
        }
        let key2 = get_row_key(&sels[k], &table[i], casei);
        proof {
            crate::num::lemma_numkey_is_numval(key2.deep_view(), key.deep_view());
        }
        let is_match = match cmp_key(&key2, key, numeric) {
            core::cmp::Ordering::Equal => true,
            _ => false,
        };
        proof {
            assert(is_match == (jkey(tablesv[k as int][i as int], selsv[k as int], casei, numeric)
                == keyv));
        }
        if is_match {
            let acc2 = concat_rows(acc, &table[i]);
            let ghost mid = out.deep_view();
            inner_join_operator(tables, sels, key, &acc2, k + 1, casei, numeric, unique, out);
            proof {
                assert(acc2.deep_view() == accv + tablesv[k as int][i as int]);
                assert(out.deep_view().skip(base.len() as int) =~= mid.skip(base.len() as int)
                    + join_level(
                    accv + tablesv[k as int][i as int],
                    keyv,
                    tablesv,
                    selsv,
                    casei,
                    numeric,
                    unique,
                    k + 1,
                    0,
                ));
            }
            if unique {
                // The first key-equal row settles this input.
                proof {
                    let deeper = join_level(
                        accv + tablesv[k as int][i as int],
                        keyv,
                        tablesv,
                        selsv,
                        casei,
                        numeric,
                        unique,
                        k + 1,
                        0,
                    );
                    assert(join_level(
                        accv,
                        keyv,
                        tablesv,
                        selsv,
                        casei,
                        numeric,
                        unique,
                        k as int,
                        i as int,
                    ) =~= deeper);
                    assert(out.deep_view() =~= mid + deeper);
                    assert(mid =~= base + mid.skip(base.len() as int));
                    assert(out.deep_view() =~= base + (mid.skip(base.len() as int) + deeper));
                    assert(join_level(accv, keyv, tablesv, selsv, casei, numeric, unique, k as int, 0)
                        =~= mid.skip(base.len() as int) + deeper);
                    assert(out.deep_view() =~= base + join_level(
                        accv,
                        keyv,
                        tablesv,
                        selsv,
                        casei,
                        numeric,
                        unique,
                        k as int,
                        0,
                    ));
                }
                return ;
            }
            proof {
                assert(join_level(
                    accv,
                    keyv,
                    tablesv,
                    selsv,
                    casei,
                    numeric,
                    unique,
                    k as int,
                    i as int,
                ) =~= join_level(
                    accv + tablesv[k as int][i as int],
                    keyv,
                    tablesv,
                    selsv,
                    casei,
                    numeric,
                    unique,
                    k + 1,
                    0,
                ) + join_level(accv, keyv, tablesv, selsv, casei, numeric, unique, k as int, i + 1));
            }
        } else {
            proof {
                assert(join_level(
                    accv,
                    keyv,
                    tablesv,
                    selsv,
                    casei,
                    numeric,
                    unique,
                    k as int,
                    i as int,
                ) =~= join_level(accv, keyv, tablesv, selsv, casei, numeric, unique, k as int, i + 1));
            }
        }
        i += 1;
    }
    proof {
        assert(join_level(
            accv,
            keyv,
            tablesv,
            selsv,
            casei,
            numeric,
            unique,
            k as int,
            table@.len() as int,
        ) =~= Seq::<Seq<Seq<u8>>>::empty());
        assert(out.deep_view() =~= base + join_level(
            accv,
            keyv,
            tablesv,
            selsv,
            casei,
            numeric,
            unique,
            k as int,
            0,
        ));
    }
}

/// Walks the first input once, joining each row it takes against every
/// further input; fails on the first key out of the declared order.
pub fn inner_join(
    tables: &Vec<Vec<Vec<Vec<u8>>>>,
    sels: &Vec<Selection>,
    casei: bool,
    numeric: bool,
    nulls: bool,
    unique: bool,
    ascended: bool,
) -> (r: Result<Vec<Vec<Vec<u8>>>, JoinError>)
    requires
        sels@.len() == tables@.len(),
        tables@.len() >= 1,
        sels_fit(tables.deep_view(), sels@.map_values(|s: Selection| s@)),
    ensures
        ({
            let spec_r = multijoin_data_spec(
                tables.deep_view(),
                sels@.map_values(|s: Selection| s@),
                casei,
                numeric,
                nulls,
                unique,
                ascended,
            );
            match r {
                Result::Ok(out) => spec_r == Result::<Seq<Seq<Seq<u8>>>, JoinError>::Ok(
                    out.deep_view(),
                ),
                Result::Err(e) => spec_r == Result::<Seq<Seq<Seq<u8>>>, JoinError>::Err(e),
            }
        }),
{
    let ghost tablesv = tables.deep_view();
    let ghost selsv = sels@.map_values(|s: Selection| s@);
    let mut out: Vec<Vec<Vec<u8>>> = Vec::new();
    let mut tmp: Option<Vec<Vec<u8>>> = None;
    let mut i: usize = 0;
    let t0len = tables[0].len();
    proof {
        assert(tablesv[0].len() == t0len as int);
        assert(out.deep_view() =~= Seq::<Seq<Seq<u8>>>::empty());
    }
    while i < t0len
        invariant
            sels@.len() == tables@.len(),
            tables@.len() >= 1,
            sels_fit(tables.deep_view(), sels@.map_values(|s: Selection| s@)),
            tablesv == tables.deep_view(),
            selsv == sels@.map_values(|s: Selection| s@),
            0 <= i <= t0len,
            tablesv[0].len() == t0len as int,
            ({
                let tmpv = match tmp {
                    Option::Some(ref t) => Option::Some(t.deep_view()),
                    Option::None => Option::<Seq<Seq<u8>>>::None,
                };
                mj_scan(tablesv, selsv, casei, numeric, nulls, unique, ascended, 0, Option::None)
                    == (match mj_scan(
                    tablesv,
                    selsv,
                    casei,
                    numeric,
                    nulls,
                    unique,
                    ascended,
                    i as int,
                    tmpv,
                ) {
                    Result::<Seq<Seq<Seq<u8>>>, JoinError>::Ok(rest) => Result::<
                        Seq<Seq<Seq<u8>>>,
                        JoinError,
                    >::Ok(out.deep_view() + rest),
                    Result::<Seq<Seq<Seq<u8>>>, JoinError>::Err(e) => Result::<
                        Seq<Seq<Seq<u8>>>,
                        JoinError,
                    >::Err(e),
                })
            }),
        decreases t0len - i,
    {
        let ghost tmpv = match tmp {
            Option::Some(ref t) => Option::Some(t.deep_view()),
            Option::None => Option::<Seq<Seq<u8>>>::None,
        };
        proof {
            assert(tablesv[0][i as int] == tables@[0]@[i as int].deep_view());
            assert(selsv[0] == sels@[0]@);
            assert(tables@[0]@[i as int].deep_view().len() == tables@[0]@[i as int]@.len());
        }
        let row = &tables[0][i];
        let key = get_row_key(&sels[0], row, casei);
        proof {
            assert(key.deep_view() == row_key_spec(selsv[0], tablesv[0][i as int], casei));
        }
        let hn = crate::terasort::has_null_key(&key);
        proof {
            assert(hn == key_has_null(tablesv[0][i as int], selsv[0], casei)) by {
                assert(key.deep_view().len() == selsv[0].len());
            }
        }
        if !nulls && hn {
            proof {
                assert(mj_scan(
                    tablesv,
                    selsv,
                    casei,
                    numeric,
                    nulls,
                    unique,
                    ascended,
                    i as int,
                    tmpv,
                ) == mj_scan(
                    tablesv,
                    selsv,
                    casei,
                    numeric,
                    nulls,
                    unique,
                    ascended,
                    i + 1,
                    tmpv,
                ));
            }
            i += 1;
            continue ;
        }
        let is_dup = match tmp {
            Option::Some(ref t) => {
                let eq = match keys_cmp(t, &key) {
                    core::cmp::Ordering::Equal => true,
                    _ => false,
                };
                eq
            },
            Option::None => false,
        };
        proof {
            assert(is_dup == (tmpv == Option::Some(key.deep_view())));
        }
        if unique && is_dup {
            proof {
                assert(mj_scan(
                    tablesv,
                    selsv,
                    casei,
                    numeric,
                    nulls,
                    unique,
                    ascended,
                    i as int,
                    tmpv,
                ) == mj_scan(
                    tablesv,
                    selsv,
                    casei,
                    numeric,
                    nulls,
                    unique,
                    ascended,
                    i + 1,
                    tmpv,
                ));
            }
            i += 1;
            continue ;
        }
        let violated = match tmp {
            Option::Some(ref t) => {
                proof {
                    crate::num::lemma_numkey_is_numval(t.deep_view(), key.deep_view());
                    crate::num::lemma_numkey_is_numval(key.deep_view(), t.deep_view());
                }
                match cmp_key(t, &key, numeric) {
                    core::cmp::Ordering::Greater => ascended,
                    core::cmp::Ordering::Less => !ascended,
                    core::cmp::Ordering::Equal => false,
                }
            },
            Option::None => false,
        };
        proof {
            assert(violated == (tmpv is Some && order_violated(
                tmpv->0,
                key.deep_view(),
                numeric,
                ascended,
            )));
        }
        if violated {
            return Err(JoinError::OrderingViolation);
        }
        let ghost outbase = out.deep_view();
        inner_join_operator(tables, sels, &key, row, 1, casei, numeric, unique, &mut out);
        proof {
            let kbv = key.deep_view();
            let jl = join_level(
                tablesv[0][i as int],
                kv(kbv, numeric),
                tablesv,
                selsv,
                casei,
                numeric,
                unique,
                1,
                0,
            );
            assert(out.deep_view() == outbase + jl);
            let spec_rest = mj_scan(
                tablesv,
                selsv,
                casei,
                numeric,
                nulls,
                unique,
                ascended,
                i + 1,
                Option::Some(kbv),
            );
            if spec_rest is Ok {
                assert((outbase + jl) + spec_rest->Ok_0 =~= outbase + (jl + spec_rest->Ok_0));
            }
        }
        tmp = Some(key);
        i += 1;
    }
    proof {
        let tmpv = match tmp {
            Option::Some(ref t) => Option::Some(t.deep_view()),
            Option::None => Option::<Seq<Seq<u8>>>::None,
        };
        assert(mj_scan(tablesv, selsv, casei, numeric, nulls, unique, ascended, i as int, tmpv)
            == Result::<Seq<Seq<Seq<u8>>>, JoinError>::Ok(Seq::<Seq<Seq<u8>>>::empty()));
        assert(out.deep_view() + Seq::<Seq<Seq<u8>>>::empty() =~= out.deep_view());
    }
    Ok(out)
}

/// The header row of one input: its first row, or nothing.
pub open spec fn header_row(table: Seq<Seq<Seq<u8>>>) -> Seq<Seq<u8>> {
    if table.len() > 0 {
        table[0]
    } else {
        seq![]
    }
}

/// The selections of all inputs, each compiled against its own header,
/// stopping at the first failure.
pub open spec fn compile_sels(
    tables: Seq<Seq<Seq<Seq<u8>>>>,
    exprs: Seq<Seq<u8>>,
    headers: bool,
    t: int,
) -> Result<Seq<Seq<int>>, JoinError>
    decreases tables.len() - t,
{
    if t < 0 || t >= tables.len() {
        Result::Ok(seq![])
    } else {
        match selection_spec(exprs[t], header_row(tables[t]), headers) {
            Result::Err(e) => Result::Err(JoinError::Select(e)),
            Result::Ok(s) => match compile_sels(tables, exprs, headers, t + 1) {
                Result::Ok(rest) => Result::Ok(seq![s] + rest),
                Result::Err(e) => Result::Err(e),
            },
        }
    }
}

/// The output header: the headers of all inputs, side by side.
pub open spec fn concat_headers(tables: Seq<Seq<Seq<Seq<u8>>>>, t: int) -> Seq<Seq<u8>>
    decreases tables.len() - t,
{
    if t < 0 || t >= tables.len() {
        seq![]
    } else {
        header_row(tables[t]) + concat_headers(tables, t + 1)
    }
}

/// All selections name equally many columns.
pub open spec fn sels_same_len(sels: Seq<Seq<int>>) -> bool {
    forall|t: int| 0 <= t < sels.len() ==> (#[trigger] sels[t]).len() == sels[0].len()
}

/// What the whole command returns: with exactly one order flag, each
/// input's selection compiled, all of one width, the inputs joined
/// over their data rows, and the concatenated header put first when
/// headers are on.
pub open spec fn multijoin_spec(
    tables: Seq<Seq<Seq<Seq<u8>>>>,
    exprs: Seq<Seq<u8>>,
    headers: bool,
    casei: bool,
    nulls: bool,
    unique: bool,
    ascended: bool,
    descended: bool,
    numeric: bool,
) -> Result<Seq<Seq<Seq<u8>>>, JoinError> {
    if (ascended && descended) || (!ascended && !descended) {
        Result::Err(JoinError::BadOrderFlags)
    } else {
        match compile_sels(tables, exprs, headers, 0) {
            Result::Err(e) => Result::Err(e),
            Result::Ok(sels) => {
                if !sels_same_len(sels) {
                    Result::Err(JoinError::SelectionMismatch)
                } else {
                    let data = tables.map_values(
                        |tb: Seq<Seq<Seq<u8>>>| crate::terasort::data_of(tb, headers),
                    );
                    match multijoin_data_spec(
                        data,
                        sels,
                        casei,
                        numeric,
                        nulls,
                        unique,
                        ascended,
                    ) {
                        Result::Err(e) => Result::Err(e),
                        Result::Ok(rows) => Result::Ok(
                            if headers {
                                seq![concat_headers(tables, 0)] + rows
                            } else {
                                rows
                            },
                        ),
                    }
                }
            },
        }
    }
}

/// Copies the rows of one input from `start` on.
pub fn clone_rows_from(table: &Vec<Vec<Vec<u8>>>, start: usize) -> (r: Vec<Vec<Vec<u8>>>)
    requires
        start <= table@.len(),
    ensures
        r.deep_view() == table.deep_view().skip(start as int),
{
    let mut out: Vec<Vec<Vec<u8>>> = Vec::new();
    let mut i: usize = start;
    while i < table.len()
        invariant
            start <= i <= table@.len(),
            table.deep_view().len() == table@.len(),
            out.deep_view() =~= table.deep_view().subrange(start as int, i as int),
        decreases table@.len() - i,
    {
        let row = clone_row(&table[i]);
        let ghost prev = out.deep_view();
        let ghost rv = row.deep_view();
        out.push(row);
        proof {
            assert(out.deep_view() =~~= prev.push(rv));
            assert(table.deep_view()[i as int] == table@[i as int].deep_view());
            assert(out.deep_view() =~= table.deep_view().subrange(start as int, i + 1 as int));
        }
        i += 1;
    }
    proof {
        assert(table.deep_view().subrange(start as int, table@.len() as int)
            =~= table.deep_view().skip(start as int));
    }
    out
}

/// Every row of every input has the width of its input's header row.
pub open spec fn uniform_width(tables: Seq<Seq<Seq<Seq<u8>>>>) -> bool {
    forall|t: int, i: int|
        0 <= t < tables.len() && 0 <= i < tables[t].len() ==> (#[trigger] tables[t][i]).len()
            == header_row(tables[t]).len()
}

/// Joins two or more inputs on their selected columns, the first
/// walked in its declared order, the others matched by key; the output
/// row for every match is the rows of all inputs side by side, under
/// the concatenated header when headers are on.
pub fn multijoin(
    tables: &Vec<Vec<Vec<Vec<u8>>>>,
    exprs: &Vec<Vec<u8>>,
    headers: bool,
    casei: bool,
    nulls: bool,
    unique: bool,
    ascended: bool,
    descended: bool,
    numeric: bool,
) -> (r: Result<Vec<Vec<Vec<u8>>>, JoinError>)
    requires
        tables@.len() >= 1,
        exprs@.len() == tables@.len(),
        uniform_width(tables.deep_view()),
    ensures
        ({
            let spec_r = multijoin_spec(
                tables.deep_view(),
                exprs.deep_view(),
                headers,
                casei,
                nulls,
                unique,
                ascended,
                descended,
                numeric,
            );
            match r {
                Result::Ok(out) => spec_r == Result::<Seq<Seq<Seq<u8>>>, JoinError>::Ok(
                    out.deep_view(),
                ),
                Result::Err(e) => spec_r == Result::<Seq<Seq<Seq<u8>>>, JoinError>::Err(e),
            }
        }),
{
    let ghost tablesv = tables.deep_view();
    let ghost exprsv = exprs.deep_view();
    if (ascended && descended) || (!ascended && !descended) {
        return Err(JoinError::BadOrderFlags);
    }
    // Compile each input's selection against its own header.
    let mut sels: Vec<Selection> = Vec::new();
    let tn = tables.len();
    let mut t: usize = 0;
    proof {
        assert(tablesv.skip(0) =~= tablesv);
        let whole = compile_sels(tablesv, exprsv, headers, 0);
        if whole is Ok {
            assert(sels@.map_values(|s: Selection| s@) + whole->Ok_0 =~= whole->Ok_0);
        }
    }
    while t < tn
        invariant
            0 <= t <= tn,
            tn == tables@.len(),
            tables@.len() >= 1,
            exprs@.len() == tables@.len(),
            tablesv == tables.deep_view(),
            exprsv == exprs.deep_view(),
            uniform_width(tablesv),
            ascended != descended,
            sels@.len() == t,
            compile_sels(tablesv, exprsv, headers, 0) == (match compile_sels(
                tablesv,
                exprsv,
                headers,
                t as int,
            ) {
                Result::<Seq<Seq<int>>, JoinError>::Ok(rest) => Result::<
                    Seq<Seq<int>>,
                    JoinError,
                >::Ok(sels@.map_values(|s: Selection| s@) + rest),
                Result::<Seq<Seq<int>>, JoinError>::Err(e) => Result::<
                    Seq<Seq<int>>,
                    JoinError,
                >::Err(e),
            }),
            forall|u: int|
                0 <= u < t ==> (#[trigger] sels@[u]).valid_for(
                    header_row(tablesv[u]).len() as int,
                ),
        decreases tn - t,
    {
        proof {
            assert(tablesv[t as int] == tables@[t as int].deep_view());
            assert(exprsv[t as int] == exprs@[t as int]@);
        }
        let empty_header: Vec<Vec<u8>> = Vec::new();
        let table = &tables[t];
        let sel_r = if table.len() > 0 {
            proof {
                assert(tablesv[t as int][0] == tables@[t as int]@[0].deep_view());
                assert(header_row(tablesv[t as int]) == tables@[t as int]@[0].deep_view());
            }
            selection(&exprs[t], &table[0], headers)
        } else {
            proof {
                assert(empty_header.deep_view() =~= header_row(tablesv[t as int]));
            }
            selection(&exprs[t], &empty_header, headers)
        };
        match sel_r {
            Result::Err(e) => {
                return Err(JoinError::Select(e));
            },
            Result::Ok(sel) => {
                let ghost prev = sels@;
                sels.push(sel);
                proof {
                    assert(sels@.map_values(|s: Selection| s@) =~= prev.map_values(
                        |s: Selection| s@,
                    ).push(sel@));
                    assert(tablesv.len() == tables@.len());
                    let spec_rest = compile_sels(tablesv, exprsv, headers, t + 1);
                    if spec_rest is Ok {
                        assert((prev.map_values(|s: Selection| s@).push(sel@)) + spec_rest->Ok_0
                            =~= prev.map_values(|s: Selection| s@) + (seq![sel@]
                            + spec_rest->Ok_0));
                    }
                    if table@.len() > 0 {
                        assert(sel.valid_for(header_row(tablesv[t as int]).len() as int));
                    } else {
                        assert(header_row(tablesv[t as int]).len() == 0);
                        assert(sel.valid_for(header_row(tablesv[t as int]).len() as int));
                    }
                }
            },
        }
        t += 1;
    }
    proof {
        assert(compile_sels(tablesv, exprsv, headers, tn as int) == Result::<
            Seq<Seq<int>>,
            JoinError,
        >::Ok(Seq::<Seq<int>>::empty()));
        assert(sels@.map_values(|s: Selection| s@) + Seq::<Seq<int>>::empty() =~= sels@.map_values(
            |s: Selection| s@,
        ));
    }
    let ghost selsv = sels@.map_values(|s: Selection| s@);
    // All selections must name the same number of columns.
    let want = sels[0].len();
    let mut u: usize = 1;
    while u < sels.len()
        invariant
            1 <= u <= sels@.len(),
            sels@.len() == tables@.len(),
            tables@.len() >= 1,
            tablesv == tables.deep_view(),
            exprsv == exprs.deep_view(),
            ascended != descended,
            compile_sels(tablesv, exprsv, headers, 0) == Result::<Seq<Seq<int>>, JoinError>::Ok(
                selsv,
            ),
            selsv == sels@.map_values(|s: Selection| s@),
            want == selsv[0].len(),
            forall|w: int| 0 <= w < u ==> (#[trigger] selsv[w]).len() == selsv[0].len(),
        decreases sels@.len() - u,
    {
        proof {
            assert(selsv[u as int] == sels@[u as int]@);
        }
        if sels[u].len() != want {
            proof {
                assert(!sels_same_len(selsv));
            }
            return Err(JoinError::SelectionMismatch);
        }
        u += 1;
    }
    proof {
        assert(sels_same_len(selsv));
    }
    // Strip the headers, keeping only the data rows of each input.
    let mut data: Vec<Vec<Vec<Vec<u8>>>> = Vec::new();
    let ghost datav = tablesv.map_values(
        |tb: Seq<Seq<Seq<u8>>>| crate::terasort::data_of(tb, headers),
    );
    let mut w: usize = 0;
    while w < tn
        invariant
            0 <= w <= tn,
            tn == tables@.len(),
            tablesv == tables.deep_view(),
            datav == tablesv.map_values(
                |tb: Seq<Seq<Seq<u8>>>| crate::terasort::data_of(tb, headers),
            ),
            data.deep_view() =~= datav.take(w as int),
        decreases tn - w,
    {
        let start: usize = if headers && tables[w].len() > 0 {
            1
        } else {
            0
        };
        let dt = clone_rows_from(&tables[w], start);
        let ghost prev = data.deep_view();
        let ghost dv = dt.deep_view();
        data.push(dt);
        proof {
            assert(data.deep_view() =~~= prev.push(dv));
            assert(tablesv[w as int] == tables@[w as int].deep_view());
            assert(dv =~= crate::terasort::data_of(tablesv[w as int], headers));
            assert(data.deep_view() =~= datav.take(w + 1 as int));
        }
        w += 1;
    }
    proof {
        assert(datav.take(tn as int) =~= datav);
        // The selections fit every data row: widths are uniform.
        assert forall|t2: int, i: int|
            0 <= t2 < datav.len() && 0 <= i < datav[t2].len()
                implies crate::select::positions_in_width(
            selsv[t2],
            (#[trigger] datav[t2][i]).len() as int,
        ) by {
            assert(datav[t2] == crate::terasort::data_of(tablesv[t2], headers));
            if headers && tablesv[t2].len() > 0 {
                assert(datav[t2][i] == tablesv[t2][i + 1]);
                assert(tablesv[t2][i + 1].len() == header_row(tablesv[t2]).len());
            } else {
                assert(datav[t2][i] == tablesv[t2][i]);
                assert(tablesv[t2][i].len() == header_row(tablesv[t2]).len());
            }
            assert(sels@[t2].valid_for(header_row(tablesv[t2]).len() as int));
            assert(selsv[t2] == sels@[t2]@);
        }
        assert(sels_fit(data.deep_view(), selsv));
    }
    let joined = match inner_join(&data, &sels, casei, numeric, nulls, unique, ascended) {
        Result::Err(e) => {
            return Err(e);
        },
        Result::Ok(rows) => rows,
    };
    if !headers {
        return Ok(joined);
    }
    // Put the concatenated header first.
    let mut hd: Vec<Vec<u8>> = Vec::new();
    let mut h: usize = 0;
    while h < tn
        invariant
            0 <= h <= tn,
            tn == tables@.len(),
            tablesv == tables.deep_view(),
            hd.deep_view() + concat_headers(tablesv, h as int) =~= concat_headers(tablesv, 0),
        decreases tn - h,
    {
        let table = &tables[h];
        if table.len() > 0 {
            let ghost prevh = hd.deep_view();
            let hrow = clone_row(&table[0]);
            let merged = concat_rows(&hd, &hrow);
            hd = merged;
            proof {
                assert(tablesv[h as int][0] == tables@[h as int]@[0].deep_view());
                assert(hd.deep_view() =~= prevh + header_row(tablesv[h as int]));
            }
        } else {
            proof {
                assert(header_row(tablesv[h as int]) =~= Seq::<Seq<u8>>::empty());
                assert(hd.deep_view() =~= hd.deep_view() + header_row(tablesv[h as int]));
            }
        }
        proof {
            assert(concat_headers(tablesv, h as int) =~= header_row(tablesv[h as int])
                + concat_headers(tablesv, h + 1));
            assert(hd.deep_view() + concat_headers(tablesv, h + 1) =~= concat_headers(
                tablesv,
                0,
            ));
        }
        h += 1;
    }
    proof {
        assert(concat_headers(tablesv, tn as int) =~= Seq::<Seq<u8>>::empty());
        assert(hd.deep_view() =~= hd.deep_view() + concat_headers(tablesv, tn as int));
        assert(hd.deep_view() =~= concat_headers(tablesv, 0));
    }
    let mut out: Vec<Vec<Vec<u8>>> = Vec::new();
    let ghost hv = hd.deep_view();
    out.push(hd);
    proof {
        assert(out.deep_view() =~~= Seq::<Seq<Seq<u8>>>::empty().push(hv));
    }
    let mut j: usize = 0;
    let ghost joinedv = joined.deep_view();
    while j < joined.len()
        invariant
            0 <= j <= joined@.len(),
            joinedv == joined.deep_view(),
            joinedv.len() == joined@.len(),
            out.deep_view() =~= seq![hv] + joinedv.take(j as int),
        decreases joined@.len() - j,
    {
        let row = clone_row(&joined[j]);
        let ghost prev = out.deep_view();
        let ghost rv = row.deep_view();
        out.push(row);
        proof {
            assert(out.deep_view() =~~= prev.push(rv));
            assert(joinedv[j as int] == joined@[j as int].deep_view());
            assert(out.deep_view() =~= seq![hv] + joinedv.take(j + 1 as int));
        }
        j += 1;
    }
    proof {
        assert(joinedv.take(joined@.len() as int) =~= joinedv);
        assert(out.deep_view() =~= seq![concat_headers(tablesv, 0)] + joinedv);
    }
    Ok(out)
}

} // verus!
