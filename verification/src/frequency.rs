//! Frequency tables: for each selected column, every distinct
//! transformed value with its number of occurrences, ordered by count —
//! descending unless asked ascending — and truncated to a limit. The
//! counts are, by construction, the counts of the in-memory multiset
//! of the column's transformed values.
use vstd::prelude::*;
use vstd::multiset::Multiset;
use crate::common::{trimmed, transform, clone_field, fields_eq};
use crate::select::{selection, selection_spec, SelectError};
use crate::sort::{kv, asc_leq, pairs_view, quick_sort, lemma_orders_total};
use crate::transforms::{dec_digits, dec_bytes};
use crate::terasort::data_of;
use crate::multijoin::header_row;

verus! {

/// The bytes of `(NULL)`, the name empty values are counted under.
pub open spec fn null_bytes() -> Seq<u8> {
    seq![40u8, 78u8, 85u8, 76u8, 76u8, 41u8]
}

/// The counted values of column `c` from row `i` on: each field
/// trimmed; an empty value becomes `(NULL)` — or is left out entirely
/// when nulls are not tracked.
pub open spec fn colvals(data: Seq<Seq<Seq<u8>>>, c: int, no_nulls: bool, i: int) -> Seq<Seq<u8>>
    decreases data.len() - i,
{
    if i < 0 || i >= data.len() {
        seq![]
    } else {
        let v = trimmed(data[i][c]);
        (if v.len() == 0 {
            if no_nulls {
                seq![]
            } else {
                seq![null_bytes()]
            }
        } else {
            seq![v]
        }) + colvals(data, c, no_nulls, i + 1)
    }
}

/// The distinct values of `vals`, in first-occurrence order.
pub open spec fn firsts(vals: Seq<Seq<u8>>) -> Seq<Seq<u8>>
    decreases vals.len(),
{
    if vals.len() == 0 {
        seq![]
    } else if vals.drop_last().contains(vals.last()) {
        firsts(vals.drop_last())
    } else {
        firsts(vals.drop_last()).push(vals.last())
    }
}

/// `firsts` holds exactly the values that occur.
pub proof fn lemma_firsts_contains(vals: Seq<Seq<u8>>, x: Seq<u8>)
    ensures
        firsts(vals).contains(x) <==> vals.contains(x),
    decreases vals.len(),
{
    if vals.len() > 0 {
        let dl = vals.drop_last();
        lemma_firsts_contains(dl, x);
        assert(vals.contains(vals.last())) by {
            assert(vals[vals.len() - 1] == vals.last());
        }
        if dl.contains(x) {
            let j = choose|j: int| 0 <= j < dl.len() && dl[j] == x;
            assert(vals[j] == x);
            assert(vals.contains(x));
        }
        if vals.contains(x) && !dl.contains(x) {
            assert(x == vals.last()) by {
                let j = choose|j: int| 0 <= j < vals.len() && vals[j] == x;
                if j < vals.len() - 1 {
                    assert(dl[j] == x);
                }
            }
        }
        if !dl.contains(vals.last()) {
            assert(firsts(vals) == firsts(dl).push(vals.last()));
            if firsts(vals).contains(x) && x != vals.last() {
                let j = choose|j: int| 0 <= j < firsts(vals).len() && firsts(vals)[j] == x;
                assert(j < firsts(dl).len());
                assert(firsts(dl)[j] == x);
                assert(firsts(dl).contains(x));
            }
            if x == vals.last() {
                assert(firsts(vals)[firsts(vals).len() - 1] == x);
                assert(firsts(vals).contains(x));
            }
            if firsts(dl).contains(x) {
                let j = choose|j: int| 0 <= j < firsts(dl).len() && firsts(dl)[j] == x;
                assert(firsts(vals)[j] == x);
                assert(firsts(vals).contains(x));
            }
        }
    }
}

/// The distinct values really are distinct.
pub proof fn lemma_firsts_distinct(vals: Seq<Seq<u8>>)
    ensures
        forall|i: int, j: int|
            0 <= i < j < firsts(vals).len() ==> #[trigger] firsts(vals)[i] != #[trigger] firsts(
                vals,
            )[j],
    decreases vals.len(),
{
    if vals.len() > 0 {
        let dl = vals.drop_last();
        lemma_firsts_distinct(dl);
        if !dl.contains(vals.last()) {
            lemma_firsts_contains(dl, vals.last());
            assert forall|i: int, j: int|
                0 <= i < j < firsts(vals).len() implies #[trigger] firsts(vals)[i]
                != #[trigger] firsts(vals)[j] by {
                if j == firsts(vals).len() - 1 {
                    assert(firsts(vals)[j] == vals.last());
                    assert(firsts(vals)[i] == firsts(dl)[i]);
                    if firsts(dl)[i] == vals.last() {
                        assert(firsts(dl).contains(vals.last()));
                    }
                } else {
                    assert(firsts(vals)[i] == firsts(dl)[i]);
                    assert(firsts(vals)[j] == firsts(dl)[j]);
                }
            }
        }
    }
}

/// The sort key of one count: its decimal digits ascending, or, for
/// the descending order, the digits of its negation, so that numeric
/// comparison puts larger counts first.
pub open spec fn count_key(c: int, asc: bool) -> Seq<u8> {
    if asc {
        dec_digits(c)
    } else {
        seq![45u8] + dec_digits(c)
    }
}

/// The entry/count pairs a column's table is ordered by: the count of
/// each distinct value as a numeric key, ties keeping first-occurrence
/// order.
pub open spec fn freq_pairs(vals: Seq<Seq<u8>>, asc: bool) -> Seq<(crate::sort::KeyV, int)> {
    Seq::new(
        firsts(vals).len(),
        |e: int|
            (
                kv(seq![count_key(vals.to_multiset().count(firsts(vals)[e]) as int, asc)], true),
                e,
            ),
    )
}

/// The frequency rows of one column: `[name, value, count]` for each
/// distinct value, by count under the chosen order, the first `limit`
/// of them (`0` meaning all).
pub open spec fn freq_col_spec(
    data: Seq<Seq<Seq<u8>>>,
    c: int,
    name: Seq<u8>,
    no_nulls: bool,
    asc: bool,
    limit: int,
) -> Seq<Seq<Seq<u8>>> {
    let vals = colvals(data, c, no_nulls, 0);
    let ents = firsts(vals);
    let sorted = freq_pairs(vals, asc).sort_by(asc_leq());
    let lim = if limit == 0 || limit > ents.len() {
        ents.len() as int
    } else {
        limit
    };
    Seq::new(
        if lim >= 0 {
            lim as nat
        } else {
            0
        },
        |j: int|
            seq![
                name,
                ents[sorted[j].1],
                dec_digits(vals.to_multiset().count(ents[sorted[j].1]) as int),
            ],
    )
}

/// The name of column `c` in the output: its header field, or its
/// 1-based position when the input has no header.
pub open spec fn col_name(hdr: Seq<Seq<u8>>, c: int, headers: bool) -> Seq<u8> {
    if headers {
        hdr[c]
    } else {
        dec_digits(c + 1)
    }
}

/// The tables of the selected columns from `k` on, in selection order.
pub open spec fn freq_cols(
    data: Seq<Seq<Seq<u8>>>,
    hdr: Seq<Seq<u8>>,
    sel: Seq<int>,
    headers: bool,
    no_nulls: bool,
    asc: bool,
    limit: int,
    k: int,
) -> Seq<Seq<Seq<u8>>>
    decreases sel.len() - k,
{
    if k < 0 || k >= sel.len() {
        seq![]
    } else {
        freq_col_spec(data, sel[k], col_name(hdr, sel[k], headers), no_nulls, asc, limit)
            + freq_cols(data, hdr, sel, headers, no_nulls, asc, limit, k + 1)
    }
}

/// What `frequency` returns: under headers, the `field,value,count`
/// header and the tables of the selected columns; an uncompilable
/// selection is the error it earns.
pub open spec fn frequency_spec(
    rows: Seq<Seq<Seq<u8>>>,
    expr: Seq<u8>,
    headers: bool,
    no_nulls: bool,
    asc: bool,
    limit: int,
) -> Result<Seq<Seq<Seq<u8>>>, SelectError> {
    match selection_spec(expr, header_row(rows), headers) {
        Result::Err(e) => Result::Err(e),
        Result::Ok(sel) => {
            let data = data_of(rows, headers);
            let body = freq_cols(
                data,
                header_row(rows),
                sel,
                headers,
                no_nulls,
                asc,
                limit,
                0,
            );
            Result::Ok(
                if headers {
                    seq![
                        seq![
                            seq![102u8, 105u8, 101u8, 108u8, 100u8],
                            seq![118u8, 97u8, 108u8, 117u8, 101u8],
                            seq![99u8, 111u8, 117u8, 110u8, 116u8],
                        ],
                    ] + body
                } else {
                    body
                },
            )
        },
    }
}

/// Frequency equivalence: with no limit, one table row stands for each
/// distinct transformed value of the column, and the count each row
/// carries is that value's count in the in-memory multiset of the
/// column's transformed values.
pub proof fn lemma_frequency_matches_multiset(
    data: Seq<Seq<Seq<u8>>>,
    c: int,
    name: Seq<u8>,
    no_nulls: bool,
    asc: bool,
)
    ensures
        ({
            let vals = colvals(data, c, no_nulls, 0);
            let t = freq_col_spec(data, c, name, no_nulls, asc, 0);
            &&& t.len() == firsts(vals).len()
            &&& forall|j: int|
                0 <= j < t.len() ==> (#[trigger] t[j])[2] == dec_digits(
                    vals.to_multiset().count(t[j][1]) as int,
                )
        }),
{
    let vals = colvals(data, c, no_nulls, 0);
    let pairs = freq_pairs(vals, asc);
    let sorted = pairs.sort_by(asc_leq());
    crate::sort::lemma_orders_total();
    pairs.lemma_sort_by_ensures(asc_leq());
    broadcast use vstd::seq_lib::group_to_multiset_ensures;

    assert(sorted.to_multiset().len() == pairs.to_multiset().len());
    assert forall|j: int| 0 <= j < sorted.len() implies 0 <= (#[trigger] sorted[j]).1 < firsts(
        vals,
    ).len() by {
        assert(sorted.contains(sorted[j]));
        assert(pairs.contains(sorted[j]));
        let u = choose|u: int| 0 <= u < pairs.len() && pairs[u] == sorted[j];
        assert(pairs[u].1 == u);
    }
    let t = freq_col_spec(data, c, name, no_nulls, asc, 0);
    assert forall|j: int| 0 <= j < t.len() implies (#[trigger] t[j])[2] == dec_digits(
        vals.to_multiset().count(t[j][1]) as int,
    ) by {
        assert(t[j][1] == firsts(vals)[sorted[j].1]);
        assert(t[j][2] == dec_digits(vals.to_multiset().count(firsts(vals)[sorted[j].1]) as int));
    }
}

/// The values of a column from rows `i` on in a concatenation: first
/// the tail of the left part, then all of the right part.
proof fn lemma_colvals_concat_from(
    d1: Seq<Seq<Seq<u8>>>,
    d2: Seq<Seq<Seq<u8>>>,
    c: int,
    no_nulls: bool,
    i: int,
)
    requires
        0 <= i <= d1.len(),
    ensures
        colvals(d1 + d2, c, no_nulls, i) =~= colvals(d1, c, no_nulls, i) + colvals(
            d2,
            c,
            no_nulls,
            0,
        ),
    decreases (d1 + d2).len() - i,
{
    if i < d1.len() {
        assert((d1 + d2)[i] == d1[i]);
        lemma_colvals_concat_from(d1, d2, c, no_nulls, i + 1);
    } else {
        lemma_colvals_shift(d1, d2, c, no_nulls, 0);
        assert(colvals(d1, c, no_nulls, i) =~= Seq::<Seq<u8>>::empty());
    }
}

/// Reading the concatenation from the seam on is reading the right part.
proof fn lemma_colvals_shift(
    d1: Seq<Seq<Seq<u8>>>,
    d2: Seq<Seq<Seq<u8>>>,
    c: int,
    no_nulls: bool,
    j: int,
)
    requires
        0 <= j <= d2.len(),
    ensures
        colvals(d1 + d2, c, no_nulls, d1.len() + j) =~= colvals(d2, c, no_nulls, j),
    decreases d2.len() - j,
{
    if j < d2.len() {
        assert((d1 + d2)[d1.len() + j] == d2[j]);
        lemma_colvals_shift(d1, d2, c, no_nulls, j + 1);
    }
}

/// Indexed equals non-indexed for the frequency merge: the counted
/// values of split inputs add up, as multisets, to the counted values
/// of the whole — so worker tables merged by pointwise sum carry the
/// counts of the serial table.
pub proof fn lemma_frequency_partition(
    d1: Seq<Seq<Seq<u8>>>,
    d2: Seq<Seq<Seq<u8>>>,
    c: int,
    no_nulls: bool,
)
    ensures
        colvals(d1 + d2, c, no_nulls, 0).to_multiset() =~= colvals(
            d1,
            c,
            no_nulls,
            0,
        ).to_multiset().add(colvals(d2, c, no_nulls, 0).to_multiset()),
{
    lemma_colvals_concat_from(d1, d2, c, no_nulls, 0);
    vstd::seq_lib::lemma_multiset_commutative(
        colvals(d1, c, no_nulls, 0),
        colvals(d2, c, no_nulls, 0),
    );
}

/// Builds the table of one column: every distinct transformed value
/// with its count, in first-occurrence order.
#[verifier::rlimit(100)]
fn build_column_table(data: &Vec<Vec<Vec<u8>>>, c: usize, no_nulls: bool) -> (r: Vec<(Vec<u8>, u64)>)
    requires
        forall|i: int| 0 <= i < data.deep_view().len() ==> c < (#[trigger] data.deep_view()[i]).len(),
    ensures
        ({
            let vals = colvals(data.deep_view(), c as int, no_nulls, 0);
            &&& r@.len() == firsts(vals).len()
            &&& forall|e: int|
                0 <= e < r@.len() ==> (#[trigger] r@[e]).0@ == firsts(vals)[e] && r@[e].1
                    == vals.to_multiset().count(firsts(vals)[e])
        }),
{
    broadcast use vstd::seq_lib::group_to_multiset_ensures;
    broadcast use vstd::multiset::group_multiset_axioms;

    let ghost datav = data.deep_view();
    let mut table: Vec<(Vec<u8>, u64)> = Vec::new();
    let ghost mut vals: Seq<Seq<u8>> = Seq::empty();
    proof {
        assert(vals.to_multiset().len() == 0);
        assert(vals.to_multiset() =~= Multiset::empty());
        assert(firsts(vals) =~= Seq::<Seq<u8>>::empty());
    }
    let mut i: usize = 0;
    let n = data.len();
    while i < n
        invariant
            0 <= i <= n,
            n == data@.len(),
            datav == data.deep_view(),
            datav.len() == data@.len(),
            forall|q: int| 0 <= q < datav.len() ==> c < (#[trigger] datav[q]).len(),
            vals + colvals(datav, c as int, no_nulls, i as int) =~= colvals(
                datav,
                c as int,
                no_nulls,
                0,
            ),
            vals.len() <= i,
            table@.len() == firsts(vals).len(),
            forall|e: int|
                0 <= e < table@.len() ==> (#[trigger] table@[e]).0@ == firsts(vals)[e]
                    && table@[e].1 == vals.to_multiset().count(firsts(vals)[e]),
        decreases n - i,
    {
        proof {
            assert(datav[i as int] == data@[i as int].deep_view());
            assert(datav[i as int][c as int] == data@[i as int]@[c as int]@);
        }
        let raw = transform(&data[i][c], false);
        let is_empty = raw.len() == 0;
        if is_empty && no_nulls {
            proof {
                assert(colvals(datav, c as int, no_nulls, i as int) =~= colvals(
                    datav,
                    c as int,
                    no_nulls,
                    i + 1,
                ));
            }
            i += 1;
            continue ;
        }
        let v: Vec<u8> = if is_empty {
            let mut nb: Vec<u8> = Vec::new();
            nb.push(40);
            nb.push(78);
            nb.push(85);
            nb.push(76);
            nb.push(76);
            nb.push(41);
            proof {
                assert(nb@ =~= null_bytes());
            }
            nb
        } else {
            raw
        };
        let ghost prevvals = vals;
        proof {
            broadcast use vstd::seq_lib::group_to_multiset_ensures;
            broadcast use vstd::multiset::group_multiset_axioms;

            vals = vals.push(v@);
            assert(colvals(datav, c as int, no_nulls, i as int) =~= seq![v@] + colvals(
                datav,
                c as int,
                no_nulls,
                i + 1,
            ));
            assert(prevvals + (seq![v@] + colvals(datav, c as int, no_nulls, i + 1)) =~= (prevvals
                + seq![v@]) + colvals(datav, c as int, no_nulls, i + 1));
            assert(prevvals.push(v@) =~= prevvals + seq![v@]);
            assert(vals.drop_last() =~= prevvals);
            vstd::seq_lib::to_multiset_build(prevvals, v@);
        }
        // Look the value up; bump its count or append a fresh entry.
        let mut found: bool = false;
        let mut e: usize = 0;
        while !found && e < table.len()
            invariant
                0 <= e <= table@.len(),
                !found ==> forall|q: int| 0 <= q < e ==> (#[trigger] table@[q]).0@ != v@,
                found ==> e < table@.len() && table@[e as int].0@ == v@,
            decreases table@.len() - e + (if found {
                0int
            } else {
                1int
            }),
        {
            if fields_eq(&table[e].0, &v) {
                found = true;
            } else {
                e += 1;
            }
        }
        if found {
            proof {
                assert(firsts(prevvals).contains(v@)) by {
                    assert(firsts(prevvals)[e as int] == table@[e as int].0@);
                }
                lemma_firsts_contains(prevvals, v@);
                assert(firsts(vals) =~= firsts(prevvals));
            }
            let old_count = table[e].1;
            proof {
                broadcast use vstd::seq_lib::group_to_multiset_ensures;
                broadcast use vstd::multiset::group_multiset_axioms;

                assert(old_count == prevvals.to_multiset().count(v@));
                assert(prevvals.to_multiset().count(v@) <= prevvals.to_multiset().len());
                assert(prevvals.to_multiset().len() == prevvals.len());
            }
            let entry_value = clone_field(&table[e].0);
            table.set(e, (entry_value, old_count + 1));
            proof {
                broadcast use vstd::seq_lib::group_to_multiset_ensures;
                broadcast use vstd::multiset::group_multiset_axioms;

                lemma_firsts_distinct(prevvals);
                assert forall|q: int| 0 <= q < table@.len() implies (#[trigger] table@[q]).0@
                    == firsts(vals)[q] && table@[q].1 == vals.to_multiset().count(
                    firsts(vals)[q],
                ) by {
                    if q != e {
                        assert(firsts(prevvals)[q] != firsts(prevvals)[e as int]);
                        assert(table@[q].0@ != v@);
                    }
                }
            }
        } else {
            proof {
                assert(!firsts(prevvals).contains(v@)) by {
                    if firsts(prevvals).contains(v@) {
                        let q = choose|q: int|
                            0 <= q < firsts(prevvals).len() && firsts(prevvals)[q] == v@;
                        assert(table@[q].0@ == v@);
                    }
                }
                lemma_firsts_contains(prevvals, v@);
                assert(firsts(vals) =~= firsts(prevvals).push(v@));
                assert(prevvals.to_multiset().count(v@) == 0) by {
                    if prevvals.to_multiset().count(v@) > 0 {
                        assert(prevvals.contains(v@));
                    }
                }
            }
            table.push((v, 1));
            proof {
                broadcast use vstd::seq_lib::group_to_multiset_ensures;
                broadcast use vstd::multiset::group_multiset_axioms;

                assert forall|q: int| 0 <= q < table@.len() implies (#[trigger] table@[q]).0@
                    == firsts(vals)[q] && table@[q].1 == vals.to_multiset().count(
                    firsts(vals)[q],
                ) by {}
            }
        }
        i += 1;
    }
    proof {
        assert(colvals(datav, c as int, no_nulls, n as int) =~= Seq::<Seq<u8>>::empty());
        assert(vals =~= colvals(datav, c as int, no_nulls, 0));
    }
    table
}

/// Emits one column's table rows, ordered by count.
#[verifier::rlimit(100)]
fn emit_column(
    data: &Vec<Vec<Vec<u8>>>,
    c: usize,
    name: &Vec<u8>,
    no_nulls: bool,
    asc: bool,
    limit: usize,
    out: &mut Vec<Vec<Vec<u8>>>,
)
    requires
        forall|i: int| 0 <= i < data.deep_view().len() ==> c < (#[trigger] data.deep_view()[i]).len(),
    ensures
        final(out).deep_view() == old(out).deep_view() + freq_col_spec(
            data.deep_view(),
            c as int,
            name@,
            no_nulls,
            asc,
            limit as int,
        ),
{
    let ghost datav = data.deep_view();
    let ghost vals = colvals(datav, c as int, no_nulls, 0);
    let ghost base = out.deep_view();
    let table = build_column_table(data, c, no_nulls);
    // Sort the entries by count (negated for the descending order),
    // ties keeping first-occurrence order.
    let mut pairs: Vec<(Vec<Vec<u8>>, usize)> = Vec::new();
    let mut e: usize = 0;
    while e < table.len()
        invariant
            0 <= e <= table@.len(),
            table@.len() == firsts(vals).len(),
            forall|q: int|
                0 <= q < table@.len() ==> (#[trigger] table@[q]).0@ == firsts(vals)[q]
                    && table@[q].1 == vals.to_multiset().count(firsts(vals)[q]),
            pairs@.len() == e,
            forall|q: int|
                0 <= q < e ==> #[trigger] pairs_view(pairs@, true)[q] == freq_pairs(vals, asc)[q],
        decreases table@.len() - e,
    {
        let count = table[e].1;
        let keyf: Vec<u8> = if asc {
            dec_bytes(count)
        } else {
            let mut kb: Vec<u8> = Vec::new();
            kb.push(45);
            let mut db = dec_bytes(count);
            kb.append(&mut db);
            proof {
                assert(kb@ =~= count_key(count as int, asc));
            }
            kb
        };
        let mut keyrow: Vec<Vec<u8>> = Vec::new();
        keyrow.push(keyf);
        let ghost prev = pairs@;
        proof {
            assert(keyrow.deep_view() =~~= seq![count_key(count as int, asc)]);
        }
        pairs.push((keyrow, e));
        proof {
            assert(pairs_view(pairs@, true) =~= pairs_view(prev, true).push(
                (kv(seq![count_key(count as int, asc)], true), e as int),
            ));
            assert(freq_pairs(vals, asc)[e as int] == (
                kv(seq![count_key(vals.to_multiset().count(firsts(vals)[e as int]) as int, asc)], true),
                e as int,
            ));
        }
        e += 1;
    }
    proof {
        assert(pairs_view(pairs@, true) =~= freq_pairs(vals, asc));
    }
    let sorted = quick_sort(pairs, true, false);
    let ghost sortedv = freq_pairs(vals, asc).sort_by(asc_leq());
    proof {
        broadcast use vstd::seq_lib::group_to_multiset_ensures;

        lemma_orders_total();
        freq_pairs(vals, asc).lemma_sort_by_ensures(asc_leq());
        assert(chosen_leq_is_asc());
        assert(sortedv.to_multiset().len() == freq_pairs(vals, asc).to_multiset().len());
        assert(sortedv.len() == freq_pairs(vals, asc).len());
        assert forall|j: int| 0 <= j < sortedv.len() implies 0 <= (#[trigger] sortedv[j]).1
            < firsts(vals).len() by {
            assert(sortedv.contains(sortedv[j]));
            assert(freq_pairs(vals, asc).contains(sortedv[j]));
            let u = choose|u: int|
                0 <= u < freq_pairs(vals, asc).len() && freq_pairs(vals, asc)[u] == sortedv[j];
            assert(freq_pairs(vals, asc)[u].1 == u);
        }
    }
    let lim = if limit == 0 || limit > table.len() {
        table.len()
    } else {
        limit
    };
    let mut j: usize = 0;
    while j < lim
        invariant
            0 <= j <= lim,
            lim <= table@.len(),
            lim as int == ({
                let l = if limit == 0 || limit as int > firsts(vals).len() {
                    firsts(vals).len() as int
                } else {
                    limit as int
                };
                l
            }),
            table@.len() == firsts(vals).len(),
            forall|q: int|
                0 <= q < table@.len() ==> (#[trigger] table@[q]).0@ == firsts(vals)[q]
                    && table@[q].1 == vals.to_multiset().count(firsts(vals)[q]),
            pairs_view(sorted@, true) == sortedv,
            sorted@.len() == sortedv.len(),
            sortedv.len() == table@.len(),
            forall|q: int| 0 <= q < sortedv.len() ==> 0 <= (#[trigger] sortedv[q]).1 < table@.len(),
            out.deep_view().len() == base.len() + j,
            forall|q: int| 0 <= q < base.len() ==> #[trigger] out.deep_view()[q] == base[q],
            forall|q: int|
                0 <= q < j ==> #[trigger] out.deep_view()[base.len() + q] == seq![
                    name@,
                    firsts(vals)[sortedv[q].1],
                    dec_digits(vals.to_multiset().count(firsts(vals)[sortedv[q].1]) as int),
                ],
        decreases lim - j,
    {
        proof {
            assert(pairs_view(sorted@, true)[j as int].1 == sorted@[j as int].1 as int);
        }
        let eidx = sorted[j].1;
        let mut line: Vec<Vec<u8>> = Vec::new();
        line.push(clone_field(name));
        line.push(clone_field(&table[eidx].0));
        line.push(dec_bytes(table[eidx].1));
        let ghost prev = out.deep_view();
        let ghost lv = line.deep_view();
        out.push(line);
        proof {
            assert(out.deep_view() =~~= prev.push(lv));
            assert(lv =~~= seq![
                name@,
                firsts(vals)[sortedv[j as int].1],
                dec_digits(vals.to_multiset().count(firsts(vals)[sortedv[j as int].1]) as int),
            ]);
        }
        j += 1;
    }
    proof {
        let spec_col = freq_col_spec(datav, c as int, name@, no_nulls, asc, limit as int);
        assert(spec_col.len() == lim as int);
        assert forall|t: int| 0 <= t < out.deep_view().len() implies out.deep_view()[t] == (base
            + spec_col)[t] by {
            if t >= base.len() {
                let q = t - base.len();
                assert(out.deep_view()[base.len() + q] == spec_col[q]);
            }
        }
        assert(out.deep_view() =~= base + spec_col);
    }
}

/// The frequency order is the ascending pair order.
pub open spec fn chosen_leq_is_asc() -> bool {
    crate::sort::chosen_leq(false) == asc_leq()
}

/// Computes the frequency tables of the selected columns:
/// `field,value,count` rows per distinct value, by count under the
/// chosen order, at most `limit` per column (`0` meaning all), under a
/// `field,value,count` header when headers are on.
pub fn frequency(
    rows: &Vec<Vec<Vec<u8>>>,
    expr: &Vec<u8>,
    headers: bool,
    no_nulls: bool,
    asc: bool,
    limit: usize,
) -> (r: Result<Vec<Vec<Vec<u8>>>, SelectError>)
    requires
        forall|i: int|
            0 <= i < rows.deep_view().len() ==> (#[trigger] rows.deep_view()[i]).len()
                == header_row(rows.deep_view()).len(),
    ensures
        match r {
            Result::Ok(out) => frequency_spec(
                rows.deep_view(),
                expr@,
                headers,
                no_nulls,
                asc,
                limit as int,
            ) == Result::<Seq<Seq<Seq<u8>>>, SelectError>::Ok(out.deep_view()),
            Result::Err(e) => frequency_spec(
                rows.deep_view(),
                expr@,
                headers,
                no_nulls,
                asc,
                limit as int,
            ) == Result::<Seq<Seq<Seq<u8>>>, SelectError>::Err(e),
        },
{
    let ghost rowsv = rows.deep_view();
    let empty_header: Vec<Vec<u8>> = Vec::new();
    let sel_r = if rows.len() > 0 {
        proof {
            assert(rowsv[0] == rows@[0].deep_view());
            assert(header_row(rowsv) == rowsv[0]);
        }
        selection(expr, &rows[0], headers)
    } else {
        proof {
            assert(empty_header.deep_view() =~= header_row(rowsv));
        }
        selection(expr, &empty_header, headers)
    };
    let sel = match sel_r {
        Result::Err(e) => {
            return Err(e);
        },
        Result::Ok(sel) => sel,
    };
    let hstart: usize = if headers && rows.len() > 0 {
        1
    } else {
        0
    };
    let data = crate::multijoin::clone_rows_from(rows, hstart);
    let ghost datav = data_of(rowsv, headers);
    proof {
        assert(data.deep_view() =~= datav);
    }
    let mut out: Vec<Vec<Vec<u8>>> = Vec::new();
    if headers {
        let mut hd: Vec<Vec<u8>> = Vec::new();
        let mut f1: Vec<u8> = Vec::new();
        f1.push(102);
        f1.push(105);
        f1.push(101);
        f1.push(108);
        f1.push(100);
        let mut f2: Vec<u8> = Vec::new();
        f2.push(118);
        f2.push(97);
        f2.push(108);
        f2.push(117);
        f2.push(101);
        let mut f3: Vec<u8> = Vec::new();
        f3.push(99);
        f3.push(111);
        f3.push(117);
        f3.push(110);
        f3.push(116);
        hd.push(f1);
        hd.push(f2);
        hd.push(f3);
        let ghost hv = hd.deep_view();
        out.push(hd);
        proof {
            assert(hv =~~= seq![
                seq![102u8, 105u8, 101u8, 108u8, 100u8],
                seq![118u8, 97u8, 108u8, 117u8, 101u8],
                seq![99u8, 111u8, 117u8, 110u8, 116u8],
            ]);
            assert(out.deep_view() =~~= Seq::<Seq<Seq<u8>>>::empty().push(hv));
        }
    }
    let ghost base = out.deep_view();
    let ghost hdrv = header_row(rowsv);
    let hw = if rows.len() > 0 {
        rows[0].len()
    } else {
        0
    };
    proof {
        if rows@.len() > 0 {
            assert(rowsv[0] == rows@[0].deep_view());
        }
        assert(hdrv.len() == hw as int);
    }
    let mut k: usize = 0;
    while k < sel.positions.len()
        invariant
            0 <= k <= sel.positions@.len(),
            datav == data.deep_view(),
            datav.len() == data@.len(),
            hdrv == header_row(rowsv),
            hdrv.len() <= usize::MAX,
            rowsv == rows.deep_view(),
            sel.valid_for(hdrv.len() as int),
            forall|i: int| 0 <= i < datav.len() ==> (#[trigger] datav[i]).len() == hdrv.len(),
            out.deep_view() + freq_cols(
                datav,
                hdrv,
                sel@,
                headers,
                no_nulls,
                asc,
                limit as int,
                k as int,
            ) =~= base + freq_cols(datav, hdrv, sel@, headers, no_nulls, asc, limit as int, 0),
        decreases sel.positions@.len() - k,
    {
        proof {
            assert(sel@[k as int] == sel.positions@[k as int] as int);
        }
        let c = sel.positions[k];
        let name: Vec<u8> = if headers {
            proof {
                crate::common::lemma_fields_deep_view(&rows[0]);
                assert(rowsv[0] == rows@[0].deep_view());
            }
            clone_field(&rows[0][c])
        } else {
            dec_bytes((c as u64) + 1)
        };
        proof {
            assert(name@ == col_name(hdrv, c as int, headers));
        }
        let ghost mid = out.deep_view();
        emit_column(&data, c, &name, no_nulls, asc, limit, &mut out);
        proof {
            assert(freq_cols(datav, hdrv, sel@, headers, no_nulls, asc, limit as int, k as int)
                =~= freq_col_spec(
                datav,
                sel@[k as int],
                col_name(hdrv, sel@[k as int], headers),
                no_nulls,
                asc,
                limit as int,
            ) + freq_cols(datav, hdrv, sel@, headers, no_nulls, asc, limit as int, k + 1));
            assert(out.deep_view() + freq_cols(
                datav,
                hdrv,
                sel@,
                headers,
                no_nulls,
                asc,
                limit as int,
                k + 1,
            ) =~= base + freq_cols(datav, hdrv, sel@, headers, no_nulls, asc, limit as int, 0));
        }
        k += 1;
    }
    proof {
        assert(freq_cols(
            datav,
            hdrv,
            sel@,
            headers,
            no_nulls,
            asc,
            limit as int,
            sel.positions@.len() as int,
        ) =~= Seq::<Seq<Seq<u8>>>::empty());
        assert(out.deep_view() =~= base + freq_cols(
            datav,
            hdrv,
            sel@,
            headers,
            no_nulls,
            asc,
            limit as int,
            0,
        ));
    }
    Ok(out)
}

} // verus!
