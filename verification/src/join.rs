//! The two-input joins: inner, left-, right- and full-outer on equal
//! transformed keys, and the cross product; output rows are the left
//! row beside the right row, outer rows padded with empty fields on
//! their missing side.
use vstd::prelude::*;
use crate::common::{row_key_spec, get_row_key, clone_row, keys_cmp};
use crate::select::{Selection, selection, selection_spec, SelectError};
use crate::terasort::{data_of, key_has_null};
use crate::multijoin::{header_row, JoinError, concat_rows, clone_rows_from, join_level,
    order_violated, mj_scan, multijoin_data_spec};
use crate::cat::empty_fields;

verus! {

/// Which join to run.
#[derive(Clone, Copy, Debug, PartialEq, Eq)]
pub enum JoinMode {
    Inner,
    Left,
    Right,
    Full,
    Cross,
}

/// The key of one row under a selection: its selected fields trimmed,
/// case-folded when the join is case-insensitive.
pub open spec fn jb(row: Seq<Seq<u8>>, sel: Seq<int>, casei: bool) -> Seq<Seq<u8>> {
    row_key_spec(sel, row, casei)
}

/// The joined rows of one left row against the right rows from `j`:
/// the left row beside each right row whose key equals `akey`.
pub open spec fn matches_from(
    arow: Seq<Seq<u8>>,
    b: Seq<Seq<Seq<u8>>>,
    sb: Seq<int>,
    casei: bool,
    akey: Seq<Seq<u8>>,
    j: int,
) -> Seq<Seq<Seq<u8>>>
    decreases b.len() - j,
{
    if j < 0 || j >= b.len() {
        seq![]
    } else {
        (if jb(b[j], sb, casei) == akey {
            seq![arow + b[j]]
        } else {
            seq![]
        }) + matches_from(arow, b, sb, casei, akey, j + 1)
    }
}

/// The inner join from left row `i` on: each left row with a usable
/// key joined against its key-equal right rows, in input order.
pub open spec fn inner_from(
    a: Seq<Seq<Seq<u8>>>,
    b: Seq<Seq<Seq<u8>>>,
    sa: Seq<int>,
    sb: Seq<int>,
    casei: bool,
    nulls: bool,
    i: int,
) -> Seq<Seq<Seq<u8>>>
    decreases a.len() - i,
{
    if i < 0 || i >= a.len() {
        seq![]
    } else {
        (if nulls || !key_has_null(a[i], sa, casei) {
            matches_from(a[i], b, sb, casei, jb(a[i], sa, casei), 0)
        } else {
            seq![]
        }) + inner_from(a, b, sa, sb, casei, nulls, i + 1)
    }
}

/// The left-outer join from left row `i` on: a left row with no usable
/// key or no match stands alone, padded on the right.
pub open spec fn left_from(
    a: Seq<Seq<Seq<u8>>>,
    b: Seq<Seq<Seq<u8>>>,
    sa: Seq<int>,
    sb: Seq<int>,
    casei: bool,
    nulls: bool,
    bw: int,
    i: int,
) -> Seq<Seq<Seq<u8>>>
    decreases a.len() - i,
{
    if i < 0 || i >= a.len() {
        seq![]
    } else {
        let ms = if nulls || !key_has_null(a[i], sa, casei) {
            matches_from(a[i], b, sb, casei, jb(a[i], sa, casei), 0)
        } else {
            seq![]
        };
        (if ms.len() > 0 {
            ms
        } else {
            seq![a[i] + empty_fields(bw)]
        }) + left_from(a, b, sa, sb, casei, nulls, bw, i + 1)
    }
}

/// The joined rows of one right row against the left rows from `j`.
pub open spec fn rmatches_from(
    brow: Seq<Seq<u8>>,
    a: Seq<Seq<Seq<u8>>>,
    sa: Seq<int>,
    casei: bool,
    bkey: Seq<Seq<u8>>,
    j: int,
) -> Seq<Seq<Seq<u8>>>
    decreases a.len() - j,
{
    if j < 0 || j >= a.len() {
        seq![]
    } else {
        (if jb(a[j], sa, casei) == bkey {
            seq![a[j] + brow]
        } else {
            seq![]
        }) + rmatches_from(brow, a, sa, casei, bkey, j + 1)
    }
}

/// The right-outer join from right row `i` on: each right row beside
/// its key-equal left rows, or padded on the left when none match.
pub open spec fn right_from(
    a: Seq<Seq<Seq<u8>>>,
    b: Seq<Seq<Seq<u8>>>,
    sa: Seq<int>,
    sb: Seq<int>,
    casei: bool,
    nulls: bool,
    aw: int,
    i: int,
) -> Seq<Seq<Seq<u8>>>
    decreases b.len() - i,
{
    if i < 0 || i >= b.len() {
        seq![]
    } else {
        let ms = if nulls || !key_has_null(b[i], sb, casei) {
            rmatches_from(b[i], a, sa, casei, jb(b[i], sb, casei), 0)
        } else {
            seq![]
        };
        (if ms.len() > 0 {
            ms
        } else {
            seq![empty_fields(aw) + b[i]]
        }) + right_from(a, b, sa, sb, casei, nulls, aw, i + 1)
    }
}

/// The right rows no left row matches, each padded on the left.
pub open spec fn right_unmatched(
    a: Seq<Seq<Seq<u8>>>,
    b: Seq<Seq<Seq<u8>>>,
    sa: Seq<int>,
    sb: Seq<int>,
    casei: bool,
    nulls: bool,
    aw: int,
    i: int,
) -> Seq<Seq<Seq<u8>>>
    decreases b.len() - i,
{
    if i < 0 || i >= b.len() {
        seq![]
    } else {
        let ms = if nulls || !key_has_null(b[i], sb, casei) {
            rmatches_from(b[i], a, sa, casei, jb(b[i], sb, casei), 0)
        } else {
            seq![]
        };
        (if ms.len() > 0 {
            seq![]
        } else {
            seq![empty_fields(aw) + b[i]]
        }) + right_unmatched(a, b, sa, sb, casei, nulls, aw, i + 1)
    }
}

/// The cross join from left row `i` on.
pub open spec fn cross_one(arow: Seq<Seq<u8>>, b: Seq<Seq<Seq<u8>>>, j: int) -> Seq<Seq<Seq<u8>>>
    decreases b.len() - j,
{
    if j < 0 || j >= b.len() {
        seq![]
    } else {
        seq![arow + b[j]] + cross_one(arow, b, j + 1)
    }
}

pub open spec fn cross_from(a: Seq<Seq<Seq<u8>>>, b: Seq<Seq<Seq<u8>>>, i: int) -> Seq<
    Seq<Seq<u8>>,
>
    decreases a.len() - i,
{
    if i < 0 || i >= a.len() {
        seq![]
    } else {
        cross_one(a[i], b, 0) + cross_from(a, b, i + 1)
    }
}

/// The data rows a join produces, by mode.
pub open spec fn join_body_spec(
    a: Seq<Seq<Seq<u8>>>,
    b: Seq<Seq<Seq<u8>>>,
    sa: Seq<int>,
    sb: Seq<int>,
    casei: bool,
    nulls: bool,
    aw: int,
    bw: int,
    mode: JoinMode,
) -> Seq<Seq<Seq<u8>>> {
    match mode {
        JoinMode::Inner => inner_from(a, b, sa, sb, casei, nulls, 0),
        JoinMode::Left => left_from(a, b, sa, sb, casei, nulls, bw, 0),
        JoinMode::Right => right_from(a, b, sa, sb, casei, nulls, aw, 0),
        JoinMode::Full => left_from(a, b, sa, sb, casei, nulls, bw, 0) + right_unmatched(
            a,
            b,
            sa,
            sb,
            casei,
            nulls,
            aw,
            0,
        ),
        JoinMode::Cross => cross_from(a, b, 0),
    }
}

/// What the join command returns: under headers, both headers side by
/// side and then the joined data rows; the selections (unused by the
/// cross join) must compile and must name equally many columns.
pub open spec fn join_spec(
    ta: Seq<Seq<Seq<u8>>>,
    tb: Seq<Seq<Seq<u8>>>,
    ea: Seq<u8>,
    eb: Seq<u8>,
    headers: bool,
    casei: bool,
    nulls: bool,
    mode: JoinMode,
) -> Result<Seq<Seq<Seq<u8>>>, JoinError> {
    let a = data_of(ta, headers);
    let b = data_of(tb, headers);
    let hd = header_row(ta) + header_row(tb);
    if mode is Cross {
        Result::Ok(
            if headers {
                seq![hd] + cross_from(a, b, 0)
            } else {
                cross_from(a, b, 0)
            },
        )
    } else {
        match selection_spec(ea, header_row(ta), headers) {
            Result::Err(e) => Result::Err(JoinError::Select(e)),
            Result::Ok(sa) => match selection_spec(eb, header_row(tb), headers) {
                Result::Err(e) => Result::Err(JoinError::Select(e)),
                Result::Ok(sb) => {
                    if sa.len() != sb.len() {
                        Result::Err(JoinError::SelectionMismatch)
                    } else {
                        let body = join_body_spec(
                            a,
                            b,
                            sa,
                            sb,
                            casei,
                            nulls,
                            header_row(ta).len() as int,
                            header_row(tb).len() as int,
                            mode,
                        );
                        Result::Ok(
                            if headers {
                                seq![hd] + body
                            } else {
                                body
                            },
                        )
                    }
                },
            },
        }
    }
}

/// A key read off a widened row: columns appended on the right leave
/// the selected fields alone.
proof fn lemma_key_of_concat(a: Seq<Seq<u8>>, b: Seq<Seq<u8>>, sel: Seq<int>, casei: bool)
    requires
        crate::select::positions_in_width(sel, a.len() as int),
    ensures
        jb(a + b, sel, casei) == jb(a, sel, casei),
{
    assert forall|p: int| 0 <= p < sel.len() implies row_key_spec(sel, a + b, casei)[p]
        == row_key_spec(sel, a, casei)[p] by {
        assert((a + b)[sel[p]] == a[sel[p]]);
    }
    assert(row_key_spec(sel, a + b, casei) =~= row_key_spec(sel, a, casei));
}

/// With three inputs and byte keys, matching the last input under the
/// multi-way join is matching it under the two-way join.
proof fn lemma_join_level_last(
    acc: Seq<Seq<u8>>,
    kb: Seq<Seq<u8>>,
    tables: Seq<Seq<Seq<Seq<u8>>>>,
    sels: Seq<Seq<int>>,
    casei: bool,
    l: int,
)
    requires
        tables.len() == 3,
        sels.len() == 3,
        0 <= l,
    ensures
        join_level(
            acc,
            crate::sort::kv(kb, false),
            tables,
            sels,
            casei,
            false,
            false,
            2,
            l,
        ) =~= matches_from(acc, tables[2], sels[2], casei, kb, l),
    decreases tables[2].len() - l,
{
    if l < tables[2].len() {
        lemma_join_level_last(acc, kb, tables, sels, casei, l + 1);
        assert(crate::multijoin::jkey(tables[2][l], sels[2], casei, false)
            == crate::sort::kv(kb, false) <==> jb(tables[2][l], sels[2], casei) == kb);
        assert(join_level(
            acc + tables[2][l],
            crate::sort::kv(kb, false),
            tables,
            sels,
            casei,
            false,
            false,
            3,
            0,
        ) =~= seq![acc + tables[2][l]]);
    }
}

/// The inner join distributes over splitting its left rows.
proof fn lemma_inner_concat(
    x: Seq<Seq<Seq<u8>>>,
    y: Seq<Seq<Seq<u8>>>,
    c: Seq<Seq<Seq<u8>>>,
    sa: Seq<int>,
    sc: Seq<int>,
    casei: bool,
    i: int,
)
    requires
        0 <= i <= x.len(),
    ensures
        inner_from(x + y, c, sa, sc, casei, true, i) =~= inner_from(x, c, sa, sc, casei, true, i)
            + inner_from(y, c, sa, sc, casei, true, 0),
    decreases (x + y).len() - i,
{
    if i < x.len() {
        assert((x + y)[i] == x[i]);
        lemma_inner_concat(x, y, c, sa, sc, casei, i + 1);
    } else {
        lemma_inner_shift(x, y, c, sa, sc, casei, 0);
        assert(inner_from(x, c, sa, sc, casei, true, i) =~= Seq::<Seq<Seq<u8>>>::empty());
    }
}

proof fn lemma_inner_shift(
    x: Seq<Seq<Seq<u8>>>,
    y: Seq<Seq<Seq<u8>>>,
    c: Seq<Seq<Seq<u8>>>,
    sa: Seq<int>,
    sc: Seq<int>,
    casei: bool,
    j: int,
)
    requires
        0 <= j <= y.len(),
    ensures
        inner_from(x + y, c, sa, sc, casei, true, x.len() + j) =~= inner_from(
            y,
            c,
            sa,
            sc,
            casei,
            true,
            j,
        ),
    decreases y.len() - j,
{
    if j < y.len() {
        assert((x + y)[x.len() + j] == y[j]);
        lemma_inner_shift(x, y, c, sa, sc, casei, j + 1);
    }
}

/// Joining one left row of the multi-way join against inputs two and
/// three equals joining its two-way matches against input three.
proof fn lemma_join_level_mid(
    acc: Seq<Seq<u8>>,
    kb: Seq<Seq<u8>>,
    tables: Seq<Seq<Seq<Seq<u8>>>>,
    sels: Seq<Seq<int>>,
    casei: bool,
    j: int,
)
    requires
        tables.len() == 3,
        sels.len() == 3,
        0 <= j,
        crate::select::positions_in_width(sels[0], acc.len() as int),
        jb(acc, sels[0], casei) == kb,
    ensures
        join_level(acc, crate::sort::kv(kb, false), tables, sels, casei, false, false, 1, j)
            =~= inner_from(
            matches_from(acc, tables[1], sels[1], casei, kb, j),
            tables[2],
            sels[0],
            sels[2],
            casei,
            true,
            0,
        ),
    decreases tables[1].len() - j,
{
    let k = crate::sort::kv(kb, false);
    if j < 0 || j >= tables[1].len() {
        assert(matches_from(acc, tables[1], sels[1], casei, kb, j) =~= Seq::<Seq<Seq<u8>>>::empty());
    } else {
        lemma_join_level_mid(acc, kb, tables, sels, casei, j + 1);
        let bj = tables[1][j];
        assert(crate::multijoin::jkey(bj, sels[1], casei, false) == k <==> jb(bj, sels[1], casei)
            == kb);
        if jb(bj, sels[1], casei) == kb {
            lemma_join_level_last(acc + bj, kb, tables, sels, casei, 0);
            lemma_key_of_concat(acc, bj, sels[0], casei);
            let single = seq![acc + bj];
            let rest = matches_from(acc, tables[1], sels[1], casei, kb, j + 1);
            lemma_inner_concat(single, rest, tables[2], sels[0], sels[2], casei, 0);
            assert(inner_from(single, tables[2], sels[0], sels[2], casei, true, 0)
                =~= matches_from(acc + bj, tables[2], sels[2], casei, kb, 0)) by {
                assert(single[0] == acc + bj);
                assert(inner_from(single, tables[2], sels[0], sels[2], casei, true, 1) =~= Seq::<
                    Seq<Seq<u8>>,
                >::empty());
            }
            assert(matches_from(acc, tables[1], sels[1], casei, kb, j) =~= single + rest);
        }
    }
}

/// The multi-way walk of a sorted left input with nulls kept: no key
/// is skipped and no key is out of order, so the scan is the plain
/// fold of the joined rows.
proof fn lemma_scan_fold(
    tables: Seq<Seq<Seq<Seq<u8>>>>,
    sels: Seq<Seq<int>>,
    casei: bool,
    i: int,
    tmp: Option<Seq<Seq<u8>>>,
)
    requires
        tables.len() == 3,
        sels.len() == 3,
        0 <= i,
        forall|q: int|
            0 <= q < tables[0].len() - 1 ==> !order_violated(
                jb(#[trigger] tables[0][q], sels[0], casei),
                jb(tables[0][q + 1], sels[0], casei),
                false,
                true,
            ),
        tmp is Some && i < tables[0].len() ==> !order_violated(
            tmp->0,
            jb(tables[0][i], sels[0], casei),
            false,
            true,
        ),
    ensures
        mj_scan(tables, sels, casei, false, true, false, true, i, tmp) == Result::<
            Seq<Seq<Seq<u8>>>,
            JoinError,
        >::Ok(mj_plain(tables, sels, casei, i)),
    decreases tables[0].len() - i,
{
    if 0 <= i < tables[0].len() {
        let kb = jb(tables[0][i], sels[0], casei);
        if i < tables[0].len() - 1 {
            assert(!order_violated(
                jb(tables[0][i], sels[0], casei),
                jb(tables[0][i + 1], sels[0], casei),
                false,
                true,
            ));
        }
        lemma_scan_fold(tables, sels, casei, i + 1, Option::Some(kb));
    }
}

/// The joined rows of every left row in turn.
pub open spec fn mj_plain(
    tables: Seq<Seq<Seq<Seq<u8>>>>,
    sels: Seq<Seq<int>>,
    casei: bool,
    i: int,
) -> Seq<Seq<Seq<u8>>>
    decreases tables[0].len() - i,
{
    if i < 0 || i >= tables[0].len() {
        seq![]
    } else {
        join_level(
            tables[0][i],
            crate::sort::kv(row_key_spec(sels[0], tables[0][i], casei), false),
            tables,
            sels,
            casei,
            false,
            false,
            1,
            0,
        ) + mj_plain(tables, sels, casei, i + 1)
    }
}

/// Join associativity over sorted inputs: with byte keys, nulls kept
/// and no uniqueness filter, the three-way join of a left input whose
/// keys stand in ascending order equals joining the two-way join of
/// the first two inputs against the third on the same key columns.
/// The byte-keyed form is the one the two joins share: the multi-way
/// join under its numeric flag matches keys by value while the two-way
/// join always matches bytes, and its uniqueness filter has no
/// two-way counterpart, so the law is stated where both sides mean
/// the same join.
pub proof fn lemma_multijoin_associative(
    a: Seq<Seq<Seq<u8>>>,
    b: Seq<Seq<Seq<u8>>>,
    c: Seq<Seq<Seq<u8>>>,
    sa: Seq<int>,
    sb: Seq<int>,
    sc: Seq<int>,
    casei: bool,
)
    requires
        forall|i: int|
            0 <= i < a.len() ==> crate::select::positions_in_width(
                sa,
                (#[trigger] a[i]).len() as int,
            ),
        forall|q: int|
            0 <= q < a.len() - 1 ==> !order_violated(
                jb(#[trigger] a[q], sa, casei),
                jb(a[q + 1], sa, casei),
                false,
                true,
            ),
    ensures
        multijoin_data_spec(seq![a, b, c], seq![sa, sb, sc], casei, false, true, false, true)
            == Result::<Seq<Seq<Seq<u8>>>, JoinError>::Ok(
            inner_from(inner_from(a, b, sa, sb, casei, true, 0), c, sa, sc, casei, true, 0),
        ),
{
    let tables = seq![a, b, c];
    let sels = seq![sa, sb, sc];
    assert(tables[0] == a);
    assert(sels[0] == sa);
    lemma_scan_fold(tables, sels, casei, 0, Option::None);
    lemma_assoc_fold(a, b, c, sa, sb, sc, casei, 0);
}

/// The fold of the three-way join from row `i` equals the two-way join
/// of the remaining left rows joined on against the third input.
proof fn lemma_assoc_fold(
    a: Seq<Seq<Seq<u8>>>,
    b: Seq<Seq<Seq<u8>>>,
    c: Seq<Seq<Seq<u8>>>,
    sa: Seq<int>,
    sb: Seq<int>,
    sc: Seq<int>,
    casei: bool,
    i: int,
)
    requires
        0 <= i,
        forall|q: int|
            0 <= q < a.len() ==> crate::select::positions_in_width(
                sa,
                (#[trigger] a[q]).len() as int,
            ),
    ensures
        mj_plain(seq![a, b, c], seq![sa, sb, sc], casei, i) =~= inner_from(
            inner_from(a, b, sa, sb, casei, true, i),
            c,
            sa,
            sc,
            casei,
            true,
            0,
        ),
    decreases a.len() - i,
{
    let tables = seq![a, b, c];
    let sels = seq![sa, sb, sc];
    assert(tables[0] == a && tables[1] == b && tables[2] == c);
    assert(sels[0] == sa && sels[1] == sb && sels[2] == sc);
    if 0 <= i < a.len() {
        lemma_assoc_fold(a, b, c, sa, sb, sc, casei, i + 1);
        let kb = jb(a[i], sa, casei);
        lemma_join_level_mid(a[i], kb, tables, sels, casei, 0);
        let x = matches_from(a[i], b, sb, casei, kb, 0);
        let rest = inner_from(a, b, sa, sb, casei, true, i + 1);
        lemma_inner_concat(x, rest, c, sa, sc, casei, 0);
        assert(inner_from(a, b, sa, sb, casei, true, i) =~= x + rest);
    } else {
        assert(inner_from(a, b, sa, sb, casei, true, i) =~= Seq::<Seq<Seq<u8>>>::empty());
    }
}

/// Appends `arow + b[j]` for every right row from `j` whose key is
/// `akey`, returning how many matched.
#[verifier::rlimit(100)]
fn push_matches(
    arow: &Vec<Vec<u8>>,
    b: &Vec<Vec<Vec<u8>>>,
    sb: &Selection,
    casei: bool,
    akey: &Vec<Vec<u8>>,
    out: &mut Vec<Vec<Vec<u8>>>,
) -> (n: usize)
    requires
        forall|j: int|
            0 <= j < b.deep_view().len() ==> sb.valid_for((#[trigger] b.deep_view()[j]).len() as int),
    ensures
        final(out).deep_view() == old(out).deep_view() + matches_from(
            arow.deep_view(),
            b.deep_view(),
            sb@,
            casei,
            akey.deep_view(),
            0,
        ),
        n as int == matches_from(
            arow.deep_view(),
            b.deep_view(),
            sb@,
            casei,
            akey.deep_view(),
            0,
        ).len(),
{
    let ghost bv = b.deep_view();
    let ghost base = out.deep_view();
    let ghost akv = akey.deep_view();
    let ghost arv = arow.deep_view();
    let mut n: usize = 0;
    let mut j: usize = 0;
    while j < b.len()
        invariant
            0 <= j <= b@.len(),
            bv == b.deep_view(),
            bv.len() == b@.len(),
            akv == akey.deep_view(),
            arv == arow.deep_view(),
            forall|q: int| 0 <= q < bv.len() ==> sb.valid_for((#[trigger] bv[q]).len() as int),
            out.deep_view().len() == base.len() + n,
            n <= j,
            forall|q: int| 0 <= q < base.len() ==> #[trigger] out.deep_view()[q] == base[q],
            out.deep_view().skip(base.len() as int) + matches_from(arv, bv, sb@, casei, akv, j as int)
                =~= matches_from(arv, bv, sb@, casei, akv, 0),
        decreases b@.len() - j,
    {
        proof {
            assert(bv[j as int] == b@[j as int].deep_view());
            assert(b@[j as int].deep_view().len() == b@[j as int]@.len());
        }
        let bkey = get_row_key(sb, &b[j], casei);
        let eq = match keys_cmp(&bkey, akey) {
            core::cmp::Ordering::Equal => true,
            _ => false,
        };
        proof {
            assert(eq == (jb(bv[j as int], sb@, casei) == akv));
        }
        if eq {
            let joined = concat_rows(arow, &b[j]);
            let ghost prev = out.deep_view();
            let ghost jv = joined.deep_view();
            out.push(joined);
            n += 1;
            proof {
                assert(out.deep_view() =~~= prev.push(jv));
                assert(matches_from(arv, bv, sb@, casei, akv, j as int) =~= seq![arv + bv[j as int]]
                    + matches_from(arv, bv, sb@, casei, akv, j + 1));
                assert(out.deep_view().skip(base.len() as int) + matches_from(
                    arv,
                    bv,
                    sb@,
                    casei,
                    akv,
                    j + 1,
                ) =~= matches_from(arv, bv, sb@, casei, akv, 0));
            }
        } else {
            proof {
                assert(matches_from(arv, bv, sb@, casei, akv, j as int) =~= matches_from(
                    arv,
                    bv,
                    sb@,
                    casei,
                    akv,
                    j + 1,
                ));
            }
        }
        j += 1;
    }
    proof {
        assert(matches_from(arv, bv, sb@, casei, akv, bv.len() as int) =~= Seq::<
            Seq<Seq<u8>>,
        >::empty());
        assert(out.deep_view() =~= base + matches_from(arv, bv, sb@, casei, akv, 0));
    }
    n
}

/// Appends one row padded with `w` empty fields on the right (or on
/// the left, when `pad_left` is set).
fn push_padded(row: &Vec<Vec<u8>>, w: usize, pad_left: bool, out: &mut Vec<Vec<Vec<u8>>>)
    ensures
        final(out).deep_view() == old(out).deep_view().push(
            if pad_left {
                empty_fields(w as int) + row.deep_view()
            } else {
                row.deep_view() + empty_fields(w as int)
            },
        ),
{
    let mut pad: Vec<Vec<u8>> = Vec::new();
    let mut z: usize = 0;
    while z < w
        invariant
            0 <= z <= w,
            pad.deep_view() =~= empty_fields(z as int),
        decreases w - z,
    {
        let f: Vec<u8> = Vec::new();
        let ghost prev = pad.deep_view();
        pad.push(f);
        proof {
            assert(pad.deep_view() =~~= prev.push(Seq::<u8>::empty()));
            assert(pad.deep_view() =~= empty_fields(z + 1));
        }
        z += 1;
    }
    let joined = if pad_left {
        concat_rows(&pad, row)
    } else {
        concat_rows(row, &pad)
    };
    let ghost prev = out.deep_view();
    let ghost jv = joined.deep_view();
    out.push(joined);
    proof {
        assert(out.deep_view() =~~= prev.push(jv));
    }
}

/// Joins two inputs by mode: for each left row its key-equal right
/// rows (outer modes padding the unmatched side), or the full cross
/// product; under headers the two headers come first, side by side.
#[verifier::rlimit(100)]
pub fn join(
    ta: &Vec<Vec<Vec<u8>>>,
    tb: &Vec<Vec<Vec<u8>>>,
    ea: &Vec<u8>,
    eb: &Vec<u8>,
    headers: bool,
    casei: bool,
    nulls: bool,
    mode: JoinMode,
) -> (r: Result<Vec<Vec<Vec<u8>>>, JoinError>)
    requires
        crate::multijoin::uniform_width(seq![ta.deep_view(), tb.deep_view()]),
    ensures
        ({
            let spec_r = join_spec(
                ta.deep_view(),
                tb.deep_view(),
                ea@,
                eb@,
                headers,
                casei,
                nulls,
                mode,
            );
            match r {
                Result::Ok(out) => spec_r == Result::<Seq<Seq<Seq<u8>>>, JoinError>::Ok(
                    out.deep_view(),
                ),
                Result::Err(e) => spec_r == Result::<Seq<Seq<Seq<u8>>>, JoinError>::Err(e),
            }
        }),
{
    let ghost tav = ta.deep_view();
    let ghost tbv = tb.deep_view();
    proof {
        assert(seq![tav, tbv][0] == tav);
        assert(seq![tav, tbv][1] == tbv);
    }
    // Compile the two selections (the cross join needs none).
    let empty_header: Vec<Vec<u8>> = Vec::new();
    let mut sa = Selection { positions: Vec::new() };
    let mut sb = Selection { positions: Vec::new() };
    let is_cross = match mode {
        JoinMode::Cross => true,
        _ => false,
    };
    if !is_cross {
        let sar = if ta.len() > 0 {
            proof {
                assert(tav[0] == ta@[0].deep_view());
            }
            selection(ea, &ta[0], headers)
        } else {
            proof {
                assert(empty_header.deep_view() =~= header_row(tav));
            }
            selection(ea, &empty_header, headers)
        };
        sa = match sar {
            Result::Err(e) => {
                return Err(JoinError::Select(e));
            },
            Result::Ok(s) => s,
        };
        let sbr = if tb.len() > 0 {
            proof {
                assert(tbv[0] == tb@[0].deep_view());
            }
            selection(eb, &tb[0], headers)
        } else {
            proof {
                assert(empty_header.deep_view() =~= header_row(tbv));
            }
            selection(eb, &empty_header, headers)
        };
        sb = match sbr {
            Result::Err(e) => {
                return Err(JoinError::Select(e));
            },
            Result::Ok(s) => s,
        };
        if sa.len() != sb.len() {
            return Err(JoinError::SelectionMismatch);
        }
    }
    let astart: usize = if headers && ta.len() > 0 {
        1
    } else {
        0
    };
    let bstart: usize = if headers && tb.len() > 0 {
        1
    } else {
        0
    };
    let a = clone_rows_from(ta, astart);
    let b = clone_rows_from(tb, bstart);
    let ghost av = data_of(tav, headers);
    let ghost bv = data_of(tbv, headers);
    proof {
        assert(a.deep_view() =~= av);
        assert(b.deep_view() =~= bv);
        if !is_cross {
            assert forall|j: int| 0 <= j < bv.len() implies sb.valid_for(
                (#[trigger] bv[j]).len() as int,
            ) by {
                assert(bv[j].len() == header_row(tbv).len());
            }
            assert forall|j: int| 0 <= j < av.len() implies sa.valid_for(
                (#[trigger] av[j]).len() as int,
            ) by {
                assert(av[j].len() == header_row(tav).len());
            }
        }
    }
    let aw = if ta.len() > 0 {
        ta[0].len()
    } else {
        0
    };
    let bw = if tb.len() > 0 {
        tb[0].len()
    } else {
        0
    };
    proof {
        if ta@.len() > 0 {
            assert(tav[0] == ta@[0].deep_view());
        }
        if tb@.len() > 0 {
            assert(tbv[0] == tb@[0].deep_view());
        }
        assert(aw as int == header_row(tav).len());
        assert(bw as int == header_row(tbv).len());
    }
    let mut out: Vec<Vec<Vec<u8>>> = Vec::new();
    if headers {
        let ha = if ta.len() > 0 {
            clone_row(&ta[0])
        } else {
            Vec::new()
        };
        let hb = if tb.len() > 0 {
            clone_row(&tb[0])
        } else {
            Vec::new()
        };
        let hd = concat_rows(&ha, &hb);
        let ghost hv = hd.deep_view();
        out.push(hd);
        proof {
            assert(hv =~= header_row(tav) + header_row(tbv));
            assert(out.deep_view() =~~= Seq::<Seq<Seq<u8>>>::empty().push(
                header_row(tav) + header_row(tbv),
            ));
        }
    }
    let ghost base = out.deep_view();
    let ghost sav = sa@;
    let ghost sbv = sb@;
    match mode {
        JoinMode::Cross => {
            let mut i: usize = 0;
            while i < a.len()
                invariant
                    0 <= i <= a@.len(),
                    av == a.deep_view(),
                    bv == b.deep_view(),
                    av.len() == a@.len(),
                    bv.len() == b@.len(),
                    out.deep_view().skip(base.len() as int) + cross_from(av, bv, i as int)
                        =~= cross_from(av, bv, 0),
                    out.deep_view().len() >= base.len(),
                    forall|q: int| 0 <= q < base.len() ==> #[trigger] out.deep_view()[q] == base[q],
                decreases a@.len() - i,
            {
                proof {
                    assert(av[i as int] == a@[i as int].deep_view());
                }
                let mut j: usize = 0;
                while j < b.len()
                    invariant
                        0 <= j <= b@.len(),
                        0 <= i < a@.len(),
                        av == a.deep_view(),
                        bv == b.deep_view(),
                        av.len() == a@.len(),
                        bv.len() == b@.len(),
                        av[i as int] == a@[i as int].deep_view(),
                        out.deep_view().skip(base.len() as int) + cross_one(
                            av[i as int],
                            bv,
                            j as int,
                        ) + cross_from(av, bv, i + 1) =~= cross_from(av, bv, 0),
                        out.deep_view().len() >= base.len(),
                        forall|q: int|
                            0 <= q < base.len() ==> #[trigger] out.deep_view()[q] == base[q],
                    decreases b@.len() - j,
                {
                    let joined = concat_rows(&a[i], &b[j]);
                    let ghost prev = out.deep_view();
                    let ghost jv = joined.deep_view();
                    out.push(joined);
                    proof {
                        assert(out.deep_view() =~~= prev.push(jv));
                        assert(bv[j as int] == b@[j as int].deep_view());
                        assert(cross_one(av[i as int], bv, j as int) =~= seq![
                            av[i as int] + bv[j as int],
                        ] + cross_one(av[i as int], bv, j + 1));
                        assert(out.deep_view().skip(base.len() as int) + cross_one(
                            av[i as int],
                            bv,
                            j + 1,
                        ) + cross_from(av, bv, i + 1) =~= cross_from(av, bv, 0));
                    }
                    j += 1;
                }
                proof {
                    assert(cross_one(av[i as int], bv, bv.len() as int) =~= Seq::<
                        Seq<Seq<u8>>,
                    >::empty());
                    assert(cross_from(av, bv, i as int) =~= cross_one(av[i as int], bv, 0)
                        + cross_from(av, bv, i + 1));
                    assert(out.deep_view().skip(base.len() as int) + cross_from(av, bv, i + 1)
                        =~= cross_from(av, bv, 0));
                }
                i += 1;
            }
            proof {
                assert(cross_from(av, bv, av.len() as int) =~= Seq::<Seq<Seq<u8>>>::empty());
                assert(out.deep_view() =~= base + cross_from(av, bv, 0));
            }
            Ok(out)
        },
        _ => {
            let is_right = match mode {
                JoinMode::Right => true,
                _ => false,
            };
            if !is_right {
                // Inner, left-outer, and the left half of the full join.
                let pad_missing = match mode {
                    JoinMode::Left | JoinMode::Full => true,
                    _ => false,
                };
                let mut i: usize = 0;
                while i < a.len()
                    invariant
                        0 <= i <= a@.len(),
                        av == a.deep_view(),
                        bv == b.deep_view(),
                        av.len() == a@.len(),
                        bv.len() == b@.len(),
                        sav == sa@,
                        sbv == sb@,
                        bw as int == header_row(tbv).len(),
                        forall|q: int|
                            0 <= q < bv.len() ==> sb.valid_for((#[trigger] bv[q]).len() as int),
                        forall|q: int|
                            0 <= q < av.len() ==> sa.valid_for((#[trigger] av[q]).len() as int),
                        !pad_missing ==> out.deep_view().skip(base.len() as int) + inner_from(
                            av,
                            bv,
                            sav,
                            sbv,
                            casei,
                            nulls,
                            i as int,
                        ) =~= inner_from(av, bv, sav, sbv, casei, nulls, 0),
                        pad_missing ==> out.deep_view().skip(base.len() as int) + left_from(
                            av,
                            bv,
                            sav,
                            sbv,
                            casei,
                            nulls,
                            bw as int,
                            i as int,
                        ) =~= left_from(av, bv, sav, sbv, casei, nulls, bw as int, 0),
                        out.deep_view().len() >= base.len(),
                        forall|q: int|
                            0 <= q < base.len() ==> #[trigger] out.deep_view()[q] == base[q],
                    decreases a@.len() - i,
                {
                    proof {
                        assert(av[i as int] == a@[i as int].deep_view());
                        assert(a@[i as int].deep_view().len() == a@[i as int]@.len());
                    }
                    let akey = get_row_key(&sa, &a[i], casei);
                    let hn = crate::terasort::has_null_key(&akey);
                    proof {
                        assert(hn == key_has_null(av[i as int], sav, casei)) by {
                            assert(akey.deep_view().len() == sav.len());
                        }
                    }
                    let keyok = nulls || !hn;
                    let mut nmatches: usize = 0;
                    if keyok {
                        nmatches = push_matches(&a[i], &b, &sb, casei, &akey, &mut out);
                    }
                    if pad_missing && (!keyok || nmatches == 0) {
                        push_padded(&a[i], bw, false, &mut out);
                    }
                    proof {
                        if !pad_missing {
                            assert(inner_from(av, bv, sav, sbv, casei, nulls, i as int) =~= (if nulls
                                || !key_has_null(av[i as int], sav, casei) {
                                matches_from(
                                    av[i as int],
                                    bv,
                                    sbv,
                                    casei,
                                    jb(av[i as int], sav, casei),
                                    0,
                                )
                            } else {
                                Seq::<Seq<Seq<u8>>>::empty()
                            }) + inner_from(av, bv, sav, sbv, casei, nulls, i + 1));
                            assert(out.deep_view().skip(base.len() as int) + inner_from(
                                av,
                                bv,
                                sav,
                                sbv,
                                casei,
                                nulls,
                                i + 1,
                            ) =~= inner_from(av, bv, sav, sbv, casei, nulls, 0));
                        } else {
                            assert(out.deep_view().skip(base.len() as int) + left_from(
                                av,
                                bv,
                                sav,
                                sbv,
                                casei,
                                nulls,
                                bw as int,
                                i + 1,
                            ) =~= left_from(av, bv, sav, sbv, casei, nulls, bw as int, 0));
                        }
                    }
                    i += 1;
                }
                proof {
                    assert(inner_from(av, bv, sav, sbv, casei, nulls, av.len() as int) =~= Seq::<
                        Seq<Seq<u8>>,
                    >::empty());
                    assert(left_from(av, bv, sav, sbv, casei, nulls, bw as int, av.len() as int)
                        =~= Seq::<Seq<Seq<u8>>>::empty());
                }
            }
            // The right side: all of the right join, or the unmatched
            // right rows closing the full join.
            let wants_right = match mode {
                JoinMode::Right | JoinMode::Full => true,
                _ => false,
            };
            let only_unmatched = match mode {
                JoinMode::Full => true,
                _ => false,
            };
            if wants_right {
                let ghost rbase = out.deep_view();
                let mut i: usize = 0;
                while i < b.len()
                    invariant
                        0 <= i <= b@.len(),
                        av == a.deep_view(),
                        bv == b.deep_view(),
                        av.len() == a@.len(),
                        bv.len() == b@.len(),
                        sav == sa@,
                        sbv == sb@,
                        aw as int == header_row(tav).len(),
                        forall|q: int|
                            0 <= q < bv.len() ==> sb.valid_for((#[trigger] bv[q]).len() as int),
                        forall|q: int|
                            0 <= q < av.len() ==> sa.valid_for((#[trigger] av[q]).len() as int),
                        !only_unmatched ==> out.deep_view().skip(rbase.len() as int) + right_from(
                            av,
                            bv,
                            sav,
                            sbv,
                            casei,
                            nulls,
                            aw as int,
                            i as int,
                        ) =~= right_from(av, bv, sav, sbv, casei, nulls, aw as int, 0),
                        only_unmatched ==> out.deep_view().skip(rbase.len() as int)
                            + right_unmatched(av, bv, sav, sbv, casei, nulls, aw as int, i as int)
                            =~= right_unmatched(av, bv, sav, sbv, casei, nulls, aw as int, 0),
                        out.deep_view().len() >= rbase.len(),
                        forall|q: int|
                            0 <= q < rbase.len() ==> #[trigger] out.deep_view()[q] == rbase[q],
                    decreases b@.len() - i,
                {
                    proof {
                        assert(bv[i as int] == b@[i as int].deep_view());
                        assert(b@[i as int].deep_view().len() == b@[i as int]@.len());
                    }
                    let bkey = get_row_key(&sb, &b[i], casei);
                    let hn = crate::terasort::has_null_key(&bkey);
                    proof {
                        assert(hn == key_has_null(bv[i as int], sbv, casei)) by {
                            assert(bkey.deep_view().len() == sbv.len());
                        }
                    }
                    let keyok = nulls || !hn;
                    // Count (and, for the right join, emit) the matches.
                    let mut nmatches: usize = 0;
                    let ghost rv = right_from(av, bv, sav, sbv, casei, nulls, aw as int, i as int);
                    if keyok {
                        let ghost mbase = out.deep_view();
                        let mut j: usize = 0;
                        while j < a.len()
                            invariant
                                0 <= j <= a@.len(),
                                0 <= i < b@.len(),
                                av == a.deep_view(),
                                bv == b.deep_view(),
                                av.len() == a@.len(),
                                bv.len() == b@.len(),
                                sav == sa@,
                                sbv == sb@,
                                bv[i as int] == b@[i as int].deep_view(),
                                bkey.deep_view() == jb(bv[i as int], sbv, casei),
                                nmatches <= j,
                                forall|q: int|
                                    0 <= q < av.len() ==> sa.valid_for(
                                        (#[trigger] av[q]).len() as int,
                                    ),
                                nmatches as int + rmatches_from(
                                    bv[i as int],
                                    av,
                                    sav,
                                    casei,
                                    jb(bv[i as int], sbv, casei),
                                    j as int,
                                ).len() == rmatches_from(
                                    bv[i as int],
                                    av,
                                    sav,
                                    casei,
                                    jb(bv[i as int], sbv, casei),
                                    0,
                                ).len(),
                                only_unmatched ==> out.deep_view() == mbase,
                                !only_unmatched ==> out.deep_view().skip(mbase.len() as int)
                                    + rmatches_from(
                                    bv[i as int],
                                    av,
                                    sav,
                                    casei,
                                    jb(bv[i as int], sbv, casei),
                                    j as int,
                                ) =~= rmatches_from(
                                    bv[i as int],
                                    av,
                                    sav,
                                    casei,
                                    jb(bv[i as int], sbv, casei),
                                    0,
                                ),
                                out.deep_view().len() >= mbase.len(),
                                forall|q: int|
                                    0 <= q < mbase.len() ==> #[trigger] out.deep_view()[q]
                                        == mbase[q],
                            decreases a@.len() - j,
                        {
                            proof {
                                assert(av[j as int] == a@[j as int].deep_view());
                                assert(a@[j as int].deep_view().len() == a@[j as int]@.len());
                            }
                            let jkey = get_row_key(&sa, &a[j], casei);
                            let eq = match keys_cmp(&jkey, &bkey) {
                                core::cmp::Ordering::Equal => true,
                                _ => false,
                            };
                            proof {
                                assert(eq == (jb(av[j as int], sav, casei) == jb(
                                    bv[i as int],
                                    sbv,
                                    casei,
                                )));
                            }
                            if eq {
                                nmatches += 1;
                                if !only_unmatched {
                                    let joined = concat_rows(&a[j], &b[i]);
                                    let ghost prev = out.deep_view();
                                    let ghost jv = joined.deep_view();
                                    out.push(joined);
                                    proof {
                                        assert(out.deep_view() =~~= prev.push(jv));
                                    }
                                }
                            }
                            proof {
                                let bk = jb(bv[i as int], sbv, casei);
                                assert(rmatches_from(bv[i as int], av, sav, casei, bk, j as int)
                                    =~= (if jb(av[j as int], sav, casei) == bk {
                                    seq![av[j as int] + bv[i as int]]
                                } else {
                                    Seq::<Seq<Seq<u8>>>::empty()
                                }) + rmatches_from(bv[i as int], av, sav, casei, bk, j + 1));
                                if !only_unmatched {
                                    assert(out.deep_view().skip(mbase.len() as int)
                                        + rmatches_from(bv[i as int], av, sav, casei, bk, j + 1)
                                        =~= rmatches_from(bv[i as int], av, sav, casei, bk, 0));
                                }
                            }
                            j += 1;
                        }
                        proof {
                            assert(rmatches_from(
                                bv[i as int],
                                av,
                                sav,
                                casei,
                                jb(bv[i as int], sbv, casei),
                                av.len() as int,
                            ) =~= Seq::<Seq<Seq<u8>>>::empty());
                        }
                    }
                    if (!keyok || nmatches == 0) {
                        push_padded(&b[i], aw, true, &mut out);
                    }
                    proof {
                        if !only_unmatched {
                            assert(out.deep_view().skip(rbase.len() as int) + right_from(
                                av,
                                bv,
                                sav,
                                sbv,
                                casei,
                                nulls,
                                aw as int,
                                i + 1,
                            ) =~= right_from(av, bv, sav, sbv, casei, nulls, aw as int, 0));
                        } else {
                            assert(out.deep_view().skip(rbase.len() as int) + right_unmatched(
                                av,
                                bv,
                                sav,
                                sbv,
                                casei,
                                nulls,
                                aw as int,
                                i + 1,
                            ) =~= right_unmatched(av, bv, sav, sbv, casei, nulls, aw as int, 0));
                        }
                    }
                    i += 1;
                }
                proof {
                    assert(right_from(av, bv, sav, sbv, casei, nulls, aw as int, bv.len() as int)
                        =~= Seq::<Seq<Seq<u8>>>::empty());
                    assert(right_unmatched(
                        av,
                        bv,
                        sav,
                        sbv,
                        casei,
                        nulls,
                        aw as int,
                        bv.len() as int,
                    ) =~= Seq::<Seq<Seq<u8>>>::empty());
                }
            }
            proof {
                assert(out.deep_view() =~= base + join_body_spec(
                    av,
                    bv,
                    sav,
                    sbv,
                    casei,
                    nulls,
                    aw as int,
                    bw as int,
                    mode,
                ));
            }
            Ok(out)
        },
    }
}

} // verus!
