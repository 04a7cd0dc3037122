//! In-memory sorting of rows: each data row is paired with its sort
//! key — the selected fields, raw bytes or parsed decimals — and its
//! position, pairs are ordered totally (position breaking ties), and a
//! quicksort over the pairs pins the output down as the one sorted
//! permutation.
use vstd::prelude::*;
use vstd::relations::{sorted_by, total_ordering};
use vstd::multiset::Multiset;
use vstd::seq_lib::lemma_sorted_unique;
use crate::common::{key_lt, lemma_key_lt_trichotomy, lemma_key_lt_transitive, clone_row,
    lemma_fields_deep_view, cmp_key};
use crate::num::{NumV, numval_lt, parsed_key, lemma_numval_trichotomy, lemma_numval_transitive,
    lemma_numkey_is_numval};
use crate::select::{Selection, apply_selection, positions_in_width};

verus! {

/// A sort key as the comparators see it: the selected fields as bytes,
/// or, under numeric mode, each parsed as a decimal number.
pub ghost enum KeyV {
    Str(Seq<Seq<u8>>),
    Num(Seq<Option<NumV>>),
}

/// What a key of raw fields stands for under the comparison mode.
pub open spec fn kv(k: Seq<Seq<u8>>, numeric: bool) -> KeyV {
    if numeric {
        KeyV::Num(parsed_key(k))
    } else {
        KeyV::Str(k)
    }
}

/// Strict order on sort keys: byte order between byte keys, decimal
/// value order between numeric keys.
pub open spec fn keyv_lt(a: KeyV, b: KeyV) -> bool {
    match (a, b) {
        (KeyV::Str(x), KeyV::Str(y)) => key_lt(x, y),
        (KeyV::Num(x), KeyV::Num(y)) => numval_lt(x, y),
        (KeyV::Str(_), KeyV::Num(_)) => true,
        (KeyV::Num(_), KeyV::Str(_)) => false,
    }
}

/// The total order the sorts use: by key, the original position
/// breaking ties.
pub open spec fn pair_leq(a: (KeyV, int), b: (KeyV, int)) -> bool {
    keyv_lt(a.0, b.0) || (a.0 == b.0 && a.1 <= b.1)
}

/// The ascending order on key/position pairs.
pub open spec fn asc_leq() -> spec_fn((KeyV, int), (KeyV, int)) -> bool {
    |a: (KeyV, int), b: (KeyV, int)| pair_leq(a, b)
}

/// The descending order: the ascending order flipped, ties included.
pub open spec fn desc_leq() -> spec_fn((KeyV, int), (KeyV, int)) -> bool {
    |a: (KeyV, int), b: (KeyV, int)| pair_leq(b, a)
}

/// The order a sort runs under, by its `reverse` flag.
pub open spec fn chosen_leq(reverse: bool) -> spec_fn((KeyV, int), (KeyV, int)) -> bool {
    if reverse {
        desc_leq()
    } else {
        asc_leq()
    }
}

pub proof fn lemma_keyv_trichotomy(a: KeyV, b: KeyV)
    ensures
        keyv_lt(a, b) || a == b || keyv_lt(b, a),
        keyv_lt(a, b) ==> !(a == b) && !keyv_lt(b, a),
        a == b ==> !keyv_lt(a, b) && !keyv_lt(b, a),
{
    match (a, b) {
        (KeyV::Str(x), KeyV::Str(y)) => {
            lemma_key_lt_trichotomy(x, y);
        },
        (KeyV::Num(x), KeyV::Num(y)) => {
            lemma_numval_trichotomy(x, y);
        },
        _ => {},
    }
}

pub proof fn lemma_keyv_transitive(a: KeyV, b: KeyV, c: KeyV)
    requires
        keyv_lt(a, b),
        keyv_lt(b, c),
    ensures
        keyv_lt(a, c),
{
    match (a, b, c) {
        (KeyV::Str(x), KeyV::Str(y), KeyV::Str(z)) => {
            lemma_key_lt_transitive(x, y, z);
        },
        (KeyV::Num(x), KeyV::Num(y), KeyV::Num(z)) => {
            lemma_numval_transitive(x, y, z);
        },
        _ => {},
    }
}

pub proof fn lemma_pair_leq_total(a: (KeyV, int), b: (KeyV, int), c: (KeyV, int))
    ensures
        pair_leq(a, b) || pair_leq(b, a),
        pair_leq(a, b) && pair_leq(b, a) ==> a == b,
        pair_leq(a, b) && pair_leq(b, c) ==> pair_leq(a, c),
        pair_leq(a, a),
{
    lemma_keyv_trichotomy(a.0, b.0);
    lemma_keyv_trichotomy(b.0, c.0);
    lemma_keyv_trichotomy(a.0, c.0);
    lemma_keyv_trichotomy(a.0, a.0);
    if keyv_lt(a.0, b.0) && keyv_lt(b.0, c.0) {
        lemma_keyv_transitive(a.0, b.0, c.0);
    }
}

/// Both orders the sorts use are total orders.
pub proof fn lemma_orders_total()
    ensures
        total_ordering(asc_leq()),
        total_ordering(desc_leq()),
{
    assert forall|a: (KeyV, int)| #[trigger] asc_leq()(a, a) by {
        lemma_pair_leq_total(a, a, a);
    }
    assert forall|a: (KeyV, int)| #[trigger] desc_leq()(a, a) by {
        lemma_pair_leq_total(a, a, a);
    }
    assert forall|a: (KeyV, int), b: (KeyV, int)|
        #![trigger asc_leq()(a, b), asc_leq()(b, a)]
        asc_leq()(a, b) && asc_leq()(b, a) implies a == b by {
        lemma_pair_leq_total(a, b, a);
    }
    assert forall|a: (KeyV, int), b: (KeyV, int)|
        #![trigger desc_leq()(a, b), desc_leq()(b, a)]
        desc_leq()(a, b) && desc_leq()(b, a) implies a == b by {
        lemma_pair_leq_total(a, b, a);
    }
    assert forall|a: (KeyV, int), b: (KeyV, int), c: (KeyV, int)|
        #![trigger asc_leq()(a, b), asc_leq()(b, c)]
        asc_leq()(a, b) && asc_leq()(b, c) implies asc_leq()(a, c) by {
        lemma_pair_leq_total(a, b, c);
    }
    assert forall|a: (KeyV, int), b: (KeyV, int), c: (KeyV, int)|
        #![trigger desc_leq()(a, b), desc_leq()(b, c)]
        desc_leq()(a, b) && desc_leq()(b, c) implies desc_leq()(a, c) by {
        lemma_pair_leq_total(c, b, a);
    }
    assert forall|a: (KeyV, int), b: (KeyV, int)| true implies #[trigger] asc_leq()(a, b)
        || asc_leq()(b, a) by {
        lemma_pair_leq_total(a, b, a);
    }
    assert forall|a: (KeyV, int), b: (KeyV, int)| true implies #[trigger] desc_leq()(a, b)
        || desc_leq()(b, a) by {
        lemma_pair_leq_total(a, b, a);
    }
}

/// The view of a list of key/position pairs under the comparison mode.
pub open spec fn pairs_view(s: Seq<(Vec<Vec<u8>>, usize)>, numeric: bool) -> Seq<(KeyV, int)> {
    s.map_values(|p: (Vec<Vec<u8>>, usize)| (kv(p.0.deep_view(), numeric), p.1 as int))
}

/// Whether `a` comes no later than `b` under the chosen order.
fn pair_before(a: &(Vec<Vec<u8>>, usize), b: &(Vec<Vec<u8>>, usize), numeric: bool, reverse: bool)
    -> (r: bool)
    ensures
        r == chosen_leq(reverse)(
            (kv(a.0.deep_view(), numeric), a.1 as int),
            (kv(b.0.deep_view(), numeric), b.1 as int),
        ),
{
    proof {
        lemma_numkey_is_numval(a.0.deep_view(), b.0.deep_view());
        lemma_numkey_is_numval(b.0.deep_view(), a.0.deep_view());
    }
    let (x, y) = if reverse {
        (b, a)
    } else {
        (a, b)
    };
    match cmp_key(&x.0, &y.0, numeric) {
        core::cmp::Ordering::Less => true,
        core::cmp::Ordering::Greater => false,
        core::cmp::Ordering::Equal => x.1 <= y.1,
    }
}

/// Splits the pairs around the last one: those at or before the pivot
/// under the chosen order, and those strictly after it.
pub fn compare_partition(v: Vec<(Vec<Vec<u8>>, usize)>, numeric: bool, reverse: bool) -> (r: (
    (Vec<Vec<u8>>, usize),
    Vec<(Vec<Vec<u8>>, usize)>,
    Vec<(Vec<Vec<u8>>, usize)>,
))
    requires
        v@.len() >= 1,
    ensures
        ({
            let (pivot, left, right) = r;
            let pivv = (kv(pivot.0.deep_view(), numeric), pivot.1 as int);
            let leq = chosen_leq(reverse);
            &&& left@.len() < v@.len()
            &&& right@.len() < v@.len()
            &&& pairs_view(left@, numeric).to_multiset().add(
                pairs_view(right@, numeric).to_multiset(),
            ).insert(pivv) =~= pairs_view(v@, numeric).to_multiset()
            &&& forall|i: int|
                0 <= i < left@.len() ==> leq(#[trigger] pairs_view(left@, numeric)[i], pivv)
            &&& forall|i: int|
                0 <= i < right@.len() ==> leq(pivv, #[trigger] pairs_view(right@, numeric)[i])
                    && pairs_view(right@, numeric)[i] != pivv
        }),
{
    broadcast use vstd::seq_lib::group_to_multiset_ensures;
    broadcast use vstd::multiset::group_multiset_axioms;

    let mut v = v;
    let ghost orig = pairs_view(v@, numeric);
    let pivot = v.pop().unwrap();
    let ghost pivv = (kv(pivot.0.deep_view(), numeric), pivot.1 as int);
    proof {
        assert(pairs_view(v@, numeric) =~= orig.drop_last());
        assert(orig =~= orig.drop_last().push(pivv));
        vstd::seq_lib::to_multiset_build(orig.drop_last(), pivv);
        assert(orig.to_multiset() =~= pairs_view(v@, numeric).to_multiset().insert(pivv));
    }
    let mut left: Vec<(Vec<Vec<u8>>, usize)> = Vec::new();
    let mut right: Vec<(Vec<Vec<u8>>, usize)> = Vec::new();
    while v.len() > 0
        invariant
            pivv == (kv(pivot.0.deep_view(), numeric), pivot.1 as int),
            pairs_view(left@, numeric).to_multiset().add(
                pairs_view(right@, numeric).to_multiset(),
            ).add(pairs_view(v@, numeric).to_multiset()) =~= orig.drop_last().to_multiset(),
            orig.to_multiset() =~= orig.drop_last().to_multiset().insert(pivv),
            forall|i: int|
                0 <= i < left@.len() ==> chosen_leq(reverse)(
                    #[trigger] pairs_view(left@, numeric)[i],
                    pivv,
                ),
            forall|i: int|
                0 <= i < right@.len() ==> chosen_leq(reverse)(
                    pivv,
                    #[trigger] pairs_view(right@, numeric)[i],
                ) && pairs_view(right@, numeric)[i] != pivv,
            left@.len() + right@.len() + v@.len() == orig.len() - 1,
        decreases v@.len(),
    {
        let ghost pre = pairs_view(v@, numeric);
        let x = v.pop().unwrap();
        let ghost xv = (kv(x.0.deep_view(), numeric), x.1 as int);
        proof {
            assert(pairs_view(v@, numeric) =~= pre.drop_last());
            assert(pre =~= pre.drop_last().push(xv));
            vstd::seq_lib::to_multiset_build(pre.drop_last(), xv);
            assert(pre.to_multiset() =~= pre.drop_last().to_multiset().insert(xv));
        }
        if pair_before(&x, &pivot, numeric, reverse) {
            let ghost lpre = pairs_view(left@, numeric);
            left.push(x);
            proof {
                assert(pairs_view(left@, numeric) =~= lpre.push(xv));
                vstd::seq_lib::to_multiset_build(lpre, xv);
                assert(lpre.to_multiset().insert(xv).add(
                    pairs_view(right@, numeric).to_multiset(),
                ).add(pairs_view(v@, numeric).to_multiset()) =~= lpre.to_multiset().add(
                    pairs_view(right@, numeric).to_multiset(),
                ).add(pairs_view(v@, numeric).to_multiset().insert(xv)));
            }
        } else {
            proof {
                lemma_pair_leq_total(xv, pivv, pivv);
                lemma_pair_leq_total(pivv, xv, pivv);
            }
            let ghost rpre = pairs_view(right@, numeric);
            right.push(x);
            proof {
                assert(pairs_view(right@, numeric) =~= rpre.push(xv));
                vstd::seq_lib::to_multiset_build(rpre, xv);
                assert(pairs_view(left@, numeric).to_multiset().add(
                    rpre.to_multiset().insert(xv),
                ).add(pairs_view(v@, numeric).to_multiset()) =~= pairs_view(
                    left@,
                    numeric,
                ).to_multiset().add(rpre.to_multiset()).add(
                    pairs_view(v@, numeric).to_multiset().insert(xv),
                ));
            }
        }
    }
    proof {
        assert(pairs_view(v@, numeric).to_multiset().len() == 0);
        assert(pairs_view(v@, numeric).to_multiset() =~= Multiset::empty());
    }
    (pivot, left, right)
}

/// Sorts key/position pairs by the chosen order. The result is the one
/// sorted permutation of the input, `Seq::sort_by` of its view.
pub fn quick_sort(v: Vec<(Vec<Vec<u8>>, usize)>, numeric: bool, reverse: bool) -> (r: Vec<(
    Vec<Vec<u8>>,
    usize,
)>)
    ensures
        pairs_view(r@, numeric) == pairs_view(v@, numeric).sort_by(chosen_leq(reverse)),
    decreases v@.len(),
{
    broadcast use vstd::seq_lib::group_to_multiset_ensures;
    broadcast use vstd::multiset::group_multiset_axioms;

    let ghost leq = chosen_leq(reverse);
    let ghost origview = pairs_view(v@, numeric);
    proof {
        lemma_orders_total();
        origview.lemma_sort_by_ensures(leq);
    }
    if v.len() <= 1 {
        proof {
            assert(sorted_by(origview, leq));
            lemma_sorted_unique(origview, origview.sort_by(leq), leq);
        }
        return v;
    }
    let (pivot, left, right) = compare_partition(v, numeric, reverse);
    let ghost pivv = (kv(pivot.0.deep_view(), numeric), pivot.1 as int);
    let ghost leftview = pairs_view(left@, numeric);
    let ghost rightview = pairs_view(right@, numeric);
    let mut ls = quick_sort(left, numeric, reverse);
    let mut rs = quick_sort(right, numeric, reverse);
    proof {
        leftview.lemma_sort_by_ensures(leq);
        rightview.lemma_sort_by_ensures(leq);
    }
    let ghost lsv = pairs_view(ls@, numeric);
    let ghost rsv = pairs_view(rs@, numeric);
    let ghost lslen = ls@.len() as int;
    ls.push(pivot);
    proof {
        assert(pairs_view(ls@, numeric) =~= lsv.push(pivv));
    }
    let ghost midv = pairs_view(ls@, numeric);
    ls.append(&mut rs);
    proof {
        assert(pairs_view(ls@, numeric) =~= midv + rsv);
        let out = pairs_view(ls@, numeric);
        assert(out =~= lsv + seq![pivv] + rsv);
        // Every element of the sorted halves keeps its relation to the pivot.
        assert forall|i: int| 0 <= i < lsv.len() implies leq(#[trigger] lsv[i], pivv) by {
            assert(lsv.to_multiset().count(lsv[i]) > 0);
            assert(leftview.to_multiset().contains(lsv[i]));
            let j = choose|j: int| 0 <= j < leftview.len() && leftview[j] == lsv[i];
            assert(leq(leftview[j], pivv));
        }
        assert forall|i: int| 0 <= i < rsv.len() implies leq(pivv, #[trigger] rsv[i]) by {
            assert(rsv.to_multiset().count(rsv[i]) > 0);
            assert(rightview.to_multiset().contains(rsv[i]));
            let j = choose|j: int| 0 <= j < rightview.len() && rightview[j] == rsv[i];
            assert(leq(pivv, rightview[j]));
        }
        assert forall|i: int, j: int| 0 <= i < j < out.len() implies leq(out[i], out[j]) by {
            let a = out[i];
            let b = out[j];
            if i < lsv.len() && j < lsv.len() {
            } else if i < lsv.len() && j == lsv.len() {
            } else if i < lsv.len() {
                if reverse {
                    lemma_pair_leq_total(rsv[j - lsv.len() - 1], pivv, lsv[i]);
                } else {
                    lemma_pair_leq_total(lsv[i], pivv, rsv[j - lsv.len() - 1]);
                }
            } else if i == lsv.len() {
            } else {
            }
        }
        assert(sorted_by(out, leq));
        // And the whole is a permutation of the input.
        assert(out.to_multiset() =~= (lsv + seq![pivv]).to_multiset().add(rsv.to_multiset())) by {
            vstd::seq_lib::lemma_multiset_commutative(lsv + seq![pivv], rsv);
        }
        assert((lsv + seq![pivv]).to_multiset() =~= lsv.to_multiset().insert(pivv)) by {
            assert(lsv + seq![pivv] =~= lsv.push(pivv));
        }
        assert(out.to_multiset() =~= leftview.to_multiset().add(rightview.to_multiset()).insert(
            pivv,
        ));
        assert(out.to_multiset() =~= origview.to_multiset());
        lemma_sorted_unique(out, origview.sort_by(leq), leq);
    }
    ls
}

/// The sort key of one row: its selected fields, under the mode.
pub open spec fn plain_key(row: Seq<Seq<u8>>, sel: Seq<int>, numeric: bool) -> KeyV {
    kv(apply_selection(sel, row), numeric)
}

/// Each data row paired with its key and its position.
pub open spec fn row_pairs(data: Seq<Seq<Seq<u8>>>, sel: Seq<int>, numeric: bool) -> Seq<
    (KeyV, int),
> {
    Seq::new(data.len(), |i: int| (plain_key(data[i], sel, numeric), i))
}

/// What sorting the data rows returns: the rows reordered by the one
/// sorted permutation of their key/position pairs.
pub open spec fn sort_data_spec(
    data: Seq<Seq<Seq<u8>>>,
    sel: Seq<int>,
    numeric: bool,
    reverse: bool,
) -> Seq<Seq<Seq<u8>>> {
    row_pairs(data, sel, numeric).sort_by(chosen_leq(reverse)).map_values(
        |p: (KeyV, int)| data[p.1],
    )
}

/// What the sort command returns: the header row kept first when
/// headers are on, the data rows sorted.
pub open spec fn sort_rows_spec(
    rows: Seq<Seq<Seq<u8>>>,
    sel: Seq<int>,
    numeric: bool,
    reverse: bool,
    headers: bool,
) -> Seq<Seq<Seq<u8>>> {
    if headers && rows.len() > 0 {
        seq![rows[0]] + sort_data_spec(rows.drop_first(), sel, numeric, reverse)
    } else {
        sort_data_spec(rows, sel, numeric, reverse)
    }
}

/// Positions inside a sorted pair list all point into the data.
pub proof fn lemma_sorted_positions(data: Seq<Seq<Seq<u8>>>, sel: Seq<int>, numeric: bool, reverse: bool)
    ensures
        forall|j: int|
            0 <= j < row_pairs(data, sel, numeric).sort_by(chosen_leq(reverse)).len() ==> 0 <= (
            #[trigger] row_pairs(data, sel, numeric).sort_by(chosen_leq(reverse))[j]).1
                < data.len(),
        row_pairs(data, sel, numeric).sort_by(chosen_leq(reverse)).len() == data.len(),
{
    let pairs = row_pairs(data, sel, numeric);
    let leq = chosen_leq(reverse);
    lemma_orders_total();
    pairs.lemma_sort_by_ensures(leq);
    broadcast use vstd::seq_lib::group_to_multiset_ensures;

    assert(pairs.sort_by(leq).to_multiset().len() == pairs.to_multiset().len());
    assert forall|j: int| 0 <= j < pairs.sort_by(leq).len() implies 0 <= (#[trigger] pairs.sort_by(
        leq,
    )[j]).1 < data.len() by {
        let x = pairs.sort_by(leq)[j];
        assert(pairs.sort_by(leq).contains(x));
        assert(pairs.contains(x));
        let i = choose|i: int| 0 <= i < pairs.len() && pairs[i] == x;
        assert(pairs[i].1 == i);
    }
}

/// Sorts the rows by the selected columns: under `headers` the first
/// row stays first, and the data rows are reordered into key order —
/// bytewise or numeric, ascending or descending — with ties keeping
/// (or, descending, reversing) their input order.
pub fn sort_rows(
    rows: &Vec<Vec<Vec<u8>>>,
    sel: &Selection,
    numeric: bool,
    reverse: bool,
    headers: bool,
) -> (out: Vec<Vec<Vec<u8>>>)
    requires
        forall|i: int|
            0 <= i < rows.deep_view().len() ==> sel.valid_for(
                (#[trigger] rows.deep_view()[i]).len() as int,
            ),
    ensures
        out.deep_view() == sort_rows_spec(rows.deep_view(), sel@, numeric, reverse, headers),
{
    let start: usize = if headers && rows.len() > 0 {
        1
    } else {
        0
    };
    let ghost data = if headers && rows.deep_view().len() > 0 {
        rows.deep_view().drop_first()
    } else {
        rows.deep_view()
    };
    proof {
        assert(data.len() == rows@.len() - start);
        assert forall|j: int| 0 <= j < data.len() implies #[trigger] data[j] == rows.deep_view()[
            start + j
        ] by {}
    }
    let mut pairs: Vec<(Vec<Vec<u8>>, usize)> = Vec::new();
    let mut i: usize = start;
    while i < rows.len()
        invariant
            start <= i <= rows@.len(),
            start <= 1,
            rows.deep_view().len() == rows@.len(),
            data.len() == rows@.len() - start,
            forall|j: int| 0 <= j < data.len() ==> #[trigger] data[j] == rows.deep_view()[start + j],
            forall|k: int|
                0 <= k < rows.deep_view().len() ==> sel.valid_for(
                    (#[trigger] rows.deep_view()[k]).len() as int,
                ),
            pairs@.len() == i - start,
            forall|j: int|
                0 <= j < pairs@.len() ==> #[trigger] pairs_view(pairs@, numeric)[j] == (
                plain_key(data[j], sel@, numeric), j as int),
        decreases rows@.len() - i,
    {
        proof {
            assert(rows.deep_view()[i as int] == rows@[i as int].deep_view());
            assert(rows@[i as int].deep_view().len() == rows@[i as int]@.len());
        }
        let key = sel.select(&rows[i]);
        let ghost prev = pairs@;
        pairs.push((key, i - start));
        proof {
            assert(pairs_view(pairs@, numeric) =~= pairs_view(prev, numeric).push(
                (kv(key.deep_view(), numeric), (i - start) as int),
            ));
        }
        i += 1;
    }
    proof {
        assert(pairs_view(pairs@, numeric) =~= row_pairs(data, sel@, numeric));
    }
    let sorted = quick_sort(pairs, numeric, reverse);
    let ghost sortedv = row_pairs(data, sel@, numeric).sort_by(chosen_leq(reverse));
    proof {
        lemma_sorted_positions(data, sel@, numeric, reverse);
    }
    let mut out: Vec<Vec<Vec<u8>>> = Vec::new();
    if start == 1 {
        let hd = clone_row(&rows[0]);
        let ghost prev = out.deep_view();
        out.push(hd);
        proof {
            assert(out.deep_view() =~~= prev.push(rows.deep_view()[0]));
        }
    }
    let mut j: usize = 0;
    while j < sorted.len()
        invariant
            0 <= j <= sorted@.len(),
            start <= 1,
            rows.deep_view().len() == rows@.len(),
            data.len() == rows@.len() - start,
            forall|k: int| 0 <= k < data.len() ==> #[trigger] data[k] == rows.deep_view()[start + k],
            pairs_view(sorted@, numeric) == sortedv,
            sorted@.len() == sortedv.len(),
            sortedv.len() == data.len(),
            forall|k: int| 0 <= k < sortedv.len() ==> 0 <= (#[trigger] sortedv[k]).1 < data.len(),
            out.deep_view().len() == start + j,
            start == 1 ==> out.deep_view()[0] == rows.deep_view()[0],
            forall|k: int|
                0 <= k < j ==> #[trigger] out.deep_view()[start + k] == data[sortedv[k].1],
        decreases sorted@.len() - j,
    {
        proof {
            assert(pairs_view(sorted@, numeric)[j as int].1 == sorted@[j as int].1 as int);
        }
        let idx = sorted[j].1;
        let row = clone_row(&rows[start + idx]);
        let ghost prev = out.deep_view();
        let ghost rv = row.deep_view();
        out.push(row);
        proof {
            assert(out.deep_view() =~~= prev.push(rv));
            assert(rows.deep_view()[start + idx] == rows@[(start + idx) as int].deep_view());
        }
        j += 1;
    }
    proof {
        let spec_out = sort_rows_spec(rows.deep_view(), sel@, numeric, reverse, headers);
        assert(spec_out.len() == start + sortedv.len());
        assert forall|t: int| 0 <= t < out.deep_view().len() implies out.deep_view()[t]
            == spec_out[t] by {
            if t >= start {
                let k = t - start;
                assert(out.deep_view()[start + k] == data[sortedv[k].1]);
                assert(sortedv.map_values(|p: (KeyV, int)| data[p.1])[k] == data[sortedv[k].1]);
            }
        }
        assert(out.deep_view() =~= spec_out);
    }
    out
}

/// Three-way lexicographic comparison of two rows, field by field in
/// byte order.
pub fn iter_cmp(a: &Vec<Vec<u8>>, b: &Vec<Vec<u8>>) -> (r: core::cmp::Ordering)
    ensures
        (r == core::cmp::Ordering::Less) == key_lt(a.deep_view(), b.deep_view()),
        (r == core::cmp::Ordering::Equal) == (a.deep_view() == b.deep_view()),
        (r == core::cmp::Ordering::Greater) == key_lt(b.deep_view(), a.deep_view()),
{
    crate::common::keys_cmp(a, b)
}

/// Sort determinism: the sorted output is a function of the rows, the
/// selection and the flags alone, so two runs on equal inputs with
/// equal flags return equal outputs.
pub proof fn lemma_sort_determinism(
    out1: Seq<Seq<Seq<u8>>>,
    out2: Seq<Seq<Seq<u8>>>,
    rows: Seq<Seq<Seq<u8>>>,
    sel: Seq<int>,
    numeric: bool,
    reverse: bool,
    headers: bool,
)
    requires
        out1 == sort_rows_spec(rows, sel, numeric, reverse, headers),
        out2 == sort_rows_spec(rows, sel, numeric, reverse, headers),
    ensures
        out1 == out2,
{
}

/// Sort idempotence: data whose keys already stand in ascending order
/// comes back from the ascending sort unchanged.
pub proof fn lemma_sort_idempotence(data: Seq<Seq<Seq<u8>>>, sel: Seq<int>, numeric: bool)
    requires
        forall|i: int|
            0 <= i < data.len() - 1 ==> !keyv_lt(
                plain_key(#[trigger] data[i + 1], sel, numeric),
                plain_key(data[i], sel, numeric),
            ),
    ensures
        sort_data_spec(data, sel, numeric, false) == data,
{
    let pairs = row_pairs(data, sel, numeric);
    let leq = chosen_leq(false);
    lemma_orders_total();
    assert forall|i: int, j: int| 0 <= i < j < pairs.len() implies leq(pairs[i], pairs[j]) by {
        lemma_key_chain(data, sel, numeric, i, j);
        lemma_keyv_trichotomy(plain_key(data[i], sel, numeric), plain_key(data[j], sel, numeric));
    }
    assert(sorted_by(pairs, leq));
    pairs.lemma_sort_by_ensures(leq);
    lemma_sorted_unique(pairs, pairs.sort_by(leq), leq);
    assert(pairs.sort_by(leq).map_values(|p: (KeyV, int)| data[p.1]) =~= data);
}

/// Along already-ordered data, no later key is below an earlier one.
proof fn lemma_key_chain(data: Seq<Seq<Seq<u8>>>, sel: Seq<int>, numeric: bool, i: int, j: int)
    requires
        forall|k: int|
            0 <= k < data.len() - 1 ==> !keyv_lt(
                plain_key(#[trigger] data[k + 1], sel, numeric),
                plain_key(data[k], sel, numeric),
            ),
        0 <= i <= j < data.len(),
    ensures
        !keyv_lt(plain_key(data[j], sel, numeric), plain_key(data[i], sel, numeric)),
    decreases j - i,
{
    if i < j {
        lemma_key_chain(data, sel, numeric, i, j - 1);
        let ki = plain_key(data[i], sel, numeric);
        let km = plain_key(data[j - 1], sel, numeric);
        let kj = plain_key(data[j], sel, numeric);
        assert(!keyv_lt(plain_key(data[(j - 1) + 1], sel, numeric), plain_key(data[j - 1], sel, numeric)));
        assert(data[(j - 1) + 1] == data[j]);
        lemma_keyv_trichotomy(ki, km);
        lemma_keyv_trichotomy(km, kj);
        lemma_keyv_trichotomy(ki, kj);
        if keyv_lt(kj, ki) && keyv_lt(ki, km) {
            lemma_keyv_transitive(kj, ki, km);
        }
        if keyv_lt(kj, ki) && keyv_lt(km, kj) {
            lemma_keyv_transitive(km, kj, ki);
        }
    } else {
        lemma_keyv_trichotomy(plain_key(data[i], sel, numeric), plain_key(data[i], sel, numeric));
    }
}

} // verus!
