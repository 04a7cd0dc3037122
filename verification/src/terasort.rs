//! The external-memory sort: sample keys into a reservoir, derive
//! split points, scatter rows into shards by key, sort each shard, and
//! concatenate the shards in order. Whatever the sample turns out to
//! be, the concatenation equals one total sort of the kept rows.
use vstd::prelude::*;
use vstd::relations::sorted_by;
use vstd::multiset::Multiset;
use vstd::seq_lib::lemma_sorted_unique;
use crate::common::{row_key_spec, get_row_key, clone_row, cmp_key};
use crate::num::key_all_numeric;
use crate::select::Selection;
use crate::sort::{KeyV, kv, keyv_lt, chosen_leq, pairs_view, quick_sort,
    lemma_keyv_trichotomy, lemma_keyv_transitive, lemma_pair_leq_total, lemma_orders_total};
use crate::CliError;

verus! {

/// The little-endian bytes of a 64-bit seed, the form in which a seed
/// fills the head of an RNG seed block.
pub open spec fn u64_le_bytes(x: u64) -> Seq<u8> {
    seq![
        (x & 0xff) as u8,
        ((x >> 8) & 0xff) as u8,
        ((x >> 16) & 0xff) as u8,
        ((x >> 24) & 0xff) as u8,
        ((x >> 32) & 0xff) as u8,
        ((x >> 40) & 0xff) as u8,
        ((x >> 48) & 0xff) as u8,
        ((x >> 56) & 0xff) as u8,
    ]
}

/// Relies on byteorder's `LittleEndian::write_u64`: the eight bytes of
/// `x`, least significant first.
#[verifier::external_body]
fn write_u64_le(x: u64) -> (r: Vec<u8>)
    ensures
        r@ == u64_le_bytes(x),
{
    let mut buf = [0u8; 8];
    <byteorder::LittleEndian as byteorder::ByteOrder>::write_u64(&mut buf, x);
    buf.to_vec()
}

#[verifier::external_type_specification]
#[verifier::external_body]
pub struct ExStdRng(rand::rngs::StdRng);

/// Relies on rand's `SeedableRng::from_seed` for `StdRng`: builds the
/// generator from a 32-byte seed block.
#[verifier::external_body]
fn rng_from_seed(seed: &Vec<u8>) -> rand::rngs::StdRng
    requires
        seed@.len() == 32,
{
    let mut block = [0u8; 32];
    block.copy_from_slice(seed.as_slice());
    <rand::rngs::StdRng as rand::SeedableRng>::from_seed(block)
}

/// Relies on rand's `SeedableRng::from_rng` seeded from the thread
/// generator; nothing is promised of the outcome.
#[verifier::external_body]
fn rng_from_entropy() -> rand::rngs::StdRng {
    <rand::rngs::StdRng as rand::SeedableRng>::from_rng(&mut rand::rng())
}

/// Relies on rand's `RngExt::random_range` over `0..bound`: some value
/// below `bound`, and nothing more.
#[verifier::external_body]
fn rng_below(rng: &mut rand::rngs::StdRng, bound: u64) -> (r: u64)
    requires
        bound > 0,
    ensures
        r < bound,
{
    rand::RngExt::random_range(rng, 0..bound)
}

/// Builds the generator the sort samples with: seeded from the 64-bit
/// seed when one is given (the seed's little-endian bytes head a
/// 32-byte block), from entropy otherwise.
pub fn make_sample_rng(seed: Option<u64>) -> rand::rngs::StdRng {
    match seed {
        Option::Some(s) => {
            let mut buf = write_u64_le(s);
            let mut i: usize = 0;
            while i < 24
                invariant
                    i <= 24,
                    buf@.len() == 8 + i,
                decreases 24 - i,
            {
                buf.push(0);
                i += 1;
            }
            rng_from_seed(&buf)
        },
        Option::None => rng_from_entropy(),
    }
}

/// The sample's provenance: slot `j` of the sample holds the key of
/// input row `src[j]`, the source rows pairwise distinct — so the
/// sample counts no input key more often than the input holds it.
pub open spec fn sample_sources(src: Seq<int>, r: Seq<Seq<Seq<u8>>>, keys: Seq<Seq<Seq<u8>>>) -> bool {
    &&& src.len() == r.len()
    &&& src.no_duplicates()
    &&& forall|j: int| 0 <= j < src.len() ==> 0 <= #[trigger] src[j] < keys.len()
    &&& forall|j: int| 0 <= j < src.len() ==> #[trigger] r[j] == keys[src[j]]
}

/// A reservoir sample of the keys: `size` of them (all, when fewer),
/// each slot filled from its own input row.
pub fn sample_reservoir(
    keys: &Vec<Vec<Vec<u8>>>,
    size: usize,
    rng: &mut rand::rngs::StdRng,
) -> (r: Vec<Vec<Vec<u8>>>)
    requires
        size > 0,
    ensures
        r@.len() == if size <= keys@.len() {
            size as int
        } else {
            keys@.len() as int
        },
        exists|src: Seq<int>| #[trigger] sample_sources(src, r.deep_view(), keys.deep_view()),
{
    let mut reservoir: Vec<Vec<Vec<u8>>> = Vec::new();
    let ghost mut src: Seq<int> = Seq::empty();
    let mut i: usize = 0;
    let n = keys.len();
    while i < n && i < size
        invariant
            0 <= i <= n,
            n == keys@.len(),
            i <= size,
            reservoir@.len() == i,
            src.len() == i,
            forall|j: int| 0 <= j < src.len() ==> 0 <= #[trigger] src[j] < i,
            src.no_duplicates(),
            forall|j: int|
                0 <= j < src.len() ==> #[trigger] reservoir.deep_view()[j] == keys.deep_view()[
                    src[j]
                ],
        decreases n - i,
    {
        let key = clone_row(&keys[i]);
        let ghost prev = reservoir.deep_view();
        let ghost kvw = key.deep_view();
        reservoir.push(key);
        proof {
            src = src.push(i as int);
            assert(reservoir.deep_view() =~~= prev.push(kvw));
            assert(keys.deep_view()[i as int] == keys@[i as int].deep_view());
            assert forall|j: int|
                0 <= j < src.len() implies #[trigger] reservoir.deep_view()[j]
                == keys.deep_view()[src[j]] by {
                if j < prev.len() {
                    assert(src[j] == src.drop_last()[j]);
                }
            }
        }
        i += 1;
    }
    while i < n
        invariant
            size <= i <= n || (i <= size && i == n),
            n == keys@.len(),
            size > 0,
            reservoir@.len() == if size <= n {
                size as int
            } else {
                n as int
            },
            src.len() == reservoir@.len(),
            forall|j: int| 0 <= j < src.len() ==> 0 <= #[trigger] src[j] < i,
            src.no_duplicates(),
            forall|j: int|
                0 <= j < src.len() ==> #[trigger] reservoir.deep_view()[j] == keys.deep_view()[
                    src[j]
                ],
        decreases n - i,
    {
        let random = rng_below(rng, (i as u64) + 1);
        if (random as usize) < size {
            let key = clone_row(&keys[i]);
            let ghost prev = reservoir.deep_view();
            let ghost prevsrc = src;
            reservoir.set(random as usize, key);
            proof {
                src = src.update(random as int, i as int);
                assert(reservoir.deep_view() =~~= prev.update(
                    random as int,
                    keys@[i as int].deep_view(),
                ));
                assert(keys.deep_view()[i as int] == keys@[i as int].deep_view());
                assert(src.no_duplicates()) by {
                    assert forall|a: int, b: int|
                        0 <= a < src.len() && 0 <= b < src.len() && a != b implies src[a] != src[
                        b] by {
                        if a != random as int && b != random as int {
                            assert(src[a] == prevsrc[a]);
                            assert(src[b] == prevsrc[b]);
                        } else if a == random as int {
                            assert(src[b] == prevsrc[b]);
                            assert(prevsrc[b] < i as int);
                        } else {
                            assert(src[a] == prevsrc[a]);
                            assert(prevsrc[a] < i as int);
                        }
                    }
                }
                assert forall|j: int|
                    0 <= j < src.len() implies #[trigger] reservoir.deep_view()[j]
                    == keys.deep_view()[src[j]] by {
                    if j != random as int {
                        assert(src[j] == prevsrc[j]);
                        assert(reservoir.deep_view()[j] == prev[j]);
                    }
                }
            }
        }
        i += 1;
    }
    proof {
        assert(sample_sources(src, reservoir.deep_view(), keys.deep_view()));
    }
    reservoir
}

/// The sample in the order the active comparator sorts it, ties kept
/// in input order.
pub open spec fn sorted_sample(sample: Seq<Seq<Seq<u8>>>, numeric: bool) -> Seq<Seq<Seq<u8>>> {
    key_pairs(sample, numeric).sort_by(chosen_leq(false)).map_values(
        |p: (KeyV, int)| sample[p.1],
    )
}

/// `s` with every element equal to its predecessor removed.
pub open spec fn dedup_keys(s: Seq<Seq<Seq<u8>>>) -> Seq<Seq<Seq<u8>>>
    decreases s.len(),
{
    if s.len() == 0 {
        seq![]
    } else if s.len() >= 2 && s.last() == s[s.len() - 2] {
        dedup_keys(s.drop_last())
    } else {
        dedup_keys(s.drop_last()).push(s.last())
    }
}

/// Where the `t`-th split point sits among the `dlen` deduplicated
/// keys split `m` ways: near the `t+1`-th quantile, the first half of
/// the remainder spread over the early points.
pub open spec fn split_index(dlen: int, m: int, t: int) -> int {
    (dlen / m) * (t + 1) + (if t < (dlen % m) / 2 {
        t
    } else {
        (dlen % m) / 2
    })
}

/// Removing equal neighbours keeps the order, the last element, and
/// at most the length.
proof fn lemma_dedup_facts(s: Seq<Seq<Seq<u8>>>, numeric: bool)
    requires
        forall|j: int|
            0 <= j < s.len() - 1 ==> !keyv_lt(kv(#[trigger] s[j + 1], numeric), kv(s[j], numeric)),
    ensures
        dedup_keys(s).len() <= s.len(),
        dedup_keys(s).len() > 0 <==> s.len() > 0,
        dedup_keys(s).len() > 0 ==> dedup_keys(s).last() == s.last(),
        forall|j: int|
            0 <= j < dedup_keys(s).len() - 1 ==> !keyv_lt(
                kv(#[trigger] dedup_keys(s)[j + 1], numeric),
                kv(dedup_keys(s)[j], numeric),
            ),
    decreases s.len(),
{
    if s.len() > 0 {
        let dl = s.drop_last();
        assert forall|j: int|
            0 <= j < dl.len() - 1 implies !keyv_lt(
            kv(#[trigger] dl[j + 1], numeric),
            kv(dl[j], numeric),
        ) by {
            assert(dl[j + 1] == s[j + 1]);
            assert(dl[j] == s[j]);
        }
        lemma_dedup_facts(dl, numeric);
        if !(s.len() >= 2 && s.last() == s[s.len() - 2]) {
            let dd = dedup_keys(s);
            assert(dd == dedup_keys(dl).push(s.last()));
            assert forall|j: int|
                0 <= j < dd.len() - 1 implies !keyv_lt(
                kv(#[trigger] dd[j + 1], numeric),
                kv(dd[j], numeric),
            ) by {
                if j + 1 < dd.len() - 1 {
                    assert(dd[j + 1] == dedup_keys(dl)[j + 1]);
                    assert(dd[j] == dedup_keys(dl)[j]);
                } else if dd.len() >= 2 {
                    assert(dd[j + 1] == s.last());
                    assert(dd[j] == dedup_keys(dl).last());
                    assert(dedup_keys(dl).last() == dl.last());
                    assert(dl.last() == s[s.len() - 2]);
                    assert(!keyv_lt(
                        kv(s[(s.len() - 2) + 1], numeric),
                        kv(s[s.len() - 2], numeric),
                    ));
                    assert(s[(s.len() - 2) + 1] == s[s.len() - 1]);
                }
            }
        }
    }
}

/// Along keys whose neighbours never descend, no later key is below an
/// earlier one.
proof fn lemma_keyv_chain(s: Seq<Seq<Seq<u8>>>, numeric: bool, i: int, j: int)
    requires
        forall|q: int|
            0 <= q < s.len() - 1 ==> !keyv_lt(kv(#[trigger] s[q + 1], numeric), kv(s[q], numeric)),
        0 <= i <= j < s.len(),
    ensures
        !keyv_lt(kv(s[j], numeric), kv(s[i], numeric)),
    decreases j - i,
{
    lemma_keyv_trichotomy(kv(s[i], numeric), kv(s[i], numeric));
    if i < j {
        lemma_keyv_chain(s, numeric, i, j - 1);
        assert(!keyv_lt(kv(s[(j - 1) + 1], numeric), kv(s[j - 1], numeric)));
        let ki = kv(s[i], numeric);
        let km = kv(s[j - 1], numeric);
        let kj = kv(s[j], numeric);
        lemma_keyv_trichotomy(ki, km);
        lemma_keyv_trichotomy(km, kj);
        lemma_keyv_trichotomy(ki, kj);
        if keyv_lt(kj, ki) && keyv_lt(ki, km) {
            lemma_keyv_transitive(kj, ki, km);
        }
        if keyv_lt(kj, ki) && keyv_lt(km, kj) {
            lemma_keyv_transitive(km, kj, ki);
        }
    }
}

/// Derives the split points, the sort-partition descriptor: the sample
/// is sorted by the active comparator, equal neighbours are removed,
/// the shard count is clamped to what remains, and one key is taken
/// near each quantile — so the points stand in comparator order, each
/// occurs in the sample, and one fewer points than shards come back.
#[verifier::rlimit(100)]
pub fn get_split_point(sample: Vec<Vec<Vec<u8>>>, splitnum: usize, numeric: bool) -> (r: Vec<
    Vec<Vec<u8>>,
>)
    requires
        splitnum > 0,
    ensures
        r@.len() < splitnum,
        ({
            let dd = dedup_keys(sorted_sample(sample.deep_view(), numeric));
            let m = if splitnum > dd.len() {
                dd.len() as int
            } else {
                splitnum as int
            };
            &&& r.deep_view().len() == if m > 0 {
                m - 1
            } else {
                0int
            }
            &&& forall|t: int|
                0 <= t < r.deep_view().len() ==> #[trigger] r.deep_view()[t] == dd[split_index(
                    dd.len() as int,
                    m,
                    t,
                )]
            &&& forall|t: int|
                0 <= t < r.deep_view().len() - 1 ==> !keyv_lt(
                    kv(#[trigger] r.deep_view()[t + 1], numeric),
                    kv(r.deep_view()[t], numeric),
                )
            &&& forall|t: int|
                0 <= t < r.deep_view().len() ==> exists|u: int|
                    0 <= u < sample.deep_view().len() && #[trigger] r.deep_view()[t]
                        == sample.deep_view()[u]
        }),
{
    broadcast use vstd::seq_lib::group_to_multiset_ensures;

    let ghost sampledv = sample.deep_view();
    let n = sample.len();
    // Pair each sample key with its position and sort the pairs.
    let mut pairs: Vec<(Vec<Vec<u8>>, usize)> = Vec::new();
    let mut i: usize = 0;
    while i < n
        invariant
            0 <= i <= n,
            n == sample@.len(),
            sampledv == sample.deep_view(),
            sampledv.len() == sample@.len(),
            pairs@.len() == i,
            forall|j: int|
                0 <= j < i ==> #[trigger] pairs_view(pairs@, numeric)[j] == key_pairs(
                    sampledv,
                    numeric,
                )[j],
        decreases n - i,
    {
        proof {
            assert(sampledv[i as int] == sample@[i as int].deep_view());
        }
        let key = clone_row(&sample[i]);
        let ghost prev = pairs@;
        pairs.push((key, i));
        proof {
            assert(pairs_view(pairs@, numeric) =~= pairs_view(prev, numeric).push(
                (kv(sampledv[i as int], numeric), i as int),
            ));
        }
        i += 1;
    }
    proof {
        assert(pairs_view(pairs@, numeric) =~= key_pairs(sampledv, numeric));
    }
    let sorted = quick_sort(pairs, numeric, false);
    let ghost sortedp = key_pairs(sampledv, numeric).sort_by(chosen_leq(false));
    let ghost ss = sorted_sample(sampledv, numeric);
    proof {
        lemma_orders_total();
        key_pairs(sampledv, numeric).lemma_sort_by_ensures(chosen_leq(false));
        assert(sortedp.to_multiset().len() == key_pairs(sampledv, numeric).to_multiset().len());
        assert forall|j: int| 0 <= j < sortedp.len() implies 0 <= (#[trigger] sortedp[j]).1
            < sampledv.len() && sortedp[j].0 == kv(sampledv[sortedp[j].1], numeric) by {
            assert(sortedp.contains(sortedp[j]));
            assert(key_pairs(sampledv, numeric).contains(sortedp[j]));
            let u = choose|u: int|
                0 <= u < key_pairs(sampledv, numeric).len() && key_pairs(sampledv, numeric)[u]
                    == sortedp[j];
            assert(key_pairs(sampledv, numeric)[u].1 == u);
        }
        // The sorted keys never descend neighbour to neighbour.
        assert forall|j: int|
            0 <= j < ss.len() - 1 implies !keyv_lt(
            kv(#[trigger] ss[j + 1], numeric),
            kv(ss[j], numeric),
        ) by {
            assert(ss[j] == sampledv[sortedp[j].1]);
            assert(ss[j + 1] == sampledv[sortedp[j + 1].1]);
            assert(chosen_leq(false)(sortedp[j], sortedp[j + 1]));
            lemma_keyv_trichotomy(sortedp[j].0, sortedp[j + 1].0);
        }
    }
    // Remove equal neighbours.
    let mut dedup: Vec<Vec<Vec<u8>>> = Vec::new();
    let mut k: usize = 0;
    while k < sorted.len()
        invariant
            0 <= k <= sorted@.len(),
            n == sample@.len(),
            sampledv == sample.deep_view(),
            sampledv.len() == sample@.len(),
            pairs_view(sorted@, numeric) == sortedp,
            sorted@.len() == sortedp.len(),
            ss == sorted_sample(sampledv, numeric),
            ss == sortedp.map_values(|p: (KeyV, int)| sampledv[p.1]),
            forall|j: int|
                0 <= j < sortedp.len() ==> 0 <= (#[trigger] sortedp[j]).1 < sampledv.len(),
            dedup.deep_view() =~= dedup_keys(ss.take(k as int)),
            forall|t: int|
                0 <= t < dedup.deep_view().len() ==> exists|u: int|
                    0 <= u < sampledv.len() && #[trigger] dedup.deep_view()[t] == sampledv[u],
        decreases sorted@.len() - k,
    {
        proof {
            assert(pairs_view(sorted@, numeric)[k as int].1 == sorted@[k as int].1 as int);
            if k > 0 {
                assert(pairs_view(sorted@, numeric)[k - 1].1 == sorted@[k - 1].1 as int);
            }
            assert(ss[k as int] == sampledv[sortedp[k as int].1]);
        }
        let pos = sorted[k].1;
        proof {
            assert(sampledv[pos as int] == sample@[pos as int].deep_view());
        }
        let keep = if k == 0 {
            true
        } else {
            let prev_pos = sorted[k - 1].1;
            proof {
                assert(ss[k - 1] == sampledv[sortedp[k - 1].1]);
                assert(sampledv[prev_pos as int] == sample@[prev_pos as int].deep_view());
            }
            match crate::common::keys_cmp(&sample[pos], &sample[prev_pos]) {
                core::cmp::Ordering::Equal => false,
                _ => true,
            }
        };
        proof {
            assert(ss.take(k + 1).drop_last() =~= ss.take(k as int));
            assert(ss.take(k + 1).last() == ss[k as int]);
            if k > 0 {
                assert(ss.take(k + 1)[k - 1] == ss[k - 1]);
            }
        }
        if keep {
            let ghost prev = dedup.deep_view();
            dedup.push(clone_row(&sample[pos]));
            proof {
                assert(dedup.deep_view() =~~= prev.push(sampledv[pos as int]));
                assert forall|t: int|
                    0 <= t < dedup.deep_view().len() implies exists|u: int|
                        0 <= u < sampledv.len() && #[trigger] dedup.deep_view()[t] == sampledv[
                    u] by {
                    if t < prev.len() {
                        let u0 = choose|u0: int|
                            0 <= u0 < sampledv.len() && prev[t] == sampledv[u0];
                        assert(dedup.deep_view()[t] == sampledv[u0]);
                    } else {
                        assert(dedup.deep_view()[t] == sampledv[pos as int]);
                    }
                }
            }
        }
        k += 1;
    }
    let ghost ddv = dedup_keys(ss);
    proof {
        assert(ss.take(sortedp.len() as int) =~= ss);
        assert(dedup.deep_view() =~= ddv);
        lemma_dedup_facts(ss, numeric);
    }
    let dlen = dedup.len();
    let split = if splitnum > dlen {
        dlen
    } else {
        splitnum
    };
    let mut points: Vec<Vec<Vec<u8>>> = Vec::new();
    if split == 0 {
        return points;
    }
    let p = dlen / split;
    let q = (dlen % split) / 2;
    proof {
        assert(p * split + (dlen % split) == dlen) by (nonlinear_arith)
            requires
                split > 0,
                p == dlen / split,
        ;
    }
    let mut m: usize = 0;
    let mut t: usize = 1;
    while t < split
        invariant
            1 <= t <= split <= dlen,
            dlen == dedup@.len(),
            sampledv == sample.deep_view(),
            ddv == dedup_keys(sorted_sample(sampledv, numeric)),
            dedup.deep_view() == ddv,
            ddv.len() == dlen as int,
            forall|j: int|
                0 <= j < ddv.len() - 1 ==> !keyv_lt(
                    kv(#[trigger] ddv[j + 1], numeric),
                    kv(ddv[j], numeric),
                ),
            forall|u: int|
                0 <= u < ddv.len() ==> exists|w: int|
                    0 <= w < sampledv.len() && #[trigger] ddv[u] == sampledv[w],
            points@.len() == t - 1,
            m == if t - 1 < q {
                t - 1
            } else {
                q as int
            },
            q == (dlen % split) / 2,
            p == dlen / split,
            p * split + (dlen % split) == dlen,
            forall|u: int|
                0 <= u < points.deep_view().len() ==> #[trigger] points.deep_view()[u] == ddv[
                    split_index(dlen as int, split as int, u)
                ],
            forall|u: int|
                0 <= u < points.deep_view().len() ==> split_index(dlen as int, split as int, u)
                    < ddv.len(),
        decreases split - t,
    {
        proof {
            assert(p * t + m < dlen) by (nonlinear_arith)
                requires
                    1 <= t < split,
                    p == dlen / split,
                    p * split + (dlen % split) == dlen,
                    0 <= m <= q,
                    q == (dlen % split) / 2,
                    split <= dlen,
            ;
            assert(dedup.deep_view()[(p * t + m) as int] == dedup@[(p * t + m) as int].deep_view());
            assert(split_index(dlen as int, split as int, t - 1) == p * t + m);
        }
        let ghost prev = points.deep_view();
        points.push(clone_row(&dedup[p * t + m]));
        proof {
            assert(points.deep_view() =~~= prev.push(ddv[(p * t + m) as int]));
        }
        if m < q {
            m += 1;
        }
        t += 1;
    }
    proof {
        assert forall|u: int|
            0 <= u < points.deep_view().len() - 1 implies !keyv_lt(
            kv(#[trigger] points.deep_view()[u + 1], numeric),
            kv(points.deep_view()[u], numeric),
        ) by {
            let a = split_index(dlen as int, split as int, u);
            let b = split_index(dlen as int, split as int, u + 1);
            assert(a <= b) by (nonlinear_arith)
                requires
                    a == split_index(dlen as int, split as int, u),
                    b == split_index(dlen as int, split as int, u + 1),
                    p == dlen / split,
                    q == (dlen % split) / 2,
                    p * split + (dlen % split) == dlen,
                    1 <= split <= dlen,
                    0 <= u,
            ;
            lemma_keyv_chain(ddv, numeric, a, b);
        }
        assert forall|u: int|
            0 <= u < points.deep_view().len() implies exists|w: int|
                0 <= w < sampledv.len() && #[trigger] points.deep_view()[u] == sampledv[w] by {
            let idx = split_index(dlen as int, split as int, u);
            let w0 = choose|w0: int| 0 <= w0 < sampledv.len() && ddv[idx] == sampledv[w0];
            assert(points.deep_view()[u] == sampledv[w0]);
        }
    }
    points
}

/// Whether some key field of `row` is empty after the transform; such
/// rows are dropped unless `--nulls` keeps them.
pub open spec fn key_has_null(row: Seq<Seq<u8>>, sel: Seq<int>, casei: bool) -> bool {
    exists|i: int|
        0 <= i < sel.len() && (#[trigger] row_key_spec(sel, row, casei)[i]).len() == 0
}

/// The rows the sort works on: all of them under `--nulls`, otherwise
/// those whose key has no empty field.
pub open spec fn kept_rows(
    data: Seq<Seq<Seq<u8>>>,
    sel: Seq<int>,
    casei: bool,
    nulls: bool,
) -> Seq<Seq<Seq<u8>>> {
    data.filter(keep_pred(sel, casei, nulls))
}

/// The sort key of one row: its selected fields transformed, under the
/// comparison mode.
pub open spec fn t_key(row: Seq<Seq<u8>>, sel: Seq<int>, casei: bool, numeric: bool) -> KeyV {
    kv(row_key_spec(sel, row, casei), numeric)
}

/// Each kept row paired with its key and position.
pub open spec fn t_pairs(
    data: Seq<Seq<Seq<u8>>>,
    sel: Seq<int>,
    casei: bool,
    numeric: bool,
) -> Seq<(KeyV, int)> {
    Seq::new(data.len(), |i: int| (t_key(data[i], sel, casei, numeric), i))
}

/// What the external sort computes of the data rows: the kept rows in
/// full key order.
pub open spec fn terasort_data_spec(
    data: Seq<Seq<Seq<u8>>>,
    sel: Seq<int>,
    casei: bool,
    nulls: bool,
    numeric: bool,
    reverse: bool,
) -> Seq<Seq<Seq<u8>>> {
    let kept = kept_rows(data, sel, casei, nulls);
    t_pairs(kept, sel, casei, numeric).sort_by(chosen_leq(reverse)).map_values(
        |p: (KeyV, int)| kept[p.1],
    )
}

/// The shard a key is routed to: the first split point the key does
/// not exceed, or the last shard.
pub open spec fn route(k: KeyV, points: Seq<KeyV>, j: int) -> int
    decreases points.len() - j,
{
    if j < 0 || j >= points.len() {
        points.len() as int
    } else if !keyv_lt(points[j], k) {
        j
    } else {
        route(k, points, j + 1)
    }
}

/// The predicate selecting the pairs of shard `s`.
pub open spec fn route_pred(points: Seq<KeyV>, s: int) -> spec_fn((KeyV, int)) -> bool {
    |p: (KeyV, int)| route(p.0, points, 0) == s
}

/// The split points as keys, under the comparison mode.
pub open spec fn points_view(points: Seq<Vec<Vec<u8>>>, numeric: bool) -> Seq<KeyV> {
    points.map_values(|p: Vec<Vec<u8>>| kv(p.deep_view(), numeric))
}

pub proof fn lemma_route_bounds(k: KeyV, points: Seq<KeyV>, j: int)
    requires
        0 <= j <= points.len(),
    ensures
        j <= route(k, points, j) <= points.len(),
    decreases points.len() - j,
{
    if j < points.len() && keyv_lt(points[j], k) {
        lemma_route_bounds(k, points, j + 1);
    }
}

/// Routing respects the key order: a smaller key never lands in a
/// later shard.
pub proof fn lemma_route_monotone(a: KeyV, b: KeyV, points: Seq<KeyV>, j: int)
    requires
        !keyv_lt(b, a),
        0 <= j <= points.len(),
    ensures
        route(a, points, j) <= route(b, points, j),
    decreases points.len() - j,
{
    if j < points.len() {
        lemma_keyv_trichotomy(a, b);
        lemma_keyv_trichotomy(points[j], a);
        if !keyv_lt(points[j], b) {
            if keyv_lt(points[j], a) {
                if keyv_lt(a, b) {
                    lemma_keyv_transitive(points[j], a, b);
                }
                assert(false);
            }
        } else {
            lemma_route_bounds(b, points, j + 1);
            if keyv_lt(points[j], a) {
                lemma_route_monotone(a, b, points, j + 1);
            } else {
                lemma_route_bounds(b, points, j + 1);
            }
        }
    }
}

/// The multiset of the pairs of shards `0, …, s-1`.
pub open spec fn sum_route_filters(pairs: Seq<(KeyV, int)>, points: Seq<KeyV>, s: int) -> Multiset<
    (KeyV, int),
>
    decreases s,
{
    if s <= 0 {
        Multiset::empty()
    } else {
        sum_route_filters(pairs, points, s - 1).add(
            pairs.filter(route_pred(points, s - 1)).to_multiset(),
        )
    }
}

proof fn lemma_sum_empty(points: Seq<KeyV>, s: int)
    ensures
        sum_route_filters(Seq::<(KeyV, int)>::empty(), points, s) =~= Multiset::empty(),
    decreases s,
{
    broadcast use vstd::seq_lib::group_to_multiset_ensures;
    broadcast use vstd::multiset::group_multiset_axioms;

    reveal(Seq::filter);
    if s > 0 {
        lemma_sum_empty(points, s - 1);
        assert(Seq::<(KeyV, int)>::empty().filter(route_pred(points, s - 1))
            =~= Seq::<(KeyV, int)>::empty());
        assert(Seq::<(KeyV, int)>::empty().to_multiset().len() == 0);
        assert(Seq::<(KeyV, int)>::empty().to_multiset() =~= Multiset::<(KeyV, int)>::empty());
    }
}

proof fn lemma_sum_push(q: Seq<(KeyV, int)>, x: (KeyV, int), points: Seq<KeyV>, s: int)
    ensures
        sum_route_filters(q.push(x), points, s) =~= if route(x.0, points, 0) < s {
            sum_route_filters(q, points, s).insert(x)
        } else {
            sum_route_filters(q, points, s)
        },
    decreases s,
{
    broadcast use vstd::multiset::group_multiset_axioms;

    lemma_route_bounds(x.0, points, 0);
    if s > 0 {
        lemma_sum_push(q, x, points, s - 1);
        q.lemma_filter_push(x, route_pred(points, s - 1));
        assert(sum_route_filters(q.push(x), points, s) =~= sum_route_filters(
            q.push(x),
            points,
            s - 1,
        ).add(q.push(x).filter(route_pred(points, s - 1)).to_multiset()));
        assert(sum_route_filters(q, points, s) =~= sum_route_filters(q, points, s - 1).add(
            q.filter(route_pred(points, s - 1)).to_multiset(),
        ));
        if route_pred(points, s - 1)(x) {
            assert(route(x.0, points, 0) == s - 1);
            vstd::seq_lib::to_multiset_build(q.filter(route_pred(points, s - 1)), x);
            assert(sum_route_filters(q, points, s - 1).add(
                q.filter(route_pred(points, s - 1)).to_multiset().insert(x),
            ) =~= sum_route_filters(q, points, s).insert(x));
        } else if route(x.0, points, 0) < s - 1 {
            assert(sum_route_filters(q, points, s - 1).insert(x).add(
                q.filter(route_pred(points, s - 1)).to_multiset(),
            ) =~= sum_route_filters(q, points, s).insert(x));
        }
    }
}

/// Shards partition the pairs: together their multisets make up the
/// whole input.
pub proof fn lemma_sum_route_filters(pairs: Seq<(KeyV, int)>, points: Seq<KeyV>, s: int)
    requires
        s == points.len() + 1,
    ensures
        sum_route_filters(pairs, points, s) =~= pairs.to_multiset(),
    decreases pairs.len(),
{
    broadcast use vstd::seq_lib::group_to_multiset_ensures;
    broadcast use vstd::multiset::group_multiset_axioms;

    if pairs.len() == 0 {
        lemma_sum_empty(points, s);
        assert(pairs =~= Seq::<(KeyV, int)>::empty());
        assert(pairs.to_multiset().len() == 0);
        assert(pairs.to_multiset() =~= Multiset::empty());
    } else {
        let q = pairs.drop_last();
        let x = pairs.last();
        lemma_sum_route_filters(q, points, s);
        lemma_route_bounds(x.0, points, 0);
        lemma_sum_push(q, x, points, s);
        assert(pairs =~= q.push(x));
        vstd::seq_lib::to_multiset_build(q, x);
    }
}

/// Collects the pairs of shard `s`: each kept key routed there, with
/// its position, in input order.
fn shard_pairs(
    keys: &Vec<Vec<Vec<u8>>>,
    points: &Vec<Vec<Vec<u8>>>,
    numeric: bool,
    s: usize,
) -> (r: Vec<(Vec<Vec<u8>>, usize)>)
    ensures
        pairs_view(r@, numeric) == key_pairs(keys.deep_view(), numeric).filter(
            route_pred(points_view(points@, numeric), s as int),
        ),
        forall|j: int| 0 <= j < r@.len() ==> (#[trigger] r@[j]).1 < keys@.len(),
{
    let ghost pv = points_view(points@, numeric);
    let ghost allp = key_pairs(keys.deep_view(), numeric);
    let mut out: Vec<(Vec<Vec<u8>>, usize)> = Vec::new();
    let mut i: usize = 0;
    while i < keys.len()
        invariant
            0 <= i <= keys@.len(),
            keys.deep_view().len() == keys@.len(),
            pv == points_view(points@, numeric),
            allp == key_pairs(keys.deep_view(), numeric),
            pairs_view(out@, numeric) =~= allp.take(i as int).filter(route_pred(pv, s as int)),
            forall|j: int| 0 <= j < out@.len() ==> (#[trigger] out@[j]).1 < keys@.len(),
        decreases keys@.len() - i,
    {
        let rt = route_of(&keys[i], points, numeric);
        let ghost xp = (kv(keys.deep_view()[i as int], numeric), i as int);
        proof {
            assert(keys.deep_view()[i as int] == keys@[i as int].deep_view());
            assert(allp.take(i + 1 as int) =~= allp.take(i as int).push(xp));
            allp.take(i as int).lemma_filter_push(xp, route_pred(pv, s as int));
        }
        if rt == s {
            let key = clone_row(&keys[i]);
            let ghost prev = out@;
            out.push((key, i));
            proof {
                assert(pairs_view(out@, numeric) =~= pairs_view(prev, numeric).push(xp));
            }
        }
        i += 1;
    }
    proof {
        assert(allp.take(keys@.len() as int) =~= allp);
    }
    out
}

/// Each key with its position.
pub open spec fn key_pairs(keys: Seq<Seq<Seq<u8>>>, numeric: bool) -> Seq<(KeyV, int)> {
    Seq::new(keys.len(), |i: int| (kv(keys[i], numeric), i))
}

/// The shard one key belongs to.
fn route_of(key: &Vec<Vec<u8>>, points: &Vec<Vec<Vec<u8>>>, numeric: bool) -> (r: usize)
    ensures
        r as int == route(
            kv(key.deep_view(), numeric),
            points_view(points@, numeric),
            0,
        ),
        r <= points@.len(),
{
    let ghost k = kv(key.deep_view(), numeric);
    let ghost pv = points_view(points@, numeric);
    let mut j: usize = 0;
    while j < points.len()
        invariant
            0 <= j <= points@.len(),
            k == kv(key.deep_view(), numeric),
            pv == points_view(points@, numeric),
            pv.len() == points@.len(),
            route(k, pv, 0) == route(k, pv, j as int),
        decreases points@.len() - j,
    {
        proof {
            assert(pv[j as int] == kv(points@[j as int].deep_view(), numeric));
            crate::num::lemma_numkey_is_numval(points@[j as int].deep_view(), key.deep_view());
        }
        match cmp_key(key, &points[j], numeric) {
            core::cmp::Ordering::Greater => {},
            _ => {
                proof {
                    assert(!keyv_lt(pv[j as int], k));
                }
                return j;
            },
        }
        j += 1;
    }
    j
}

/// The data rows of an input: all its rows, or all but the header.
pub open spec fn data_of(rows: Seq<Seq<Seq<u8>>>, headers: bool) -> Seq<Seq<Seq<u8>>> {
    if headers && rows.len() > 0 {
        rows.drop_first()
    } else {
        rows
    }
}

/// What the external sort returns in all: the header first when one
/// was read and any data survived, then the kept rows in key order.
pub open spec fn terasort_rows_spec(
    rows: Seq<Seq<Seq<u8>>>,
    sel: Seq<int>,
    casei: bool,
    nulls: bool,
    numeric: bool,
    reverse: bool,
    headers: bool,
) -> Seq<Seq<Seq<u8>>> {
    let data = data_of(rows, headers);
    let body = terasort_data_spec(data, sel, casei, nulls, numeric, reverse);
    if headers && rows.len() > 0 && kept_rows(data, sel, casei, nulls).len() > 0 {
        seq![rows[0]] + body
    } else {
        body
    }
}

/// Every kept row's key is numeric.
pub open spec fn kept_all_numeric(
    data: Seq<Seq<Seq<u8>>>,
    sel: Seq<int>,
    casei: bool,
    nulls: bool,
) -> bool {
    forall|i: int|
        0 <= i < kept_rows(data, sel, casei, nulls).len() ==> key_all_numeric(
            row_key_spec(sel, #[trigger] kept_rows(data, sel, casei, nulls)[i], casei),
        )
}

/// Whether some field of a key is empty.
pub(crate) fn has_null_key(key: &Vec<Vec<u8>>) -> (r: bool)
    ensures
        r == exists|t: int|
            0 <= t < key.deep_view().len() && (#[trigger] key.deep_view()[t]).len() == 0,
{
    let mut t: usize = 0;
    while t < key.len()
        invariant
            0 <= t <= key@.len(),
            key.deep_view().len() == key@.len(),
            forall|j: int| 0 <= j < t ==> (#[trigger] key.deep_view()[j]).len() != 0,
        decreases key@.len() - t,
    {
        proof {
            crate::common::lemma_fields_deep_view(key);
        }
        if key[t].len() == 0 {
            proof {
                assert((key.deep_view()[t as int]).len() == 0);
            }
            return true;
        }
        t += 1;
    }
    false
}

/// Walks the data rows once, keeping those the null policy admits,
/// and takes each kept row's transformed key.
fn build_kept(
    rows: &Vec<Vec<Vec<u8>>>,
    sel: &Selection,
    casei: bool,
    nulls: bool,
    start: usize,
) -> (r: (Vec<Vec<Vec<u8>>>, Vec<Vec<Vec<u8>>>))
    requires
        start <= rows@.len(),
        forall|i: int|
            0 <= i < rows.deep_view().len() ==> sel.valid_for(
                (#[trigger] rows.deep_view()[i]).len() as int,
            ),
    ensures
        ({
            let (kept, keys) = r;
            &&& kept.deep_view() == kept_rows(
                rows.deep_view().skip(start as int),
                sel@,
                casei,
                nulls,
            )
            &&& keys.deep_view().len() == kept.deep_view().len()
            &&& kept@.len() == kept.deep_view().len()
            &&& keys@.len() == keys.deep_view().len()
            &&& forall|t: int|
                0 <= t < keys.deep_view().len() ==> #[trigger] keys.deep_view()[t] == row_key_spec(
                    sel@,
                    kept.deep_view()[t],
                    casei,
                )
        }),
{
    let ghost data = rows.deep_view().skip(start as int);
    let mut kept: Vec<Vec<Vec<u8>>> = Vec::new();
    let mut keys: Vec<Vec<Vec<u8>>> = Vec::new();
    let mut i: usize = start;
    proof {
        assert(data.take(0) =~= Seq::<Seq<Seq<u8>>>::empty());
        reveal(Seq::filter);
    }
    while i < rows.len()
        invariant
            start <= i <= rows@.len(),
            rows.deep_view().len() == rows@.len(),
            data == rows.deep_view().skip(start as int),
            data.len() == rows@.len() - start,
            forall|k: int|
                0 <= k < rows.deep_view().len() ==> sel.valid_for(
                    (#[trigger] rows.deep_view()[k]).len() as int,
                ),
            kept.deep_view() =~= kept_rows(data.take(i - start), sel@, casei, nulls),
            keys.deep_view().len() == kept.deep_view().len(),
            kept@.len() == kept.deep_view().len(),
            keys@.len() == keys.deep_view().len(),
            forall|t: int|
                0 <= t < keys.deep_view().len() ==> #[trigger] keys.deep_view()[t] == row_key_spec(
                    sel@,
                    kept.deep_view()[t],
                    casei,
                ),
        decreases rows@.len() - i,
    {
        proof {
            assert(data[i - start] == rows.deep_view()[i as int]);
            assert(rows.deep_view()[i as int] == rows@[i as int].deep_view());
            assert(rows@[i as int].deep_view().len() == rows@[i as int]@.len());
        }
        let key = get_row_key(sel, &rows[i], casei);
        let hn = has_null_key(&key);
        proof {
            assert(hn == key_has_null(data[i - start], sel@, casei)) by {
                assert(key.deep_view() == row_key_spec(sel@, data[i - start], casei));
                assert(key.deep_view().len() == sel@.len());
            }
            assert(data.take(i + 1 - start) =~= data.take(i - start).push(data[i - start]));
            data.take(i - start).lemma_filter_push(data[i - start], keep_pred(sel@, casei, nulls));
        }
        if nulls || !hn {
            let row = clone_row(&rows[i]);
            let ghost kprev = kept.deep_view();
            let ghost yprev = keys.deep_view();
            kept.push(row);
            keys.push(key);
            proof {
                assert(kept.deep_view() =~~= kprev.push(data[i - start]));
                assert(keys.deep_view() =~~= yprev.push(
                    row_key_spec(sel@, data[i - start], casei),
                ));
            }
        }
        i += 1;
    }
    proof {
        assert(data.take(rows@.len() - start) =~= data);
    }
    (kept, keys)
}

/// The predicate that keeps a row under the null policy.
pub open spec fn keep_pred(sel: Seq<int>, casei: bool, nulls: bool) -> spec_fn(Seq<Seq<u8>>) -> bool {
    |r: Seq<Seq<u8>>| nulls || !key_has_null(r, sel, casei)
}

/// The sorted positions of one shard: its key/position pairs in key
/// order, keeping only the positions.
pub struct SortValueIndex {
    pub values: Vec<u64>,
}

impl SortValueIndex {
    /// Sorts a shard's pairs and records the row positions in order.
    pub fn new(shard: Vec<(Vec<Vec<u8>>, usize)>, numeric: bool, reverse: bool) -> (r:
        SortValueIndex)
        ensures
            r.values@.len() == pairs_view(shard@, numeric).sort_by(chosen_leq(reverse)).len(),
            forall|j: int|
                0 <= j < r.values@.len() ==> #[trigger] r.values@[j] as int == pairs_view(
                    shard@,
                    numeric,
                ).sort_by(chosen_leq(reverse))[j].1,
    {
        let ghost target = pairs_view(shard@, numeric).sort_by(chosen_leq(reverse));
        let sorted = quick_sort(shard, numeric, reverse);
        let mut values: Vec<u64> = Vec::new();
        let mut j: usize = 0;
        while j < sorted.len()
            invariant
                0 <= j <= sorted@.len(),
                pairs_view(sorted@, numeric) == target,
                sorted@.len() == target.len(),
                values@.len() == j,
                forall|k: int| 0 <= k < j ==> #[trigger] values@[k] as int == target[k].1,
            decreases sorted@.len() - j,
        {
            proof {
                assert(pairs_view(sorted@, numeric)[j as int].1 == sorted@[j as int].1 as int);
            }
            values.push(sorted[j].1 as u64);
            j += 1;
        }
        SortValueIndex { values }
    }
}

/// Sorts one shard and appends its rows, in key order, to the output.
pub fn sort_by_key(
    shard: Vec<(Vec<Vec<u8>>, usize)>,
    kept: &Vec<Vec<Vec<u8>>>,
    out: &mut Vec<Vec<Vec<u8>>>,
    numeric: bool,
    reverse: bool,
)
    requires
        forall|j: int| 0 <= j < shard@.len() ==> (#[trigger] shard@[j]).1 < kept@.len(),
    ensures
        final(out).deep_view() == old(out).deep_view() + pairs_view(shard@, numeric).sort_by(
            chosen_leq(reverse),
        ).map_values(|p: (KeyV, int)| kept.deep_view()[p.1]),
{
    let ghost shview = pairs_view(shard@, numeric);
    let ghost leq = chosen_leq(reverse);
    let ghost target = shview.sort_by(leq);
    let ghost base = out.deep_view();
    proof {
        lemma_orders_total();
        shview.lemma_sort_by_ensures(leq);
        assert forall|j: int| 0 <= j < target.len() implies 0 <= (#[trigger] target[j]).1
            < kept@.len() by {
            assert(target.contains(target[j]));
            assert(shview.contains(target[j]));
            let i = choose|i: int| 0 <= i < shview.len() && shview[i] == target[j];
            assert(shview[i].1 == shard@[i].1 as int);
        }
    }
    let svi = SortValueIndex::new(shard, numeric, reverse);
    let n = svi.values.len();
    let kn = kept.len();
    let mut j: usize = 0;
    while j < n
        invariant
            0 <= j <= n,
            n == svi.values@.len(),
            n == target.len(),
            kn == kept@.len(),
            kept.deep_view().len() == kept@.len(),
            forall|k: int| 0 <= k < n ==> #[trigger] svi.values@[k] as int == target[k].1,
            forall|k: int| 0 <= k < target.len() ==> 0 <= (#[trigger] target[k]).1 < kept@.len(),
            out.deep_view().len() == base.len() + j,
            forall|k: int| 0 <= k < base.len() ==> #[trigger] out.deep_view()[k] == base[k],
            forall|k: int|
                0 <= k < j ==> #[trigger] out.deep_view()[base.len() + k] == kept.deep_view()[
                    target[k].1
                ],
        decreases n - j,
    {
        proof {
            assert(svi.values@[j as int] as int == target[j as int].1);
            assert(target[j as int].1 < kept@.len());
        }
        let pos = svi.values[j] as usize;
        proof {
            assert(pos as int == target[j as int].1);
        }
        let row = clone_row(&kept[pos]);
        let ghost prev = out.deep_view();
        let ghost rv = row.deep_view();
        out.push(row);
        proof {
            assert(out.deep_view() =~~= prev.push(rv));
            assert(kept.deep_view()[pos as int] == kept@[pos as int].deep_view());
        }
        j += 1;
    }
    proof {
        let appended = target.map_values(|p: (KeyV, int)| kept.deep_view()[p.1]);
        assert forall|t: int| 0 <= t < out.deep_view().len() implies out.deep_view()[t] == (base
            + appended)[t] by {
            if t >= base.len() {
                let k = t - base.len();
                assert(out.deep_view()[base.len() + k] == kept.deep_view()[target[k].1]);
                assert(appended[k] == kept.deep_view()[target[k].1]);
            }
        }
        assert(out.deep_view() =~= base + appended);
    }
}

/// The external sort, whole: keep the rows the null policy admits,
/// sample their keys, derive split points, scatter the rows into
/// shards, sort each shard, and concatenate. For every sample the
/// random generator may draw, the result is the one total sort of the
/// kept rows; under numeric mode a kept key that is no number is
/// reported instead, and zero-valued size parameters are refused.
#[verifier::rlimit(100)]
pub fn terasort(
    rows: &Vec<Vec<Vec<u8>>>,
    sel: &Selection,
    casei: bool,
    nulls: bool,
    numeric: bool,
    reverse: bool,
    headers: bool,
    samplesize: usize,
    splitnum: usize,
    seed: Option<u64>,
) -> (r: Result<Vec<Vec<Vec<u8>>>, CliError>)
    requires
        forall|i: int|
            0 <= i < rows.deep_view().len() ==> sel.valid_for(
                (#[trigger] rows.deep_view()[i]).len() as int,
            ),
    ensures
        match r {
            Result::Ok(out) => {
                &&& splitnum > 0 && samplesize > 0
                &&& (numeric ==> kept_all_numeric(
                    data_of(rows.deep_view(), headers),
                    sel@,
                    casei,
                    nulls,
                ))
                &&& out.deep_view() == terasort_rows_spec(
                    rows.deep_view(),
                    sel@,
                    casei,
                    nulls,
                    numeric,
                    reverse,
                    headers,
                )
            },
            Result::Err(e) => {
                &&& (splitnum == 0 || samplesize == 0 || (numeric && !kept_all_numeric(
                    data_of(rows.deep_view(), headers),
                    sel@,
                    casei,
                    nulls,
                )))
                &&& e is Other
            },
        },
{
    broadcast use vstd::seq_lib::group_to_multiset_ensures;
    broadcast use vstd::multiset::group_multiset_axioms;

    if splitnum == 0 || samplesize == 0 {
        return Err(CliError::Other(String::from_str("parameters error.")));
    }
    let start: usize = if headers && rows.len() > 0 {
        1
    } else {
        0
    };
    let ghost data = data_of(rows.deep_view(), headers);
    proof {
        assert(data =~= rows.deep_view().skip(start as int));
    }
    let (kept, keys) = build_kept(rows, sel, casei, nulls, start);
    let ghost keptv = kept.deep_view();
    proof {
        assert(keptv == kept_rows(data, sel@, casei, nulls));
    }
    if numeric {
        let mut t: usize = 0;
        while t < keys.len()
            invariant
                numeric,
                0 <= t <= keys@.len(),
                keys.deep_view().len() == keys@.len(),
                data == data_of(rows.deep_view(), headers),
                keptv == kept_rows(data, sel@, casei, nulls),
                keptv.len() == keys.deep_view().len(),
                forall|u: int|
                    0 <= u < keys.deep_view().len() ==> #[trigger] keys.deep_view()[u]
                        == row_key_spec(sel@, keptv[u], casei),
                forall|u: int| 0 <= u < t ==> key_all_numeric(#[trigger] keys.deep_view()[u]),
            decreases keys@.len() - t,
        {
            proof {
                assert(keys.deep_view()[t as int] == keys@[t as int].deep_view());
            }
            match crate::num::check_num_type(&keys[t]) {
                Result::Ok(_) => {},
                Result::Err(e) => {
                    proof {
                        assert(!key_all_numeric(row_key_spec(sel@, keptv[t as int], casei)));
                        assert(!kept_all_numeric(data, sel@, casei, nulls)) by {
                            assert(kept_rows(data, sel@, casei, nulls)[t as int] == keptv[
                                t as int
                            ]);
                        }
                    }
                    return Err(e);
                },
            }
            t += 1;
        }
        proof {
            assert forall|i: int|
                0 <= i < kept_rows(data, sel@, casei, nulls).len() implies key_all_numeric(
                row_key_spec(sel@, #[trigger] kept_rows(data, sel@, casei, nulls)[i], casei),
            ) by {
                assert(keys.deep_view()[i] == row_key_spec(sel@, keptv[i], casei));
                assert(key_all_numeric(keys.deep_view()[i]));
            }
        }
    }
    let mut rng = make_sample_rng(seed);
    let sample = sample_reservoir(&keys, samplesize, &mut rng);
    let points = get_split_point(sample, splitnum, numeric);
    let nshards = points.len() + 1;
    let ghost pv = points_view(points@, numeric);
    let ghost allp = key_pairs(keys.deep_view(), numeric);
    let ghost leq = chosen_leq(reverse);
    proof {
        assert(allp =~= t_pairs(keptv, sel@, casei, numeric));
        lemma_orders_total();
    }
    let mut out: Vec<Vec<Vec<u8>>> = Vec::new();
    let hstart: usize = if headers && rows.len() > 0 && kept.len() > 0 {
        1
    } else {
        0
    };
    if hstart == 1 {
        let hd = clone_row(&rows[0]);
        let ghost prev = out.deep_view();
        out.push(hd);
        proof {
            assert(out.deep_view() =~~= prev.push(rows.deep_view()[0]));
        }
    }
    let ghost mut outp: Seq<(KeyV, int)> = Seq::empty();
    proof {
        assert(outp.to_multiset().len() == 0);
        assert(outp.to_multiset() =~= Multiset::empty());
        if reverse {
            assert(outp.to_multiset().add(sum_route_filters(allp, pv, nshards as int))
                =~= sum_route_filters(allp, pv, nshards as int));
        }
    }
    let mut r0: usize = 0;
    while r0 < nshards
        invariant
            0 <= r0 <= nshards,
            nshards == points@.len() + 1,
            pv == points_view(points@, numeric),
            pv.len() == points@.len(),
            leq == chosen_leq(reverse),
            allp == key_pairs(keys.deep_view(), numeric),
            keptv == kept.deep_view(),
            kept@.len() == keptv.len(),
            keys@.len() == keys.deep_view().len(),
            keys.deep_view().len() == keptv.len(),
            vstd::relations::sorted_by(outp, leq),
            !reverse ==> outp.to_multiset() =~= sum_route_filters(allp, pv, r0 as int),
            reverse ==> outp.to_multiset().add(
                sum_route_filters(allp, pv, nshards - r0),
            ) =~= sum_route_filters(allp, pv, nshards as int),
            !reverse ==> forall|t: int|
                0 <= t < outp.len() ==> route((#[trigger] outp[t]).0, pv, 0) < r0,
            reverse ==> forall|t: int|
                0 <= t < outp.len() ==> route((#[trigger] outp[t]).0, pv, 0) >= nshards - r0,
            forall|t: int| 0 <= t < outp.len() ==> 0 <= (#[trigger] outp[t]).1 < keptv.len(),
            out.deep_view().len() == hstart + outp.len(),
            hstart <= 1,
            hstart == 1 ==> 0 < rows.deep_view().len() && out.deep_view()[0] == rows.deep_view()[0],
            forall|t: int|
                0 <= t < outp.len() ==> #[trigger] out.deep_view()[hstart + t] == keptv[outp[t].1],
        decreases nshards - r0,
    {
        broadcast use vstd::seq_lib::group_to_multiset_ensures;
        broadcast use vstd::multiset::group_multiset_axioms;

        let s = if reverse {
            nshards - 1 - r0
        } else {
            r0
        };
        let shard = shard_pairs(&keys, &points, numeric, s);
        let ghost shview = pairs_view(shard@, numeric);
        let ghost sortedsh = shview.sort_by(leq);
        proof {
            lemma_orders_total();
            shview.lemma_sort_by_ensures(leq);
            assert forall|t: int| 0 <= t < sortedsh.len() implies route(
                (#[trigger] sortedsh[t]).0,
                pv,
                0,
            ) == s && 0 <= sortedsh[t].1 < keptv.len() by {
                assert(sortedsh.contains(sortedsh[t]));
                assert(shview.contains(sortedsh[t]));
                let u = choose|u: int| 0 <= u < shview.len() && shview[u] == sortedsh[t];
                allp.lemma_filter_pred(route_pred(pv, s as int), u);
                assert(shview[u].1 == shard@[u].1 as int);
            }
        }
        let ghost outbase = out.deep_view();
        sort_by_key(shard, &kept, &mut out, numeric, reverse);
        proof {
            let newp = outp + sortedsh;
            assert forall|i: int, j: int| 0 <= i < j < newp.len() implies leq(
                #[trigger] newp[i],
                #[trigger] newp[j],
            ) by {
                if i < outp.len() && j >= outp.len() {
                    let a = outp[i];
                    let b = sortedsh[j - outp.len()];
                    lemma_keyv_trichotomy(a.0, b.0);
                    if !reverse {
                        if keyv_lt(b.0, a.0) {
                            lemma_route_monotone(b.0, a.0, pv, 0);
                        }
                    } else {
                        if keyv_lt(a.0, b.0) {
                            lemma_route_monotone(a.0, b.0, pv, 0);
                        }
                    }
                }
            }
            assert(vstd::relations::sorted_by(newp, leq));
            vstd::seq_lib::lemma_multiset_commutative(outp, sortedsh);
            if !reverse {
                assert(newp.to_multiset() =~= sum_route_filters(allp, pv, r0 + 1));
            } else {
                assert(sum_route_filters(allp, pv, nshards - r0) =~= sum_route_filters(
                    allp,
                    pv,
                    nshards - r0 - 1,
                ).add(allp.filter(route_pred(pv, (nshards - r0 - 1) as int)).to_multiset()));
                assert(newp.to_multiset().add(sum_route_filters(allp, pv, nshards - r0 - 1))
                    =~= outp.to_multiset().add(sum_route_filters(allp, pv, nshards - r0)));
            }
            assert forall|t: int|
                0 <= t < newp.len() implies #[trigger] out.deep_view()[hstart + t] == keptv[
                newp[t].1
            ] by {
                if t >= outp.len() {
                    let k = t - outp.len();
                    assert(out.deep_view()[outbase.len() + k] == sortedsh.map_values(
                        |p: (KeyV, int)| kept.deep_view()[p.1],
                    )[k]);
                }
            }
            outp = newp;
        }
        r0 += 1;
    }
    proof {
        lemma_sum_route_filters(allp, pv, nshards as int);
        if reverse {
            assert(outp.to_multiset().add(sum_route_filters(allp, pv, 0)) =~= outp.to_multiset());
        }
        assert(outp.to_multiset() =~= allp.to_multiset());
        allp.lemma_sort_by_ensures(leq);
        lemma_sorted_unique(outp, allp.sort_by(leq), leq);
        assert(outp.len() == allp.len()) by {
            assert(outp.to_multiset().len() == allp.to_multiset().len());
        }
        let spec_out = terasort_rows_spec(
            rows.deep_view(),
            sel@,
            casei,
            nulls,
            numeric,
            reverse,
            headers,
        );
        let body = t_pairs(keptv, sel@, casei, numeric).sort_by(leq).map_values(
            |p: (KeyV, int)| keptv[p.1],
        );
        assert(t_pairs(keptv, sel@, casei, numeric) == allp);
        assert forall|t: int| 0 <= t < out.deep_view().len() implies out.deep_view()[t]
            == spec_out[t] by {
            if t >= hstart {
                let k = t - hstart;
                assert(out.deep_view()[hstart + k] == keptv[outp[k].1]);
                assert(body[k] == keptv[allp.sort_by(leq)[k].1]);
            }
        }
        assert(out.deep_view().len() == spec_out.len());
        assert(out.deep_view() =~= spec_out);
    }
    Ok(out)
}

} // verus!
