//! Byte-level field operations shared by every command: the
//! trim/lowercase key transform and lexicographic comparison of
//! fields and of whole keys.
use vstd::prelude::*;

verus! {

/// ASCII whitespace, the bytes stripped from both ends of a key field.
pub open spec fn is_space(b: u8) -> bool {
    b == 32 || (9 <= b && b <= 13)
}

/// ASCII lowercase folding of one byte.
pub open spec fn lower_byte(b: u8) -> u8 {
    if 65 <= b && b <= 90 {
        (b + 32) as u8
    } else {
        b
    }
}

/// `s` with its leading ASCII whitespace removed.
pub open spec fn trim_front(s: Seq<u8>) -> Seq<u8>
    decreases s.len(),
{
    if s.len() > 0 && is_space(s[0]) {
        trim_front(s.drop_first())
    } else {
        s
    }
}

/// `s` with its trailing ASCII whitespace removed.
pub open spec fn trim_back(s: Seq<u8>) -> Seq<u8>
    decreases s.len(),
{
    if s.len() > 0 && is_space(s.last()) {
        trim_back(s.drop_last())
    } else {
        s
    }
}

/// `s` with ASCII whitespace removed from both ends.
pub open spec fn trimmed(s: Seq<u8>) -> Seq<u8> {
    trim_back(trim_front(s))
}

/// The key transform: trim, and fold to lowercase when the comparison
/// is case-insensitive.
pub open spec fn transform_spec(s: Seq<u8>, casei: bool) -> Seq<u8> {
    if casei {
        trimmed(s).map_values(|b: u8| lower_byte(b))
    } else {
        trimmed(s)
    }
}

/// Strict lexicographic order on byte strings: a proper prefix is
/// smaller, otherwise the first differing byte decides.
pub open spec fn bytes_lt(a: Seq<u8>, b: Seq<u8>) -> bool
    decreases a.len(),
{
    if b.len() == 0 {
        false
    } else if a.len() == 0 {
        true
    } else if a[0] < b[0] {
        true
    } else if a[0] > b[0] {
        false
    } else {
        bytes_lt(a.drop_first(), b.drop_first())
    }
}

pub proof fn lemma_trim_front_is_skip(s: Seq<u8>, i: int)
    requires
        0 <= i <= s.len(),
        forall|k: int| 0 <= k < i ==> is_space(s[k]),
        i == s.len() || !is_space(s[i]),
    ensures
        trim_front(s) =~= s.skip(i),
    decreases i,
{
    if i == 0 {
        assert(s.skip(0) =~= s);
    } else {
        lemma_trim_front_is_skip(s.drop_first(), i - 1);
        assert(s.drop_first().skip(i - 1) =~= s.skip(i));
    }
}

pub proof fn lemma_trim_back_is_take(s: Seq<u8>, j: int)
    requires
        0 <= j <= s.len(),
        forall|k: int| j <= k < s.len() ==> is_space(s[k]),
        j == 0 || !is_space(s[j - 1]),
    ensures
        trim_back(s) =~= s.take(j),
    decreases s.len() - j,
{
    if j == s.len() {
        assert(s.take(j) =~= s);
    } else {
        lemma_trim_back_is_take(s.drop_last(), j);
        assert(s.drop_last().take(j) =~= s.take(j));
    }
}

/// `trimmed` pinned down as one subrange of the input.
pub proof fn lemma_trimmed_is_subrange(s: Seq<u8>, i: int, j: int)
    requires
        0 <= i <= j <= s.len(),
        forall|k: int| 0 <= k < i ==> is_space(s[k]),
        forall|k: int| j <= k < s.len() ==> is_space(s[k]),
        i == j ==> i == s.len(),
        i < j ==> (!is_space(s[i]) && !is_space(s[j - 1])),
    ensures
        trimmed(s) =~= s.subrange(i, j),
{
    if i == j {
        lemma_trim_front_is_skip(s, i);
        lemma_trim_back_is_take(s.skip(i), 0);
        assert(s.skip(i).take(0) =~= s.subrange(i, j));
    } else {
        lemma_trim_front_is_skip(s, i);
        lemma_trim_back_is_take(s.skip(i), j - i);
        assert(s.skip(i).take(j - i) =~= s.subrange(i, j));
    }
}

/// Whether two byte fields hold the same bytes.
pub fn fields_eq(a: &Vec<u8>, b: &Vec<u8>) -> (r: bool)
    ensures
        r == (a@ == b@),
{
    if a.len() != b.len() {
        proof {
            assert(a@ != b@);
        }
        return false;
    }
    let n = a.len();
    let mut i: usize = 0;
    while i < n
        invariant
            n == a.len() == b.len(),
            0 <= i <= n,
            forall|k: int| 0 <= k < i ==> a@[k] == b@[k],
        decreases n - i,
    {
        if a[i] != b[i] {
            return false;
        }
        i += 1;
    }
    proof {
        assert(a@ =~= b@);
    }
    true
}

/// Applies the key transform to one field: strip ASCII whitespace from
/// both ends, and fold ASCII letters to lowercase when `casei` is set.
pub fn transform(bs: &Vec<u8>, casei: bool) -> (r: Vec<u8>)
    ensures
        r@ == transform_spec(bs@, casei),
{
    let n = bs.len();
    let mut start: usize = 0;
    while start < n && is_space_ex(bs[start])
        invariant
            n == bs.len(),
            0 <= start <= n,
            forall|k: int| 0 <= k < start ==> is_space(bs@[k]),
        decreases n - start,
    {
        start += 1;
    }
    let mut end: usize = n;
    while end > start && is_space_ex(bs[end - 1])
        invariant
            n == bs.len(),
            start <= end <= n,
            forall|k: int| end <= k < n ==> is_space(bs@[k]),
        decreases end,
    {
        end -= 1;
    }
    proof {
        lemma_trimmed_is_subrange(bs@, start as int, end as int);
    }
    let mut r: Vec<u8> = Vec::new();
    let mut i: usize = start;
    while i < end
        invariant
            n == bs.len(),
            start <= i <= end <= n,
            r@.len() == i - start,
            casei ==> r@ =~= bs@.subrange(start as int, i as int).map_values(
                |b: u8| lower_byte(b),
            ),
            !casei ==> r@ =~= bs@.subrange(start as int, i as int),
        decreases end - i,
    {
        let b = bs[i];
        if casei {
            r.push(lower_byte_ex(b));
        } else {
            r.push(b);
        }
        proof {
            assert(bs@.subrange(start as int, i + 1 as int) =~= bs@.subrange(
                start as int,
                i as int,
            ).push(bs@[i as int]));
            if casei {
                assert(bs@.subrange(start as int, i + 1 as int).map_values(
                    |b: u8| lower_byte(b),
                ) =~= bs@.subrange(start as int, i as int).map_values(|b: u8| lower_byte(b)).push(
                    lower_byte(bs@[i as int]),
                ));
            }
        }
        i += 1;
    }
    proof {
        assert(bs@.subrange(start as int, end as int) == trimmed(bs@));
    }
    r
}

/// Of `bytes_lt(a, b)`, `a == b`, `bytes_lt(b, a)`, exactly one holds.
pub proof fn lemma_bytes_lt_trichotomy(a: Seq<u8>, b: Seq<u8>)
    ensures
        bytes_lt(a, b) || a == b || bytes_lt(b, a),
        bytes_lt(a, b) ==> !(a == b) && !bytes_lt(b, a),
        a == b ==> !bytes_lt(a, b) && !bytes_lt(b, a),
    decreases a.len(),
{
    if a.len() > 0 && b.len() > 0 && a[0] == b[0] {
        lemma_bytes_lt_trichotomy(a.drop_first(), b.drop_first());
        if a.drop_first() == b.drop_first() {
            assert forall|i: int| 0 <= i < a.len() implies a[i] == b[i] by {
                if i > 0 {
                    assert(a[i] == a.drop_first()[i - 1]);
                    assert(b[i] == b.drop_first()[i - 1]);
                }
            }
            assert(a =~= b);
        }
        if a == b {
            assert(a.drop_first() =~= b.drop_first());
        }
    } else if a.len() == 0 && b.len() == 0 {
        assert(a =~= b);
    }
}

pub proof fn lemma_bytes_lt_transitive(a: Seq<u8>, b: Seq<u8>, c: Seq<u8>)
    requires
        bytes_lt(a, b),
        bytes_lt(b, c),
    ensures
        bytes_lt(a, c),
    decreases a.len(),
{
    if a.len() > 0 && b.len() > 0 && c.len() > 0 && a[0] == b[0] && b[0] == c[0] {
        lemma_bytes_lt_transitive(a.drop_first(), b.drop_first(), c.drop_first());
    }
}

/// Three-way lexicographic comparison of two byte fields.
pub fn bytes_cmp(a: &Vec<u8>, b: &Vec<u8>) -> (r: core::cmp::Ordering)
    ensures
        (r == core::cmp::Ordering::Less) == bytes_lt(a@, b@),
        (r == core::cmp::Ordering::Equal) == (a@ == b@),
        (r == core::cmp::Ordering::Greater) == bytes_lt(b@, a@),
{
    proof {
        lemma_bytes_lt_trichotomy(a@, b@);
    }
    let min = if a.len() < b.len() {
        a.len()
    } else {
        b.len()
    };
    let mut i: usize = 0;
    while i < min
        invariant
            min <= a.len(),
            min <= b.len(),
            0 <= i <= min,
            forall|k: int| 0 <= k < i ==> a@[k] == b@[k],
        decreases min - i,
    {
        proof {
            lemma_bytes_lt_trichotomy(a@, b@);
        }
        if a[i] < b[i] {
            proof {
                lemma_bytes_lt_from_prefix(a@, b@, i as int);
            }
            return core::cmp::Ordering::Less;
        }
        if a[i] > b[i] {
            proof {
                lemma_bytes_lt_from_prefix(b@, a@, i as int);
            }
            return core::cmp::Ordering::Greater;
        }
        i += 1;
    }
    if a.len() < b.len() {
        proof {
            lemma_bytes_lt_from_prefix(a@, b@, i as int);
        }
        core::cmp::Ordering::Less
    } else if a.len() > b.len() {
        proof {
            lemma_bytes_lt_from_prefix(b@, a@, i as int);
        }
        core::cmp::Ordering::Greater
    } else {
        proof {
            assert(a@ =~= b@);
        }
        core::cmp::Ordering::Equal
    }
}

/// After an equal prefix of length `i`, the order is decided at `i`:
/// by the end of the shorter string, or by the first differing byte.
proof fn lemma_bytes_lt_from_prefix(a: Seq<u8>, b: Seq<u8>, i: int)
    requires
        0 <= i <= a.len(),
        i <= b.len(),
        forall|k: int| 0 <= k < i ==> a[k] == b[k],
        (i == a.len() && i < b.len()) || (i < a.len() && i < b.len() && a[i] < b[i]),
    ensures
        bytes_lt(a, b),
    decreases i,
{
    if i > 0 {
        lemma_bytes_lt_from_prefix(a.drop_first(), b.drop_first(), i - 1);
    }
}

/// Strict lexicographic order on whole keys (lists of fields), the
/// order `iter_cmp` computes: field by field, a shorter key that is a
/// prefix of the other coming first.
pub open spec fn key_lt(a: Seq<Seq<u8>>, b: Seq<Seq<u8>>) -> bool
    decreases a.len(),
{
    if b.len() == 0 {
        false
    } else if a.len() == 0 {
        true
    } else if bytes_lt(a[0], b[0]) {
        true
    } else if bytes_lt(b[0], a[0]) {
        false
    } else {
        key_lt(a.drop_first(), b.drop_first())
    }
}

pub proof fn lemma_key_lt_trichotomy(a: Seq<Seq<u8>>, b: Seq<Seq<u8>>)
    ensures
        key_lt(a, b) || a == b || key_lt(b, a),
        key_lt(a, b) ==> !(a == b) && !key_lt(b, a),
        a == b ==> !key_lt(a, b) && !key_lt(b, a),
    decreases a.len(),
{
    if a.len() > 0 && b.len() > 0 {
        lemma_bytes_lt_trichotomy(a[0], b[0]);
        if !bytes_lt(a[0], b[0]) && !bytes_lt(b[0], a[0]) {
            lemma_key_lt_trichotomy(a.drop_first(), b.drop_first());
            if a.drop_first() == b.drop_first() {
                assert forall|i: int| 0 <= i < a.len() implies a[i] == b[i] by {
                    if i > 0 {
                        assert(a[i] == a.drop_first()[i - 1]);
                        assert(b[i] == b.drop_first()[i - 1]);
                    }
                }
                assert(a =~= b);
            }
            if a == b {
                assert(a.drop_first() =~= b.drop_first());
            }
        } else {
            if a == b {
                lemma_bytes_lt_trichotomy(a[0], a[0]);
            }
        }
    } else if a.len() == 0 && b.len() == 0 {
        assert(a =~= b);
    }
}

pub proof fn lemma_key_lt_transitive(a: Seq<Seq<u8>>, b: Seq<Seq<u8>>, c: Seq<Seq<u8>>)
    requires
        key_lt(a, b),
        key_lt(b, c),
    ensures
        key_lt(a, c),
    decreases a.len(),
{
    if a.len() > 0 && b.len() > 0 && c.len() > 0 {
        lemma_bytes_lt_trichotomy(a[0], b[0]);
        lemma_bytes_lt_trichotomy(b[0], c[0]);
        if bytes_lt(a[0], b[0]) && bytes_lt(b[0], c[0]) {
            lemma_bytes_lt_transitive(a[0], b[0], c[0]);
        } else if !bytes_lt(a[0], b[0]) && !bytes_lt(b[0], a[0]) && !bytes_lt(b[0], c[0])
            && !bytes_lt(c[0], b[0]) {
            lemma_key_lt_transitive(a.drop_first(), b.drop_first(), c.drop_first());
        }
    }
}

/// The deep view of a list of fields indexes to the view of each field.
pub proof fn lemma_fields_deep_view(v: &Vec<Vec<u8>>)
    ensures
        v.deep_view().len() == v@.len(),
        forall|i: int| 0 <= i < v@.len() ==> #[trigger] v.deep_view()[i] == v@[i]@,
{
    assert forall|i: int| 0 <= i < v@.len() implies #[trigger] v.deep_view()[i] == v@[i]@ by {
        assert(v@[i].deep_view() =~= v@[i]@);
    }
}

/// Three-way lexicographic comparison of two whole keys, the executable
/// form of `key_lt`; `Equal` means the keys hold the same fields.
pub fn keys_cmp(a: &Vec<Vec<u8>>, b: &Vec<Vec<u8>>) -> (r: core::cmp::Ordering)
    ensures
        (r == core::cmp::Ordering::Less) == key_lt(a.deep_view(), b.deep_view()),
        (r == core::cmp::Ordering::Equal) == (a.deep_view() == b.deep_view()),
        (r == core::cmp::Ordering::Greater) == key_lt(b.deep_view(), a.deep_view()),
{
    proof {
        lemma_key_lt_trichotomy(a.deep_view(), b.deep_view());
        lemma_fields_deep_view(a);
        lemma_fields_deep_view(b);
    }
    let min = if a.len() < b.len() {
        a.len()
    } else {
        b.len()
    };
    let mut i: usize = 0;
    while i < min
        invariant
            min <= a.len(),
            min <= b.len(),
            0 <= i <= min,
            forall|k: int| 0 <= k < i ==> a.deep_view()[k] == b.deep_view()[k],
        decreases min - i,
    {
        proof {
            lemma_fields_deep_view(a);
            lemma_fields_deep_view(b);
            lemma_key_lt_trichotomy(a.deep_view(), b.deep_view());
        }
        match bytes_cmp(&a[i], &b[i]) {
            core::cmp::Ordering::Less => {
                proof {
                    lemma_key_lt_from_prefix(a.deep_view(), b.deep_view(), i as int);
                }
                return core::cmp::Ordering::Less;
            },
            core::cmp::Ordering::Greater => {
                proof {
                    lemma_key_lt_from_prefix(b.deep_view(), a.deep_view(), i as int);
                }
                return core::cmp::Ordering::Greater;
            },
            core::cmp::Ordering::Equal => {},
        }
        i += 1;
    }
    if a.len() < b.len() {
        proof {
            lemma_key_lt_from_prefix(a.deep_view(), b.deep_view(), i as int);
        }
        core::cmp::Ordering::Less
    } else if a.len() > b.len() {
        proof {
            lemma_key_lt_from_prefix(b.deep_view(), a.deep_view(), i as int);
        }
        core::cmp::Ordering::Greater
    } else {
        proof {
            assert(a.deep_view() =~= b.deep_view());
        }
        core::cmp::Ordering::Equal
    }
}

proof fn lemma_key_lt_from_prefix(a: Seq<Seq<u8>>, b: Seq<Seq<u8>>, i: int)
    requires
        0 <= i <= a.len(),
        i <= b.len(),
        forall|k: int| 0 <= k < i ==> a[k] == b[k],
        (i == a.len() && i < b.len()) || (i < a.len() && i < b.len() && bytes_lt(a[i], b[i])),
    ensures
        key_lt(a, b),
    decreases i,
{
    if i > 0 {
        lemma_bytes_lt_trichotomy(a[0], b[0]);
        lemma_key_lt_from_prefix(a.drop_first(), b.drop_first(), i - 1);
    }
}

/// The key of a row under a selection: each selected field, trimmed
/// and case-folded as the comparison mode asks.
pub open spec fn row_key_spec(sel: Seq<int>, row: Seq<Seq<u8>>, casei: bool) -> Seq<Seq<u8>> {
    sel.map_values(|p: int| transform_spec(row[p], casei))
}

/// Extracts the comparison key of one row: the selected fields, each
/// passed through the key transform.
pub fn get_row_key(sel: &crate::select::Selection, row: &Vec<Vec<u8>>, casei: bool) -> (r: Vec<
    Vec<u8>,
>)
    requires
        sel.valid_for(row@.len() as int),
    ensures
        r.deep_view() == row_key_spec(sel@, row.deep_view(), casei),
{
    let mut out: Vec<Vec<u8>> = Vec::new();
    let mut i: usize = 0;
    while i < sel.positions.len()
        invariant
            0 <= i <= sel.positions@.len(),
            sel.valid_for(row@.len() as int),
            out.deep_view().len() == i as int,
            forall|j: int|
                0 <= j < i ==> #[trigger] out.deep_view()[j] == transform_spec(
                    row.deep_view()[sel@[j]],
                    casei,
                ),
        decreases sel.positions@.len() - i,
    {
        proof {
            assert(sel@[i as int] == sel.positions@[i as int] as int);
            lemma_fields_deep_view(row);
        }
        let p = sel.positions[i];
        let field = transform(&row[p], casei);
        let ghost prev = out.deep_view();
        let ghost fv = field@;
        out.push(field);
        proof {
            assert(out.deep_view() =~~= prev.push(fv));
        }
        i += 1;
    }
    proof {
        assert(out.deep_view() =~= row_key_spec(sel@, row.deep_view(), casei));
    }
    out
}

/// Three-way comparison of two whole keys, lexicographic over the
/// fields: byte order in string mode, decimal value order (non-numbers
/// first) in numeric mode.
pub fn cmp_key(key1: &Vec<Vec<u8>>, key2: &Vec<Vec<u8>>, flag_numeric: bool) -> (r:
    core::cmp::Ordering)
    ensures
        !flag_numeric ==> {
            &&& (r == core::cmp::Ordering::Less) == key_lt(key1.deep_view(), key2.deep_view())
            &&& (r == core::cmp::Ordering::Equal) == (key1.deep_view() == key2.deep_view())
            &&& (r == core::cmp::Ordering::Greater) == key_lt(key2.deep_view(), key1.deep_view())
        },
        flag_numeric ==> {
            &&& (r == core::cmp::Ordering::Less) == crate::num::numkey_lt(
                key1.deep_view(),
                key2.deep_view(),
            )
            &&& (r == core::cmp::Ordering::Equal) == crate::num::numkey_eq(
                key1.deep_view(),
                key2.deep_view(),
            )
            &&& (r == core::cmp::Ordering::Greater) == crate::num::numkey_lt(
                key2.deep_view(),
                key1.deep_view(),
            )
        },
{
    if flag_numeric {
        crate::num::numkeys_cmp(key1, key2)
    } else {
        keys_cmp(key1, key2)
    }
}

/// Copies the byte range `[from, to)` of `bs` into a fresh vector.
pub fn copy_range(bs: &Vec<u8>, from: usize, to: usize) -> (r: Vec<u8>)
    requires
        from <= to <= bs.len(),
    ensures
        r@ == bs@.subrange(from as int, to as int),
{
    let mut r: Vec<u8> = Vec::new();
    let mut k: usize = from;
    while k < to
        invariant
            from <= k <= to <= bs.len(),
            r@ =~= bs@.subrange(from as int, k as int),
        decreases to - k,
    {
        r.push(bs[k]);
        proof {
            assert(bs@.subrange(from as int, k + 1 as int) =~= bs@.subrange(
                from as int,
                k as int,
            ).push(bs@[k as int]));
        }
        k += 1;
    }
    proof {
        assert(r@ =~= bs@.subrange(from as int, to as int));
    }
    r
}

/// Copies one field.
pub fn clone_field(f: &Vec<u8>) -> (r: Vec<u8>)
    ensures
        r@ == f@,
{
    let r = copy_range(f, 0, f.len());
    proof {
        assert(f@.subrange(0, f@.len() as int) =~= f@);
    }
    r
}

/// Copies one row, field by field.
pub fn clone_row(row: &Vec<Vec<u8>>) -> (r: Vec<Vec<u8>>)
    ensures
        r.deep_view() == row.deep_view(),
{
    let mut out: Vec<Vec<u8>> = Vec::new();
    let mut i: usize = 0;
    while i < row.len()
        invariant
            0 <= i <= row@.len(),
            out.deep_view() =~= row.deep_view().take(i as int),
        decreases row@.len() - i,
    {
        let f = clone_field(&row[i]);
        let ghost prev = out.deep_view();
        let ghost fv = f@;
        out.push(f);
        proof {
            assert(out.deep_view() =~~= prev.push(fv));
            lemma_fields_deep_view(row);
            assert(out.deep_view() =~= row.deep_view().take(i + 1 as int));
        }
        i += 1;
    }
    proof {
        assert(row.deep_view().take(row@.len() as int) =~= row.deep_view());
    }
    out
}

/// Copies a list of rows.
pub fn clone_rows(rows: &Vec<Vec<Vec<u8>>>) -> (r: Vec<Vec<Vec<u8>>>)
    ensures
        r.deep_view() == rows.deep_view(),
{
    let mut out: Vec<Vec<Vec<u8>>> = Vec::new();
    let mut i: usize = 0;
    while i < rows.len()
        invariant
            0 <= i <= rows@.len(),
            out.deep_view() =~= rows.deep_view().take(i as int),
        decreases rows@.len() - i,
    {
        let row = clone_row(&rows[i]);
        let ghost prev = out.deep_view();
        let ghost rv = row.deep_view();
        out.push(row);
        proof {
            assert(out.deep_view() =~~= prev.push(rv));
            assert(rows.deep_view()[i as int] == rows@[i as int].deep_view());
            assert(out.deep_view() =~= rows.deep_view().take(i + 1 as int));
        }
        i += 1;
    }
    proof {
        assert(rows.deep_view().take(rows@.len() as int) =~= rows.deep_view());
    }
    out
}

#[verifier::when_used_as_spec(is_space)]
pub fn is_space_ex(b: u8) -> (r: bool)
    ensures
        r == is_space(b),
{
    b == 32 || (9 <= b && b <= 13)
}

#[verifier::when_used_as_spec(lower_byte)]
pub fn lower_byte_ex(b: u8) -> (r: u8)
    ensures
        r == lower_byte(b),
{
    if 65 <= b && b <= 90 {
        b + 32
    } else {
        b
    }
}

} // verus!
