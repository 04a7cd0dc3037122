//! The column selection language: a comma-separated list of items —
//! names (quoted when they hold `, - [ ]`), 1-based positions, bracket
//! occurrence indices for duplicate names, ranges with open ends, and
//! `!` negation — compiled against a header row into an ordered list
//! of 0-based column positions.
use vstd::prelude::*;
use crate::num::is_digit;

verus! {

/// Why a selection expression failed to compile against a header.
#[derive(Clone, Copy, Debug, PartialEq, Eq)]
pub enum SelectError {
    /// A name that no header field holds.
    UnknownHeader,
    /// A 1-based position of 0, or one past the header width.
    IndexOutOfBounds,
    /// A bracket occurrence index on a bare numeric literal.
    BracketOnIndex,
    /// A bracket occurrence index at least the number of occurrences.
    OccurrenceOutOfBounds,
    /// Bracket content that is not an unsigned integer.
    BracketNotInteger,
    /// A quoted name without its closing quote.
    UnclosedQuote,
    /// A bracket without its closing bracket.
    UnclosedBracket,
    /// A second range dash, or text where an item should have ended.
    MalformedRange,
    /// A name used while the input has no header row.
    NamedWithNoHeaders,
    /// Negated and plain items mixed in one expression.
    MixedNegation,
}

/// Position of the first `b` at or after `i`, or `s.len()` if none.
pub open spec fn find_from(s: Seq<u8>, i: int, b: u8) -> int
    decreases s.len() - i,
{
    if i < 0 || i >= s.len() {
        s.len() as int
    } else if s[i] == b {
        i
    } else {
        find_from(s, i + 1, b)
    }
}

/// Position of the first dash at or after `i` that stands outside
/// quotes, or `None`.
pub open spec fn dash_from(s: Seq<u8>, i: int, inq: bool) -> Option<int>
    decreases s.len() - i,
{
    if i < 0 || i >= s.len() {
        Option::None
    } else if s[i] == 45 && !inq {
        Option::Some(i)
    } else {
        dash_from(s, i + 1, if s[i] == 34 {
            !inq
        } else {
            inq
        })
    }
}

/// The items of an expression: split at the commas that stand outside
/// quotes, the current item having started at `c`.
pub open spec fn items_from(s: Seq<u8>, i: int, c: int, inq: bool) -> Seq<Seq<u8>>
    decreases s.len() - i,
{
    if i < 0 || i >= s.len() {
        seq![s.subrange(c, s.len() as int)]
    } else if s[i] == 44 && !inq {
        seq![s.subrange(c, i)] + items_from(s, i + 1, i + 1, false)
    } else {
        items_from(s, i + 1, c, if s[i] == 34 {
            !inq
        } else {
            inq
        })
    }
}

/// The comma-separated items of a selection expression.
pub open spec fn items_of(s: Seq<u8>) -> Seq<Seq<u8>> {
    items_from(s, 0, 0, false)
}

/// Every byte in `[a, b)` is a decimal digit.
pub open spec fn digits_in(s: Seq<u8>, a: int, b: int) -> bool {
    forall|k: int| a <= k < b ==> is_digit(#[trigger] s[k])
}

/// The value of the digits in `[i, len)` after `acc`, saturating at
/// `u64::MAX`; header widths keep saturation out of reach.
pub open spec fn sat_val(s: Seq<u8>, i: int, acc: u64) -> u64
    decreases s.len() - i,
{
    if i < 0 || i >= s.len() {
        acc
    } else {
        let v = acc * 10 + (s[i] - 48);
        sat_val(s, i + 1, if v > u64::MAX {
            u64::MAX
        } else {
            v as u64
        })
    }
}

/// The 0-based positions of the header fields that hold `name`, in
/// header order, from position `k` on.
pub open spec fn occurrences_from(name: Seq<u8>, headers: Seq<Seq<u8>>, k: int) -> Seq<int>
    decreases headers.len() - k,
{
    if k < 0 || k >= headers.len() {
        seq![]
    } else if headers[k] == name {
        seq![k] + occurrences_from(name, headers, k + 1)
    } else {
        occurrences_from(name, headers, k + 1)
    }
}

/// Resolves a name with an occurrence index against the header.
pub open spec fn lookup_spec(
    name: Seq<u8>,
    occ: u64,
    headers: Seq<Seq<u8>>,
    use_names: bool,
) -> Result<int, SelectError> {
    if !use_names {
        Result::Err(SelectError::NamedWithNoHeaders)
    } else {
        let ps = occurrences_from(name, headers, 0);
        if ps.len() == 0 {
            Result::Err(SelectError::UnknownHeader)
        } else if occ >= ps.len() {
            Result::Err(SelectError::OccurrenceOutOfBounds)
        } else {
            Result::Ok(ps[occ as int])
        }
    }
}

/// Resolves a name followed by its optional bracket, the bracket text
/// standing in `s` from `bi` on.
pub open spec fn named_spec(
    name: Seq<u8>,
    s: Seq<u8>,
    bi: int,
    headers: Seq<Seq<u8>>,
    use_names: bool,
) -> Result<int, SelectError> {
    if bi == s.len() {
        lookup_spec(name, 0, headers, use_names)
    } else if s[bi] != 91 {
        Result::Err(SelectError::MalformedRange)
    } else {
        let rb = find_from(s, bi + 1, 93);
        if rb == s.len() {
            Result::Err(SelectError::UnclosedBracket)
        } else if rb == bi + 1 || !digits_in(s, bi + 1, rb) {
            Result::Err(SelectError::BracketNotInteger)
        } else if rb + 1 != s.len() {
            Result::Err(SelectError::MalformedRange)
        } else {
            lookup_spec(name, sat_val(s.subrange(bi + 1, rb), 0, 0), headers, use_names)
        }
    }
}

/// Resolves one single selector — a bare position, or a name with an
/// optional occurrence bracket — to a 0-based column position.
pub open spec fn single_spec(
    s: Seq<u8>,
    headers: Seq<Seq<u8>>,
    use_names: bool,
) -> Result<int, SelectError> {
    if s.len() > 0 && s[0] == 34 {
        let cq = find_from(s, 1, 34);
        if cq == s.len() {
            Result::Err(SelectError::UnclosedQuote)
        } else {
            named_spec(s.subrange(1, cq), s, cq + 1, headers, use_names)
        }
    } else {
        let bp = find_from(s, 0, 91);
        if bp > 0 && digits_in(s, 0, bp) {
            if bp < s.len() {
                Result::Err(SelectError::BracketOnIndex)
            } else {
                let v = sat_val(s, 0, 0);
                if v == 0 || v > headers.len() {
                    Result::Err(SelectError::IndexOutOfBounds)
                } else {
                    Result::Ok(v - 1)
                }
            }
        } else {
            named_spec(s.subrange(0, bp), s, bp, headers, use_names)
        }
    }
}

/// The positions of an ascending or descending inclusive range.
pub open spec fn range_positions(a: int, b: int) -> Seq<int> {
    if a <= b {
        Seq::new((b - a + 1) as nat, |i: int| a + i)
    } else {
        Seq::new((a - b + 1) as nat, |i: int| a - i)
    }
}

/// Resolves one range endpoint: an open start means the first column,
/// an open end the last; open ends demand a nonempty header.
pub open spec fn endpoint_spec(
    s: Seq<u8>,
    open_default: int,
    headers: Seq<Seq<u8>>,
    use_names: bool,
) -> Result<int, SelectError> {
    if s.len() == 0 {
        if headers.len() == 0 {
            Result::Err(SelectError::IndexOutOfBounds)
        } else {
            Result::Ok(open_default)
        }
    } else {
        single_spec(s, headers, use_names)
    }
}

/// Resolves one item — after its `!` is stripped — to its positions:
/// a single selector, or a range over at most one unquoted dash.
pub open spec fn item_spec(
    t: Seq<u8>,
    headers: Seq<Seq<u8>>,
    use_names: bool,
) -> Result<Seq<int>, SelectError> {
    match dash_from(t, 0, false) {
        Option::None => match single_spec(t, headers, use_names) {
            Result::Ok(p) => Result::Ok(seq![p]),
            Result::Err(e) => Result::Err(e),
        },
        Option::Some(d) => {
            let l = t.subrange(0, d);
            let r = t.subrange(d + 1, t.len() as int);
            if dash_from(r, 0, false) is Some {
                Result::Err(SelectError::MalformedRange)
            } else {
                match endpoint_spec(l, 0, headers, use_names) {
                    Result::Err(e) => Result::Err(e),
                    Result::Ok(a) => match endpoint_spec(r, headers.len() - 1, headers, use_names) {
                        Result::Err(e) => Result::Err(e),
                        Result::Ok(b) => Result::Ok(range_positions(a, b)),
                    },
                }
            }
        },
    }
}

/// Whether an item carries the `!` negation mark.
pub open spec fn item_negated(item: Seq<u8>) -> bool {
    item.len() > 0 && item[0] == 33
}

/// An item without its negation mark.
pub open spec fn item_body(item: Seq<u8>) -> Seq<u8> {
    if item_negated(item) {
        item.drop_first()
    } else {
        item
    }
}

/// Resolves a list of items to the concatenation of their positions,
/// stopping at the first failing item.
pub open spec fn items_positions_spec(
    items: Seq<Seq<u8>>,
    headers: Seq<Seq<u8>>,
    use_names: bool,
) -> Result<Seq<int>, SelectError>
    decreases items.len(),
{
    if items.len() == 0 {
        Result::Ok(seq![])
    } else {
        match item_spec(item_body(items[0]), headers, use_names) {
            Result::Err(e) => Result::Err(e),
            Result::Ok(ps) => match items_positions_spec(items.drop_first(), headers, use_names) {
                Result::Err(e) => Result::Err(e),
                Result::Ok(rest) => Result::Ok(ps + rest),
            },
        }
    }
}

/// All columns not among `ps`, in header order.
pub open spec fn complement_spec(ps: Seq<int>, width: int) -> Seq<int> {
    Seq::new(if width >= 0 {
        width as nat
    } else {
        0
    }, |i: int| i).filter(|k: int| !ps.contains(k))
}

/// What a selection expression compiles to against a header: the
/// positions of its items in order, or — when every item is negated —
/// all other columns in header order; an error otherwise.
pub open spec fn selection_spec(
    s: Seq<u8>,
    headers: Seq<Seq<u8>>,
    use_names: bool,
) -> Result<Seq<int>, SelectError> {
    let items = items_of(s);
    match items_positions_spec(items, headers, use_names) {
        Result::Err(e) => Result::Err(e),
        Result::Ok(ps) => {
            if exists|i: int| 0 <= i < items.len() && item_negated(#[trigger] items[i])
                != item_negated(items[0]) {
                Result::Err(SelectError::MixedNegation)
            } else if item_negated(items[0]) {
                Result::Ok(complement_spec(ps, headers.len() as int))
            } else {
                Result::Ok(ps)
            }
        },
    }
}

/// Every position a selection compiles to lies inside the header.
pub open spec fn positions_in_width(ps: Seq<int>, width: int) -> bool {
    forall|i: int| 0 <= i < ps.len() ==> 0 <= #[trigger] ps[i] < width
}

pub proof fn lemma_occurrences_in_range(name: Seq<u8>, headers: Seq<Seq<u8>>, k: int)
    requires
        k >= 0,
    ensures
        forall|i: int|
            0 <= i < occurrences_from(name, headers, k).len() ==> k <= #[trigger] occurrences_from(
                name,
                headers,
                k,
            )[i] < headers.len(),
    decreases headers.len() - k,
{
    if 0 <= k < headers.len() {
        lemma_occurrences_in_range(name, headers, k + 1);
        let tail = occurrences_from(name, headers, k + 1);
        let whole = occurrences_from(name, headers, k);
        assert forall|i: int| 0 <= i < whole.len() implies k <= #[trigger] whole[i]
            < headers.len() by {
            if headers[k] == name {
                if i > 0 {
                    assert(whole[i] == tail[i - 1]);
                }
            } else {
                assert(whole[i] == tail[i]);
            }
        }
    }
}

pub proof fn lemma_single_in_range(s: Seq<u8>, headers: Seq<Seq<u8>>, use_names: bool)
    ensures
        single_spec(s, headers, use_names) matches Result::Ok(p) ==> 0 <= p < headers.len(),
{
    lemma_occurrences_in_range(s.subrange(1, find_from(s, 1, 34)), headers, 0);
    lemma_occurrences_in_range(s.subrange(0, find_from(s, 0, 91)), headers, 0);
}

pub proof fn lemma_item_in_range(t: Seq<u8>, headers: Seq<Seq<u8>>, use_names: bool)
    ensures
        item_spec(t, headers, use_names) matches Result::Ok(ps) ==> positions_in_width(
            ps,
            headers.len() as int,
        ),
{
    lemma_single_in_range(t, headers, use_names);
    match dash_from(t, 0, false) {
        Option::None => {},
        Option::Some(d) => {
            let l = t.subrange(0, d);
            let r = t.subrange(d + 1, t.len() as int);
            lemma_single_in_range(l, headers, use_names);
            lemma_single_in_range(r, headers, use_names);
        },
    }
}

pub proof fn lemma_items_positions_in_range(
    items: Seq<Seq<u8>>,
    headers: Seq<Seq<u8>>,
    use_names: bool,
)
    ensures
        items_positions_spec(items, headers, use_names) matches Result::Ok(ps)
            ==> positions_in_width(ps, headers.len() as int),
    decreases items.len(),
{
    if items.len() > 0 {
        lemma_item_in_range(item_body(items[0]), headers, use_names);
        lemma_items_positions_in_range(items.drop_first(), headers, use_names);
    }
}

fn find_from_ex(s: &Vec<u8>, from: usize, b: u8) -> (r: usize)
    requires
        from <= s.len(),
    ensures
        r as int == find_from(s@, from as int, b),
        from <= r <= s.len(),
{
    let mut i = from;
    while i < s.len()
        invariant
            from <= i <= s.len(),
            find_from(s@, from as int, b) == find_from(s@, i as int, b),
        decreases s.len() - i,
    {
        if s[i] == b {
            return i;
        }
        i += 1;
    }
    i
}

fn dash_from_ex(s: &Vec<u8>) -> (r: Option<usize>)
    ensures
        match r {
            Option::Some(d) => dash_from(s@, 0, false) == Option::Some(d as int) && d < s.len(),
            Option::None => dash_from(s@, 0, false) is None,
        },
{
    let mut i: usize = 0;
    let mut inq = false;
    while i < s.len()
        invariant
            0 <= i <= s.len(),
            dash_from(s@, 0, false) == dash_from(s@, i as int, inq),
        decreases s.len() - i,
    {
        if s[i] == 45 && !inq {
            return Some(i);
        }
        if s[i] == 34 {
            inq = !inq;
        }
        i += 1;
    }
    None
}

fn digits_in_ex(s: &Vec<u8>, a: usize, b: usize) -> (r: bool)
    requires
        a <= b <= s.len(),
    ensures
        r == digits_in(s@, a as int, b as int),
{
    let mut k = a;
    while k < b
        invariant
            a <= k <= b <= s.len(),
            forall|j: int| a <= j < k ==> is_digit(#[trigger] s@[j]),
        decreases b - k,
    {
        if !crate::num::is_digit_ex(s[k]) {
            assert(!is_digit(s@[k as int]));
            return false;
        }
        k += 1;
    }
    true
}

fn sat_val_ex(s: &Vec<u8>, from: usize) -> (r: u64)
    requires
        from <= s.len(),
        digits_in(s@, from as int, s.len() as int),
    ensures
        r == sat_val(s@, from as int, 0),
{
    let mut i = from;
    let mut acc: u64 = 0;
    while i < s.len()
        invariant
            from <= i <= s.len(),
            digits_in(s@, from as int, s.len() as int),
            sat_val(s@, from as int, 0) == sat_val(s@, i as int, acc),
        decreases s.len() - i,
    {
        assert(is_digit(s@[i as int]));
        let d = (s[i] - 48) as u64;
        if acc > (u64::MAX - d) / 10 {
            proof {
                assert(acc * 10 + d > u64::MAX) by (nonlinear_arith)
                    requires
                        acc > (u64::MAX - d) / 10,
                        d <= 9,
                ;
            }
            acc = u64::MAX;
        } else {
            proof {
                assert(acc * 10 + d <= u64::MAX) by (nonlinear_arith)
                    requires
                        acc <= (u64::MAX - d) / 10,
                        d <= 9,
                ;
            }
            acc = acc * 10 + d;
        }
        i += 1;
    }
    acc
}

fn occurrences_ex(name: &Vec<u8>, headers: &Vec<Vec<u8>>) -> (r: Vec<usize>)
    ensures
        r@.map_values(|p: usize| p as int) == occurrences_from(name@, headers.deep_view(), 0),
        forall|i: int| 0 <= i < r@.len() ==> #[trigger] r@[i] < headers@.len(),
{
    let mut out: Vec<usize> = Vec::new();
    let mut k: usize = 0;
    while k < headers.len()
        invariant
            0 <= k <= headers@.len(),
            forall|i: int| 0 <= i < out@.len() ==> #[trigger] out@[i] < headers@.len(),
            occurrences_from(name@, headers.deep_view(), 0) =~= out@.map_values(
                |p: usize| p as int,
            ) + occurrences_from(name@, headers.deep_view(), k as int),
        decreases headers@.len() - k,
    {
        proof {
            crate::common::lemma_fields_deep_view(headers);
        }
        if crate::common::fields_eq(&headers[k], name) {
            out.push(k);
            proof {
                assert(out@.map_values(|p: usize| p as int) =~= out@.drop_last().map_values(
                    |p: usize| p as int,
                ).push(k as int));
            }
        }
        k += 1;
    }
    out
}

fn lookup_ex(name: &Vec<u8>, occ: u64, headers: &Vec<Vec<u8>>, use_names: bool) -> (r: Result<
    usize,
    SelectError,
>)
    ensures
        match r {
            Result::Ok(p) => lookup_spec(name@, occ, headers.deep_view(), use_names)
                == Result::<int, SelectError>::Ok(p as int) && p < headers@.len(),
            Result::Err(e) => lookup_spec(name@, occ, headers.deep_view(), use_names)
                == Result::<int, SelectError>::Err(e),
        },
{
    if !use_names {
        return Err(SelectError::NamedWithNoHeaders);
    }
    let ps = occurrences_ex(name, headers);
    if ps.len() == 0 {
        proof {
            assert(occurrences_from(name@, headers.deep_view(), 0) =~= Seq::<int>::empty());
        }
        Err(SelectError::UnknownHeader)
    } else if occ >= ps.len() as u64 {
        Err(SelectError::OccurrenceOutOfBounds)
    } else {
        let p = ps[occ as usize];
        proof {
            assert(ps@.map_values(|q: usize| q as int)[occ as int] == p as int);
        }
        Ok(p)
    }
}

fn named_ex(name: &Vec<u8>, s: &Vec<u8>, bi: usize, headers: &Vec<Vec<u8>>, use_names: bool) -> (r:
    Result<usize, SelectError>)
    requires
        bi <= s.len(),
    ensures
        match r {
            Result::Ok(p) => named_spec(name@, s@, bi as int, headers.deep_view(), use_names)
                == Result::<int, SelectError>::Ok(p as int) && p < headers@.len(),
            Result::Err(e) => named_spec(name@, s@, bi as int, headers.deep_view(), use_names)
                == Result::<int, SelectError>::Err(e),
        },
{
    if bi == s.len() {
        lookup_ex(name, 0, headers, use_names)
    } else if s[bi] != 91 {
        Err(SelectError::MalformedRange)
    } else {
        let rb = find_from_ex(s, bi + 1, 93);
        if rb == s.len() {
            Err(SelectError::UnclosedBracket)
        } else if rb == bi + 1 || !digits_in_ex(s, bi + 1, rb) {
            Err(SelectError::BracketNotInteger)
        } else if rb + 1 != s.len() {
            Err(SelectError::MalformedRange)
        } else {
            let content = crate::common::copy_range(s, bi + 1, rb);
            proof {
                assert(digits_in(content@, 0, content@.len() as int)) by {
                    assert forall|k: int| 0 <= k < content@.len() implies is_digit(
                        #[trigger] content@[k],
                    ) by {
                        assert(content@[k] == s@[bi + 1 + k]);
                    }
                }
            }
            let occ = sat_val_ex(&content, 0);
            lookup_ex(name, occ, headers, use_names)
        }
    }
}

fn single_ex(s: &Vec<u8>, headers: &Vec<Vec<u8>>, use_names: bool) -> (r: Result<
    usize,
    SelectError,
>)
    ensures
        match r {
            Result::Ok(p) => single_spec(s@, headers.deep_view(), use_names) == Result::<
                int,
                SelectError,
            >::Ok(p as int) && p < headers@.len(),
            Result::Err(e) => single_spec(s@, headers.deep_view(), use_names) == Result::<
                int,
                SelectError,
            >::Err(e),
        },
{
    if s.len() > 0 && s[0] == 34 {
        let cq = find_from_ex(s, 1, 34);
        if cq == s.len() {
            Err(SelectError::UnclosedQuote)
        } else {
            let name = crate::common::copy_range(s, 1, cq);
            named_ex(&name, s, cq + 1, headers, use_names)
        }
    } else {
        let bp = find_from_ex(s, 0, 91);
        if bp > 0 && digits_in_ex(s, 0, bp) {
            if bp < s.len() {
                Err(SelectError::BracketOnIndex)
            } else {
                let v = sat_val_ex(s, 0);
                if v == 0 || v > headers.len() as u64 {
                    Err(SelectError::IndexOutOfBounds)
                } else {
                    proof {
                        assert(headers.deep_view().len() == headers@.len());
                    }
                    Ok((v - 1) as usize)
                }
            }
        } else {
            let name = crate::common::copy_range(s, 0, bp);
            named_ex(&name, s, bp, headers, use_names)
        }
    }
}

fn endpoint_ex(s: &Vec<u8>, open_default: usize, headers: &Vec<Vec<u8>>, use_names: bool) -> (r:
    Result<usize, SelectError>)
    requires
        headers@.len() > 0 ==> open_default < headers@.len(),
    ensures
        match r {
            Result::Ok(p) => endpoint_spec(
                s@,
                open_default as int,
                headers.deep_view(),
                use_names,
            ) == Result::<int, SelectError>::Ok(p as int) && p < headers@.len(),
            Result::Err(e) => endpoint_spec(
                s@,
                open_default as int,
                headers.deep_view(),
                use_names,
            ) == Result::<int, SelectError>::Err(e),
        },
{
    if s.len() == 0 {
        if headers.len() == 0 {
            Err(SelectError::IndexOutOfBounds)
        } else {
            Ok(open_default)
        }
    } else {
        single_ex(s, headers, use_names)
    }
}

fn item_ex(t: &Vec<u8>, headers: &Vec<Vec<u8>>, use_names: bool) -> (r: Result<
    Vec<usize>,
    SelectError,
>)
    ensures
        match r {
            Result::Ok(ps) => item_spec(t@, headers.deep_view(), use_names) == Result::<
                Seq<int>,
                SelectError,
            >::Ok(ps@.map_values(|p: usize| p as int)) && forall|i: int|
                0 <= i < ps@.len() ==> #[trigger] ps@[i] < headers@.len(),
            Result::Err(e) => item_spec(t@, headers.deep_view(), use_names) == Result::<
                Seq<int>,
                SelectError,
            >::Err(e),
        },
{
    match dash_from_ex(t) {
        Option::None => {
            match single_ex(t, headers, use_names) {
                Result::Ok(p) => {
                    let mut ps: Vec<usize> = Vec::new();
                    ps.push(p);
                    proof {
                        assert(ps@.map_values(|q: usize| q as int) =~= seq![p as int]);
                    }
                    Ok(ps)
                },
                Result::Err(e) => Err(e),
            }
        },
        Option::Some(d) => {
            let l = crate::common::copy_range(t, 0, d);
            let rr = crate::common::copy_range(t, d + 1, t.len());
            if dash_from_ex(&rr).is_some() {
                return Err(SelectError::MalformedRange);
            }
            let w = headers.len();
            let open_end = if w == 0 {
                0
            } else {
                w - 1
            };
            proof {
                assert(headers.deep_view().len() == headers@.len());
            }
            match endpoint_ex(&l, 0, headers, use_names) {
                Result::Err(e) => Err(e),
                Result::Ok(a) => match endpoint_ex(&rr, open_end, headers, use_names) {
                    Result::Err(e) => Err(e),
                    Result::Ok(b) => {
                        let mut ps: Vec<usize> = Vec::new();
                        if a <= b {
                            let mut p = a;
                            while p <= b
                                invariant
                                    a <= p <= b + 1,
                                    b < headers@.len(),
                                    headers@.len() <= usize::MAX,
                                    ps@.len() == p - a,
                                    forall|i: int| 0 <= i < ps@.len() ==> #[trigger] ps@[i] == a
                                        + i,
                                decreases b + 1 - p,
                            {
                                ps.push(p);
                                p += 1;
                            }
                            proof {
                                assert(ps@.map_values(|q: usize| q as int) =~= range_positions(
                                    a as int,
                                    b as int,
                                ));
                            }
                        } else {
                            let mut p = a;
                            loop
                                invariant_except_break
                                    b <= p <= a < headers@.len(),
                                    ps@.len() == a - p,
                                    forall|i: int| 0 <= i < ps@.len() ==> #[trigger] ps@[i] == a
                                        - i,
                                ensures
                                    ps@.len() == a - b + 1,
                                    forall|i: int| 0 <= i < ps@.len() ==> #[trigger] ps@[i] == a
                                        - i,
                                decreases p,
                            {
                                ps.push(p);
                                if p == b {
                                    break ;
                                }
                                p -= 1;
                            }
                            proof {
                                assert(ps@.map_values(|q: usize| q as int) =~= range_positions(
                                    a as int,
                                    b as int,
                                ));
                            }
                        }
                        Ok(ps)
                    },
                },
            }
        },
    }
}

/// Splits a selection expression into its items at the commas that
/// stand outside quotes.
fn split_items(s: &Vec<u8>) -> (r: Vec<Vec<u8>>)
    ensures
        r.deep_view() == items_of(s@),
        r@.len() > 0,
{
    let mut out: Vec<Vec<u8>> = Vec::new();
    let mut i: usize = 0;
    let mut c: usize = 0;
    let mut inq = false;
    while i < s.len()
        invariant
            0 <= c <= i <= s.len(),
            items_of(s@) =~= out.deep_view() + items_from(s@, i as int, c as int, inq),
        decreases s.len() - i,
    {
        if s[i] == 44 && !inq {
            let item = crate::common::copy_range(s, c, i);
            let ghost prev = out.deep_view();
            let ghost itemv = item@;
            out.push(item);
            proof {
                assert(out.deep_view() =~~= prev.push(itemv));
            }
            c = i + 1;
        } else {
            if s[i] == 34 {
                inq = !inq;
            }
        }
        i += 1;
    }
    let item = crate::common::copy_range(s, c, s.len());
    let ghost prev = out.deep_view();
    let ghost itemv = item@;
    out.push(item);
    proof {
        assert(out.deep_view() =~~= prev.push(itemv));
        assert(out.deep_view() =~= items_of(s@));
    }
    out
}

/// Whether one tokenized item carries the negation mark.
fn item_negated_ex(item: &Vec<u8>) -> (r: bool)
    ensures
        r == item_negated(item@),
{
    item.len() > 0 && item[0] == 33
}

fn items_positions_ex(items: &Vec<Vec<u8>>, headers: &Vec<Vec<u8>>, use_names: bool) -> (r: Result<
    Vec<usize>,
    SelectError,
>)
    ensures
        match r {
            Result::Ok(ps) => items_positions_spec(items.deep_view(), headers.deep_view(), use_names)
                == Result::<Seq<int>, SelectError>::Ok(ps@.map_values(|p: usize| p as int)),
            Result::Err(e) => items_positions_spec(
                items.deep_view(),
                headers.deep_view(),
                use_names,
            ) == Result::<Seq<int>, SelectError>::Err(e),
        },
{
    let mut acc: Vec<usize> = Vec::new();
    proof {
        assert(items.deep_view().skip(0) =~= items.deep_view());
        let spec_full = items_positions_spec(items.deep_view(), headers.deep_view(), use_names);
        if spec_full is Ok {
            assert(acc@.map_values(|p: usize| p as int) + spec_full->Ok_0 =~= spec_full->Ok_0);
        }
    }
    let mut k: usize = 0;
    while k < items.len()
        invariant
            0 <= k <= items@.len(),
            items.deep_view().len() == items@.len(),
            items_positions_spec(items.deep_view(), headers.deep_view(), use_names) == (
            match items_positions_spec(
                items.deep_view().skip(k as int),
                headers.deep_view(),
                use_names,
            ) {
                Result::<Seq<int>, SelectError>::Ok(rest) => Result::<Seq<int>, SelectError>::Ok(
                    acc@.map_values(|p: usize| p as int) + rest,
                ),
                Result::<Seq<int>, SelectError>::Err(e) => Result::<Seq<int>, SelectError>::Err(e),
            }),
        decreases items@.len() - k,
    {
        let item = &items[k];
        let body = if item.len() > 0 && item[0] == 33 {
            crate::common::copy_range(item, 1, item.len())
        } else {
            crate::common::copy_range(item, 0, item.len())
        };
        proof {
            assert(items.deep_view()[k as int] == items@[k as int]@);
            assert(body@ == item_body(items.deep_view()[k as int]));
            assert(items.deep_view().skip(k as int)[0] == items.deep_view()[k as int]);
            assert(items.deep_view().skip(k as int).drop_first() =~= items.deep_view().skip(
                k + 1 as int,
            ));
        }
        match item_ex(&body, headers, use_names) {
            Result::Err(e) => {
                return Err(e);
            },
            Result::Ok(mut ps) => {
                let ghost accv = acc@.map_values(|p: usize| p as int);
                let ghost psv = ps@.map_values(|p: usize| p as int);
                acc.append(&mut ps);
                proof {
                    assert(acc@.map_values(|p: usize| p as int) =~= accv + psv);
                    let spec_rest = items_positions_spec(
                        items.deep_view().skip(k + 1 as int),
                        headers.deep_view(),
                        use_names,
                    );
                    if spec_rest is Ok {
                        let rest = spec_rest->Ok_0;
                        assert((accv + psv) + rest =~= accv + (psv + rest));
                    }
                }
            },
        }
        k += 1;
    }
    proof {
        assert(items.deep_view().skip(items@.len() as int) =~= Seq::<Seq<u8>>::empty());
        assert(acc@.map_values(|p: usize| p as int) + Seq::<int>::empty() =~= acc@.map_values(
            |p: usize| p as int,
        ));
    }
    Ok(acc)
}

/// Whether `k` stands among the selected positions.
fn contains_pos(ps: &Vec<usize>, k: usize) -> (r: bool)
    ensures
        r == ps@.map_values(|p: usize| p as int).contains(k as int),
{
    let ghost m = ps@.map_values(|p: usize| p as int);
    let mut i: usize = 0;
    while i < ps.len()
        invariant
            0 <= i <= ps@.len(),
            m == ps@.map_values(|p: usize| p as int),
            forall|j: int| 0 <= j < i ==> #[trigger] ps@[j] != k,
        decreases ps@.len() - i,
    {
        if ps[i] == k {
            proof {
                assert(m[i as int] == k as int);
            }
            return true;
        }
        i += 1;
    }
    proof {
        assert(!m.contains(k as int)) by {
            if m.contains(k as int) {
                let j = choose|j: int| 0 <= j < m.len() && m[j] == k as int;
                assert(ps@[j] != k);
                assert(m[j] == ps@[j] as int);
            }
        }
    }
    false
}

/// All columns of `[0, width)` not among `ps`, in header order.
fn complement_ex(ps: &Vec<usize>, width: usize) -> (r: Vec<usize>)
    ensures
        r@.map_values(|p: usize| p as int) == complement_spec(
            ps@.map_values(|p: usize| p as int),
            width as int,
        ),
{
    let ghost m = ps@.map_values(|p: usize| p as int);
    let mut out: Vec<usize> = Vec::new();
    let mut k: usize = 0;
    while k < width
        invariant
            0 <= k <= width,
            m == ps@.map_values(|p: usize| p as int),
            out@.map_values(|p: usize| p as int) =~= complement_spec(m, k as int),
        decreases width - k,
    {
        let ghost prevm = out@.map_values(|p: usize| p as int);
        let keep = !contains_pos(ps, k);
        if keep {
            out.push(k);
            proof {
                assert(out@.map_values(|p: usize| p as int) =~= prevm.push(k as int));
            }
        }
        proof {
            let all_k = Seq::new(k as nat, |i: int| i);
            let all_k1 = Seq::new((k + 1) as nat, |i: int| i);
            assert(all_k1 =~= all_k.push(k as int));
            all_k.lemma_filter_push(k as int, |q: int| !m.contains(q));
        }
        k += 1;
    }
    out
}

/// A compiled selection: an ordered list of 0-based column positions,
/// possibly with duplicates, each below the width of the header it was
/// compiled against.
#[derive(Debug)]
pub struct Selection {
    pub positions: Vec<usize>,
}

impl View for Selection {
    type V = Seq<int>;

    open spec fn view(&self) -> Seq<int> {
        self.positions@.map_values(|p: usize| p as int)
    }
}

/// Projecting a row through a selection: the selected fields, in
/// selection order.
pub open spec fn apply_selection(sel: Seq<int>, row: Seq<Seq<u8>>) -> Seq<Seq<u8>> {
    sel.map_values(|p: int| row[p])
}

impl Selection {
    /// Every position lies below `width`.
    pub open spec fn valid_for(&self, width: int) -> bool {
        positions_in_width(self@, width)
    }

    /// How many columns the selection names.
    pub fn len(&self) -> (n: usize)
        ensures
            n == self@.len(),
    {
        self.positions.len()
    }

    /// Projects one row through the selection.
    pub fn select(&self, row: &Vec<Vec<u8>>) -> (r: Vec<Vec<u8>>)
        requires
            self.valid_for(row@.len() as int),
        ensures
            r.deep_view() == apply_selection(self@, row.deep_view()),
    {
        let mut out: Vec<Vec<u8>> = Vec::new();
        let mut i: usize = 0;
        while i < self.positions.len()
            invariant
                0 <= i <= self.positions@.len(),
                self.valid_for(row@.len() as int),
                out.deep_view().len() == i as int,
                forall|j: int|
                    0 <= j < i ==> #[trigger] out.deep_view()[j] == row.deep_view()[self@[j]],
            decreases self.positions@.len() - i,
        {
            proof {
                assert(self@[i as int] == self.positions@[i as int] as int);
                crate::common::lemma_fields_deep_view(row);
            }
            let p = self.positions[i];
            let field = crate::common::copy_range(&row[p], 0, row[p].len());
            let ghost prev = out.deep_view();
            let ghost fv = field@;
            out.push(field);
            proof {
                assert(out.deep_view() =~~= prev.push(fv));
                assert(row@[p as int]@ =~= row@[p as int]@.subrange(0, row@[p as int]@.len() as int));
            }
            i += 1;
        }
        proof {
            assert(out.deep_view() =~= apply_selection(self@, row.deep_view()));
        }
        out
    }
}

/// Compiles a selection expression against a header row. With
/// `use_names` off (headerless input) only positional selectors are
/// accepted. On success every returned position lies below the header
/// width; every failure is reported as the `SelectError` the
/// expression earns.
pub fn selection(expr: &Vec<u8>, headers: &Vec<Vec<u8>>, use_names: bool) -> (r: Result<
    Selection,
    SelectError,
>)
    ensures
        match r {
            Result::Ok(sel) => selection_spec(expr@, headers.deep_view(), use_names) == Result::<
                Seq<int>,
                SelectError,
            >::Ok(sel@) && sel.valid_for(headers@.len() as int),
            Result::Err(e) => selection_spec(expr@, headers.deep_view(), use_names) == Result::<
                Seq<int>,
                SelectError,
            >::Err(e),
        },
{
    proof {
        lemma_selection_coverage(expr@, headers.deep_view(), use_names);
        assert(headers.deep_view().len() == headers@.len());
    }
    let items = split_items(expr);
    let positions = match items_positions_ex(&items, headers, use_names) {
        Result::Err(e) => {
            return Err(e);
        },
        Result::Ok(ps) => ps,
    };
    // Negation must be all or nothing across the items.
    let neg0 = item_negated_ex(&items[0]);
    let mut k: usize = 1;
    while k < items.len()
        invariant
            1 <= k <= items@.len(),
            items.deep_view().len() == items@.len(),
            items.deep_view() == items_of(expr@),
            neg0 == item_negated(items.deep_view()[0]),
            items_positions_spec(items.deep_view(), headers.deep_view(), use_names) == Result::<
                Seq<int>,
                SelectError,
            >::Ok(positions@.map_values(|p: usize| p as int)),
            forall|j: int|
                0 <= j < k ==> item_negated(#[trigger] items.deep_view()[j]) == item_negated(
                    items.deep_view()[0],
                ),
        decreases items@.len() - k,
    {
        proof {
            assert(items.deep_view()[k as int] == items@[k as int]@);
        }
        if item_negated_ex(&items[k]) != neg0 {
            proof {
                assert(item_negated(items.deep_view()[k as int]) != item_negated(
                    items.deep_view()[0],
                ));
            }
            return Err(SelectError::MixedNegation);
        }
        k += 1;
    }
    proof {
        assert(!(exists|i: int|
            0 <= i < items.deep_view().len() && item_negated(#[trigger] items.deep_view()[i])
                != item_negated(items.deep_view()[0])));
    }
    if neg0 {
        let comp = complement_ex(&positions, headers.len());
        Ok(Selection { positions: comp })
    } else {
        Ok(Selection { positions })
    }
}

/// Selection identity: a selection applied twice to the same header
/// gives the same result both times — projection is a function of the
/// selection and the row alone.
pub proof fn lemma_selection_identity(
    r1: Seq<Seq<u8>>,
    r2: Seq<Seq<u8>>,
    sel: Seq<int>,
    header: Seq<Seq<u8>>,
)
    requires
        r1 == apply_selection(sel, header),
        r2 == apply_selection(sel, header),
    ensures
        r1 == r2,
{
}

/// The complement only ever names columns inside the header.
pub proof fn lemma_complement_in_range(ps: Seq<int>, w: int)
    requires
        w >= 0,
    ensures
        positions_in_width(complement_spec(ps, w), w),
    decreases w,
{
    reveal(Seq::filter);
    if w > 0 {
        lemma_complement_in_range(ps, w - 1);
        let all = Seq::new(w as nat, |i: int| i);
        let prev = Seq::new((w - 1) as nat, |i: int| i);
        assert(all.drop_last() =~= prev);
        assert(all.last() == w - 1);
    }
}

/// Selection coverage: whatever the expression and the header, every
/// compiled position lies below the header width.
pub proof fn lemma_selection_coverage(s: Seq<u8>, headers: Seq<Seq<u8>>, use_names: bool)
    ensures
        selection_spec(s, headers, use_names) matches Result::Ok(ps) ==> positions_in_width(
            ps,
            headers.len() as int,
        ),
{
    lemma_items_positions_in_range(items_of(s), headers, use_names);
    lemma_complement_in_range(
        match items_positions_spec(items_of(s), headers, use_names) {
            Result::Ok(ps) => ps,
            Result::Err(_) => seq![],
        },
        headers.len() as int,
    );
}

} // verus!
