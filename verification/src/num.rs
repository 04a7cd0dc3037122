//! Numeric keys: a field is read as a decimal number — optional sign,
//! integer digits, an optional fraction — and numbers are ordered by
//! value through a normalized digit representation, so that numeric
//! sorting and joining need no floating point.
use vstd::prelude::*;
use crate::common::{bytes_lt, lemma_bytes_lt_trichotomy, lemma_bytes_lt_transitive,
    lemma_fields_deep_view};

verus! {

/// A parsed decimal in normal form: no leading zeros on the integer
/// digits, no trailing zeros on the fraction digits, and zero is never
/// negative. Two equal values always have equal normal forms.
pub struct Num {
    pub neg: bool,
    pub int_digits: Vec<u8>,
    pub frac_digits: Vec<u8>,
}

/// The mathematical content of a parsed decimal.
pub ghost struct NumV {
    pub neg: bool,
    pub ip: Seq<u8>,
    pub fp: Seq<u8>,
}

impl View for Num {
    type V = NumV;

    open spec fn view(&self) -> NumV {
        NumV { neg: self.neg, ip: self.int_digits@, fp: self.frac_digits@ }
    }
}

pub open spec fn is_digit(b: u8) -> bool {
    48 <= b && b <= 57
}

pub open spec fn all_digits(s: Seq<u8>) -> bool {
    forall|i: int| 0 <= i < s.len() ==> is_digit(#[trigger] s[i])
}

/// Index of the first `.` in `s`, or `s.len()` when there is none.
pub open spec fn dot_index(s: Seq<u8>) -> int
    decreases s.len(),
{
    if s.len() == 0 {
        0
    } else if s[0] == 46 {
        0
    } else {
        1 + dot_index(s.drop_first())
    }
}

pub open spec fn int_part(s: Seq<u8>) -> Seq<u8> {
    s.take(dot_index(s))
}

pub open spec fn frac_part(s: Seq<u8>) -> Seq<u8> {
    if dot_index(s) == s.len() {
        Seq::empty()
    } else {
        s.skip(dot_index(s) + 1)
    }
}

/// An unsigned decimal literal: digits around at most one dot, with at
/// least one digit in all.
pub open spec fn unsigned_ok(s: Seq<u8>) -> bool {
    &&& all_digits(int_part(s))
    &&& all_digits(frac_part(s))
    &&& int_part(s).len() + frac_part(s).len() > 0
}

pub open spec fn strip_leading_zeros(s: Seq<u8>) -> Seq<u8>
    decreases s.len(),
{
    if s.len() > 0 && s[0] == 48 {
        strip_leading_zeros(s.drop_first())
    } else {
        s
    }
}

pub open spec fn strip_trailing_zeros(s: Seq<u8>) -> Seq<u8>
    decreases s.len(),
{
    if s.len() > 0 && s.last() == 48 {
        strip_trailing_zeros(s.drop_last())
    } else {
        s
    }
}

/// Sign byte split off the front: `(negative, rest)`.
pub open spec fn sign_split(s: Seq<u8>) -> (bool, Seq<u8>) {
    if s.len() > 0 && s[0] == 45 {
        (true, s.drop_first())
    } else if s.len() > 0 && s[0] == 43 {
        (false, s.drop_first())
    } else {
        (false, s)
    }
}

/// What a field parses to as a decimal number: its normal form, or
/// `None` when the bytes are not a decimal literal. The grammar is
/// deliberately narrower than 64-bit float parsing, which cannot live
/// in verified code: exponent notation (`1e3`), `inf` and `NaN`
/// spellings are not numbers here and sort with the non-numeric
/// fields.
pub open spec fn num_of(s: Seq<u8>) -> Option<NumV> {
    let neg = sign_split(s).0;
    let u = sign_split(s).1;
    if unsigned_ok(u) {
        let ip = strip_leading_zeros(int_part(u));
        let fp = strip_trailing_zeros(frac_part(u));
        Some(NumV { neg: neg && !(ip.len() == 0 && fp.len() == 0), ip: ip, fp: fp })
    } else {
        None
    }
}

/// Order on magnitudes in normal form: more integer digits means a
/// larger value; with equally many, the digits decide lexicographically,
/// then the fraction digits.
pub open spec fn mag_lt(a: NumV, b: NumV) -> bool {
    if a.ip.len() != b.ip.len() {
        a.ip.len() < b.ip.len()
    } else if a.ip != b.ip {
        bytes_lt(a.ip, b.ip)
    } else {
        bytes_lt(a.fp, b.fp)
    }
}

/// Strict value order on decimals in normal form.
pub open spec fn num_lt(a: NumV, b: NumV) -> bool {
    if a.neg != b.neg {
        a.neg
    } else if a.neg {
        mag_lt(b, a)
    } else {
        mag_lt(a, b)
    }
}

/// Order on parsed fields: a field that is not a number sorts before
/// every number, as the numeric comparators of `sort` treat it.
pub open spec fn numfield_lt(a: Option<NumV>, b: Option<NumV>) -> bool {
    match (a, b) {
        (Option::None, Option::Some(_)) => true,
        (Option::Some(x), Option::Some(y)) => num_lt(x, y),
        _ => false,
    }
}

/// Strict numeric order on whole keys: field by field on parsed values,
/// a shorter key that matches a prefix of the other coming first.
pub open spec fn numkey_lt(a: Seq<Seq<u8>>, b: Seq<Seq<u8>>) -> bool
    decreases a.len(),
{
    if b.len() == 0 {
        false
    } else if a.len() == 0 {
        true
    } else if numfield_lt(num_of(a[0]), num_of(b[0])) {
        true
    } else if numfield_lt(num_of(b[0]), num_of(a[0])) {
        false
    } else {
        numkey_lt(a.drop_first(), b.drop_first())
    }
}

/// Two keys that parse to the same list of numeric values (or the same
/// failures) are numerically equal.
pub open spec fn numkey_eq(a: Seq<Seq<u8>>, b: Seq<Seq<u8>>) -> bool {
    a.len() == b.len() && forall|i: int|
        0 <= i < a.len() ==> #[trigger] num_of(a[i]) == num_of(b[i])
}

pub proof fn lemma_num_trichotomy(a: NumV, b: NumV)
    ensures
        num_lt(a, b) || a == b || num_lt(b, a),
        num_lt(a, b) ==> !(a == b) && !num_lt(b, a),
        a == b ==> !num_lt(a, b) && !num_lt(b, a),
{
    lemma_bytes_lt_trichotomy(a.ip, b.ip);
    lemma_bytes_lt_trichotomy(a.fp, b.fp);
}

pub proof fn lemma_mag_transitive(a: NumV, b: NumV, c: NumV)
    requires
        mag_lt(a, b),
        mag_lt(b, c),
    ensures
        mag_lt(a, c),
{
    lemma_bytes_lt_trichotomy(a.ip, b.ip);
    lemma_bytes_lt_trichotomy(b.ip, c.ip);
    lemma_bytes_lt_trichotomy(a.ip, c.ip);
    if a.ip.len() == b.ip.len() && b.ip.len() == c.ip.len() {
        if a.ip != b.ip && b.ip != c.ip {
            lemma_bytes_lt_transitive(a.ip, b.ip, c.ip);
        } else if a.ip == b.ip && b.ip == c.ip {
            lemma_bytes_lt_transitive(a.fp, b.fp, c.fp);
        }
    }
}

pub proof fn lemma_num_transitive(a: NumV, b: NumV, c: NumV)
    requires
        num_lt(a, b),
        num_lt(b, c),
    ensures
        num_lt(a, c),
{
    if a.neg == b.neg && b.neg == c.neg {
        if a.neg {
            lemma_mag_transitive(c, b, a);
        } else {
            lemma_mag_transitive(a, b, c);
        }
    }
}

pub proof fn lemma_numfield_trichotomy(a: Option<NumV>, b: Option<NumV>)
    ensures
        numfield_lt(a, b) || a == b || numfield_lt(b, a),
        numfield_lt(a, b) ==> !(a == b) && !numfield_lt(b, a),
        a == b ==> !numfield_lt(a, b) && !numfield_lt(b, a),
{
    match (a, b) {
        (Option::Some(x), Option::Some(y)) => {
            lemma_num_trichotomy(x, y);
        },
        _ => {},
    }
}

pub proof fn lemma_numfield_transitive(a: Option<NumV>, b: Option<NumV>, c: Option<NumV>)
    requires
        numfield_lt(a, b),
        numfield_lt(b, c),
    ensures
        numfield_lt(a, c),
{
    match (a, b, c) {
        (Option::Some(x), Option::Some(y), Option::Some(z)) => {
            lemma_num_transitive(x, y, z);
        },
        _ => {},
    }
}

pub proof fn lemma_numkey_trichotomy(a: Seq<Seq<u8>>, b: Seq<Seq<u8>>)
    ensures
        numkey_lt(a, b) || numkey_eq(a, b) || numkey_lt(b, a),
        numkey_lt(a, b) ==> !numkey_eq(a, b) && !numkey_lt(b, a),
        numkey_eq(a, b) ==> !numkey_lt(a, b) && !numkey_lt(b, a),
    decreases a.len(),
{
    if a.len() > 0 && b.len() > 0 {
        lemma_numfield_trichotomy(num_of(a[0]), num_of(b[0]));
        if !numfield_lt(num_of(a[0]), num_of(b[0])) && !numfield_lt(num_of(b[0]), num_of(a[0])) {
            lemma_numkey_trichotomy(a.drop_first(), b.drop_first());
            if numkey_eq(a.drop_first(), b.drop_first()) {
                assert forall|i: int| 0 <= i < a.len() implies #[trigger] num_of(a[i]) == num_of(
                    b[i],
                ) by {
                    if i > 0 {
                        assert(num_of(a.drop_first()[i - 1]) == num_of(b.drop_first()[i - 1]));
                        assert(a[i] == a.drop_first()[i - 1]);
                        assert(b[i] == b.drop_first()[i - 1]);
                    }
                }
            }
            if numkey_eq(a, b) {
                assert forall|i: int|
                    0 <= i < a.drop_first().len() implies #[trigger] num_of(
                    a.drop_first()[i],
                ) == num_of(b.drop_first()[i]) by {
                    assert(num_of(a[i + 1]) == num_of(b[i + 1]));
                }
            }
        } else {
            if numkey_eq(a, b) {
                assert(num_of(a[0]) == num_of(b[0]));
            }
        }
    }
}

pub proof fn lemma_numkey_transitive(a: Seq<Seq<u8>>, b: Seq<Seq<u8>>, c: Seq<Seq<u8>>)
    requires
        numkey_lt(a, b),
        numkey_lt(b, c),
    ensures
        numkey_lt(a, c),
    decreases a.len(),
{
    if a.len() > 0 && b.len() > 0 && c.len() > 0 {
        lemma_numfield_trichotomy(num_of(a[0]), num_of(b[0]));
        lemma_numfield_trichotomy(num_of(b[0]), num_of(c[0]));
        if numfield_lt(num_of(a[0]), num_of(b[0])) && numfield_lt(num_of(b[0]), num_of(c[0])) {
            lemma_numfield_transitive(num_of(a[0]), num_of(b[0]), num_of(c[0]));
        } else if num_of(a[0]) == num_of(b[0]) && num_of(b[0]) == num_of(c[0])
        {
            lemma_numkey_transitive(a.drop_first(), b.drop_first(), c.drop_first());
        }
    }
}

/// A whole key, each field parsed as a decimal number.
pub open spec fn parsed_key(k: Seq<Seq<u8>>) -> Seq<Option<NumV>> {
    k.map_values(|f: Seq<u8>| num_of(f))
}

/// Strict lexicographic order on parsed keys.
pub open spec fn numval_lt(a: Seq<Option<NumV>>, b: Seq<Option<NumV>>) -> bool
    decreases a.len(),
{
    if b.len() == 0 {
        false
    } else if a.len() == 0 {
        true
    } else if numfield_lt(a[0], b[0]) {
        true
    } else if numfield_lt(b[0], a[0]) {
        false
    } else {
        numval_lt(a.drop_first(), b.drop_first())
    }
}

pub proof fn lemma_numval_trichotomy(a: Seq<Option<NumV>>, b: Seq<Option<NumV>>)
    ensures
        numval_lt(a, b) || a == b || numval_lt(b, a),
        numval_lt(a, b) ==> !(a == b) && !numval_lt(b, a),
        a == b ==> !numval_lt(a, b) && !numval_lt(b, a),
    decreases a.len(),
{
    if a.len() > 0 && b.len() > 0 {
        lemma_numfield_trichotomy(a[0], b[0]);
        if !numfield_lt(a[0], b[0]) && !numfield_lt(b[0], a[0]) {
            lemma_numval_trichotomy(a.drop_first(), b.drop_first());
            if a.drop_first() == b.drop_first() {
                assert forall|i: int| 0 <= i < a.len() implies a[i] == b[i] by {
                    if i > 0 {
                        assert(a[i] == a.drop_first()[i - 1]);
                        assert(b[i] == b.drop_first()[i - 1]);
                    }
                }
                assert(a =~= b);
            }
            if a == b {
                assert(a.drop_first() =~= b.drop_first());
            }
        } else {
            if a == b {
                lemma_numfield_trichotomy(a[0], a[0]);
            }
        }
    } else if a.len() == 0 && b.len() == 0 {
        assert(a =~= b);
    }
}

pub proof fn lemma_numval_transitive(
    a: Seq<Option<NumV>>,
    b: Seq<Option<NumV>>,
    c: Seq<Option<NumV>>,
)
    requires
        numval_lt(a, b),
        numval_lt(b, c),
    ensures
        numval_lt(a, c),
    decreases a.len(),
{
    if a.len() > 0 && b.len() > 0 && c.len() > 0 {
        lemma_numfield_trichotomy(a[0], b[0]);
        lemma_numfield_trichotomy(b[0], c[0]);
        if numfield_lt(a[0], b[0]) && numfield_lt(b[0], c[0]) {
            lemma_numfield_transitive(a[0], b[0], c[0]);
        } else if a[0] == b[0] && b[0] == c[0] {
            lemma_numval_transitive(a.drop_first(), b.drop_first(), c.drop_first());
        }
    }
}

/// The raw-key numeric order is the parsed-key order.
pub proof fn lemma_numkey_is_numval(a: Seq<Seq<u8>>, b: Seq<Seq<u8>>)
    ensures
        numkey_lt(a, b) == numval_lt(parsed_key(a), parsed_key(b)),
        numkey_eq(a, b) == (parsed_key(a) == parsed_key(b)),
    decreases a.len(),
{
    assert(parsed_key(a).len() == a.len());
    assert(parsed_key(b).len() == b.len());
    if a.len() > 0 && b.len() > 0 {
        assert(parsed_key(a)[0] == num_of(a[0]));
        assert(parsed_key(b)[0] == num_of(b[0]));
        lemma_numkey_is_numval(a.drop_first(), b.drop_first());
        assert(parsed_key(a.drop_first()) =~= parsed_key(a).drop_first());
        assert(parsed_key(b.drop_first()) =~= parsed_key(b).drop_first());
        if numkey_eq(a.drop_first(), b.drop_first()) && num_of(a[0]) == num_of(b[0]) {
            assert forall|i: int| 0 <= i < a.len() implies #[trigger] num_of(a[i]) == num_of(
                b[i],
            ) by {
                if i > 0 {
                    assert(num_of(a.drop_first()[i - 1]) == num_of(b.drop_first()[i - 1]));
                    assert(a[i] == a.drop_first()[i - 1]);
                    assert(b[i] == b.drop_first()[i - 1]);
                }
            }
        }
        if numkey_eq(a, b) {
            assert forall|i: int|
                0 <= i < a.drop_first().len() implies #[trigger] num_of(a.drop_first()[i])
                == num_of(b.drop_first()[i]) by {
                assert(num_of(a[i + 1]) == num_of(b[i + 1]));
            }
        }
        if parsed_key(a) == parsed_key(b) {
            assert forall|i: int| 0 <= i < a.len() implies #[trigger] num_of(a[i]) == num_of(
                b[i],
            ) by {
                assert(parsed_key(a)[i] == parsed_key(b)[i]);
            }
        }
        if numkey_eq(a, b) {
            assert forall|i: int| 0 <= i < parsed_key(a).len() implies parsed_key(a)[i]
                == parsed_key(b)[i] by {
                assert(num_of(a[i]) == num_of(b[i]));
            }
            assert(parsed_key(a) =~= parsed_key(b));
        }
    } else {
        if a.len() == 0 && b.len() == 0 {
            assert(parsed_key(a) =~= parsed_key(b));
        }
        if parsed_key(a) == parsed_key(b) && a.len() != b.len() {
            assert(false);
        }
    }
}

proof fn lemma_dot_index_at(s: Seq<u8>, i: int)
    requires
        0 <= i <= s.len(),
        forall|k: int| 0 <= k < i ==> s[k] != 46,
        i == s.len() || s[i] == 46,
    ensures
        dot_index(s) == i,
    decreases i,
{
    if i > 0 {
        lemma_dot_index_at(s.drop_first(), i - 1);
    }
}

proof fn lemma_strip_leading_at(s: Seq<u8>, i: int)
    requires
        0 <= i <= s.len(),
        forall|k: int| 0 <= k < i ==> s[k] == 48,
        i == s.len() || s[i] != 48,
    ensures
        strip_leading_zeros(s) =~= s.skip(i),
    decreases i,
{
    if i == 0 {
        assert(s.skip(0) =~= s);
    } else {
        lemma_strip_leading_at(s.drop_first(), i - 1);
        assert(s.drop_first().skip(i - 1) =~= s.skip(i));
    }
}

proof fn lemma_strip_trailing_at(s: Seq<u8>, j: int)
    requires
        0 <= j <= s.len(),
        forall|k: int| j <= k < s.len() ==> s[k] == 48,
        j == 0 || s[j - 1] != 48,
    ensures
        strip_trailing_zeros(s) =~= s.take(j),
    decreases s.len() - j,
{
    if j == s.len() {
        assert(s.take(j) =~= s);
    } else {
        lemma_strip_trailing_at(s.drop_last(), j);
        assert(s.drop_last().take(j) =~= s.take(j));
    }
}

#[verifier::when_used_as_spec(is_digit)]
pub fn is_digit_ex(b: u8) -> (r: bool)
    ensures
        r == is_digit(b),
{
    48 <= b && b <= 57
}

/// Reads one field as a decimal number, returning its normal form, or
/// `None` when the bytes are not a decimal literal.
#[verifier::rlimit(50)]
pub fn parse_num(bs: &Vec<u8>) -> (r: Option<Num>)
    ensures
        match r {
            Option::Some(n) => num_of(bs@) == Option::Some(n@),
            Option::None => num_of(bs@) is None,
        },
{
    let len = bs.len();
    let mut i: usize = 0;
    let mut neg = false;
    if len > 0 && bs[0] == 45 {
        neg = true;
        i = 1;
    } else if len > 0 && bs[0] == 43 {
        i = 1;
    }
    let ghost u = sign_split(bs@).1;
    proof {
        assert(u =~= bs@.skip(i as int));
        assert(neg == sign_split(bs@).0);
    }
    // Scan the integer digits up to the dot (or the end).
    let mut j: usize = i;
    while j < len && bs[j] != 46
        invariant
            len == bs.len(),
            i <= j <= len,
            u == sign_split(bs@).1,
            neg == sign_split(bs@).0,
            u =~= bs@.skip(i as int),
            forall|k: int| i <= k < j ==> bs@[k] != 46,
            forall|k: int| i <= k < j ==> is_digit(bs@[k]),
        decreases len - j,
    {
        if !is_digit_ex(bs[j]) {
            proof {
                lemma_not_number_bad_int(bs@, i as int, j as int);
            }
            return None;
        }
        j += 1;
    }
    proof {
        assert forall|k: int| 0 <= k < j - i implies u[k] != 46 by {
            assert(u[k] == bs@[i + k]);
        }
        lemma_dot_index_at(u, j - i);
        assert(int_part(u) =~= bs@.subrange(i as int, j as int));
        if j < len {
            assert(frac_part(u) =~= bs@.subrange(j + 1 as int, len as int));
        } else {
            assert(frac_part(u) =~= bs@.subrange(j as int, len as int));
        }
    }
    // Scan the fraction digits, when a dot is present.
    let frac_start: usize = if j < len {
        j + 1
    } else {
        j
    };
    let mut m: usize = frac_start;
    while m < len
        invariant
            len == bs.len(),
            i <= j <= frac_start <= m <= len,
            u == sign_split(bs@).1,
            neg == sign_split(bs@).0,
            int_part(u) =~= bs@.subrange(i as int, j as int),
            frac_part(u) =~= bs@.subrange(frac_start as int, len as int),
            forall|k: int| frac_start <= k < m ==> is_digit(bs@[k]),
        decreases len - m,
    {
        if !is_digit_ex(bs[m]) {
            proof {
                assert(frac_part(u)[m - frac_start] == bs@[m as int]);
                assert(!all_digits(frac_part(u)));
            }
            return None;
        }
        m += 1;
    }
    if j == i && frac_start == len {
        proof {
            assert(int_part(u).len() + frac_part(u).len() == 0);
        }
        return None;
    }
    proof {
        assert forall|k: int| 0 <= k < int_part(u).len() implies is_digit(
            #[trigger] int_part(u)[k],
        ) by {
            assert(int_part(u)[k] == bs@[i + k]);
        }
        assert forall|k: int| 0 <= k < frac_part(u).len() implies is_digit(
            #[trigger] frac_part(u)[k],
        ) by {
            assert(frac_part(u)[k] == bs@[frac_start + k]);
        }
        assert(unsigned_ok(u));
    }
    // Normalize: drop leading zeros of the integer part, trailing
    // zeros of the fraction, and the sign of zero.
    let mut lead: usize = i;
    while lead < j && bs[lead] == 48
        invariant
            len == bs.len(),
            i <= lead <= j <= len,
            forall|k: int| i <= k < lead ==> bs@[k] == 48,
        decreases j - lead,
    {
        lead += 1;
    }
    let mut tail: usize = len;
    while tail > frac_start && bs[tail - 1] == 48
        invariant
            len == bs.len(),
            frac_start <= tail <= len,
            forall|k: int| tail <= k < len ==> bs@[k] == 48,
        decreases tail,
    {
        tail -= 1;
    }
    proof {
        lemma_strip_leading_at(int_part(u), lead - i);
        assert(int_part(u).skip(lead - i) =~= bs@.subrange(lead as int, j as int));
        lemma_strip_trailing_at(frac_part(u), tail - frac_start);
        assert(frac_part(u).take(tail - frac_start) =~= bs@.subrange(
            frac_start as int,
            tail as int,
        ));
    }
    let int_digits = crate::common::copy_range(bs, lead, j);
    let frac_digits = crate::common::copy_range(bs, frac_start, tail);
    let is_zero = int_digits.len() == 0 && frac_digits.len() == 0;
    Some(Num { neg: neg && !is_zero, int_digits, frac_digits })
}

/// The parsed value of an optional number, for specs.
pub open spec fn opt_num_view(o: Option<Num>) -> Option<NumV> {
    match o {
        Option::Some(n) => Option::Some(n@),
        Option::None => Option::None,
    }
}

/// Three-way comparison of two magnitudes in normal form.
fn mag_cmp(a: &Num, b: &Num) -> (r: core::cmp::Ordering)
    ensures
        (r == core::cmp::Ordering::Less) == mag_lt(a@, b@),
        (r == core::cmp::Ordering::Equal) == (a@.ip == b@.ip && a@.fp == b@.fp),
        (r == core::cmp::Ordering::Greater) == mag_lt(b@, a@),
{
    proof {
        lemma_bytes_lt_trichotomy(a@.ip, b@.ip);
        lemma_bytes_lt_trichotomy(a@.fp, b@.fp);
    }
    if a.int_digits.len() < b.int_digits.len() {
        return core::cmp::Ordering::Less;
    }
    if a.int_digits.len() > b.int_digits.len() {
        return core::cmp::Ordering::Greater;
    }
    match crate::common::bytes_cmp(&a.int_digits, &b.int_digits) {
        core::cmp::Ordering::Less => core::cmp::Ordering::Less,
        core::cmp::Ordering::Greater => core::cmp::Ordering::Greater,
        core::cmp::Ordering::Equal => crate::common::bytes_cmp(&a.frac_digits, &b.frac_digits),
    }
}

/// Three-way comparison of two parsed fields: non-numbers first, then
/// by value. `Equal` means equal parsed results.
pub fn num_cmp(a: &Option<Num>, b: &Option<Num>) -> (r: core::cmp::Ordering)
    ensures
        (r == core::cmp::Ordering::Less) == numfield_lt(opt_num_view(*a), opt_num_view(*b)),
        (r == core::cmp::Ordering::Equal) == (opt_num_view(*a) == opt_num_view(*b)),
        (r == core::cmp::Ordering::Greater) == numfield_lt(opt_num_view(*b), opt_num_view(*a)),
{
    match (a, b) {
        (Option::None, Option::None) => core::cmp::Ordering::Equal,
        (Option::None, Option::Some(_)) => core::cmp::Ordering::Less,
        (Option::Some(_), Option::None) => core::cmp::Ordering::Greater,
        (Option::Some(x), Option::Some(y)) => {
            if x.neg != y.neg {
                if x.neg {
                    core::cmp::Ordering::Less
                } else {
                    core::cmp::Ordering::Greater
                }
            } else if x.neg {
                mag_cmp(y, x)
            } else {
                mag_cmp(x, y)
            }
        },
    }
}

proof fn lemma_numkey_lt_from_prefix(a: Seq<Seq<u8>>, b: Seq<Seq<u8>>, i: int)
    requires
        0 <= i <= a.len(),
        i <= b.len(),
        forall|k: int| 0 <= k < i ==> #[trigger] num_of(a[k]) == num_of(b[k]),
        (i == a.len() && i < b.len()) || (i < a.len() && i < b.len() && numfield_lt(
            num_of(a[i]),
            num_of(b[i]),
        )),
    ensures
        numkey_lt(a, b),
    decreases i,
{
    if i > 0 {
        lemma_numfield_trichotomy(num_of(a[0]), num_of(b[0]));
        lemma_numkey_lt_from_prefix(a.drop_first(), b.drop_first(), i - 1);
    }
}

/// Three-way numeric comparison of two whole keys, the executable form
/// of `numkey_lt`; `Equal` means the keys parse to the same values.
pub fn numkeys_cmp(a: &Vec<Vec<u8>>, b: &Vec<Vec<u8>>) -> (r: core::cmp::Ordering)
    ensures
        (r == core::cmp::Ordering::Less) == numkey_lt(a.deep_view(), b.deep_view()),
        (r == core::cmp::Ordering::Equal) == numkey_eq(a.deep_view(), b.deep_view()),
        (r == core::cmp::Ordering::Greater) == numkey_lt(b.deep_view(), a.deep_view()),
{
    proof {
        lemma_numkey_trichotomy(a.deep_view(), b.deep_view());
        lemma_fields_deep_view(a);
        lemma_fields_deep_view(b);
    }
    let min = if a.len() < b.len() {
        a.len()
    } else {
        b.len()
    };
    let mut i: usize = 0;
    while i < min
        invariant
            min <= a.len(),
            min <= b.len(),
            0 <= i <= min,
            forall|k: int| 0 <= k < i ==> #[trigger] num_of(a.deep_view()[k]) == num_of(
                b.deep_view()[k],
            ),
        decreases min - i,
    {
        proof {
            lemma_fields_deep_view(a);
            lemma_fields_deep_view(b);
            lemma_numkey_trichotomy(a.deep_view(), b.deep_view());
        }
        let na = parse_num(&a[i]);
        let nb = parse_num(&b[i]);
        match num_cmp(&na, &nb) {
            core::cmp::Ordering::Less => {
                proof {
                    lemma_numkey_lt_from_prefix(a.deep_view(), b.deep_view(), i as int);
                }
                return core::cmp::Ordering::Less;
            },
            core::cmp::Ordering::Greater => {
                proof {
                    lemma_numkey_lt_from_prefix(b.deep_view(), a.deep_view(), i as int);
                }
                return core::cmp::Ordering::Greater;
            },
            core::cmp::Ordering::Equal => {},
        }
        i += 1;
    }
    if a.len() < b.len() {
        proof {
            lemma_numkey_lt_from_prefix(a.deep_view(), b.deep_view(), i as int);
        }
        core::cmp::Ordering::Less
    } else if a.len() > b.len() {
        proof {
            lemma_numkey_lt_from_prefix(b.deep_view(), a.deep_view(), i as int);
        }
        core::cmp::Ordering::Greater
    } else {
        core::cmp::Ordering::Equal
    }
}

/// Every field of a numeric key parses as a decimal number.
pub open spec fn key_all_numeric(key: Seq<Seq<u8>>) -> bool {
    forall|i: int| 0 <= i < key.len() ==> (#[trigger] num_of(key[i])) is Some
}

/// Checks that every field of a key can serve as a numeric sort key,
/// as the numeric modes demand of sampled keys. A field passes exactly
/// when it matches the decimal grammar of `num_of` — sign, digits, an
/// optional fraction; exponent, `inf` and `NaN` spellings, which
/// 64-bit float parsing would take, are rejected here.
pub fn check_num_type(sample: &Vec<Vec<u8>>) -> (r: Result<(), crate::CliError>)
    ensures
        r is Ok <==> key_all_numeric(sample.deep_view()),
        r is Err ==> r->Err_0 is Other,
{
    proof {
        lemma_fields_deep_view(sample);
    }
    let n = sample.len();
    let mut i: usize = 0;
    while i < n
        invariant
            n == sample.len(),
            0 <= i <= n,
            forall|k: int| 0 <= k < i ==> (#[trigger] num_of(sample.deep_view()[k])) is Some,
        decreases n - i,
    {
        proof {
            lemma_fields_deep_view(sample);
        }
        if parse_num(&sample[i]).is_none() {
            proof {
                assert((num_of(sample.deep_view()[i as int])) is None);
            }
            return Err(crate::CliError::Other(String::from_str(
                "parse error.Filed's type is unicode",
            )));
        }
        i += 1;
    }
    Ok(())
}

/// A non-digit before the dot means the bytes are no number.
proof fn lemma_not_number_bad_int(s: Seq<u8>, i: int, j: int)
    requires
        0 <= i <= j < s.len(),
        sign_split(s).1 =~= s.skip(i),
        forall|k: int| i <= k < j ==> s[k] != 46,
        s[j] != 46,
        !is_digit(s[j]),
    ensures
        num_of(s) is None,
{
    let u = sign_split(s).1;
    let d = dot_index(u);
    lemma_dot_index_ge(u, j - i + 1);
    assert(int_part(u)[j - i] == s[j]);
}

/// When no dot occurs among the first `n` bytes, the dot is at `n` or later.
proof fn lemma_dot_index_ge(s: Seq<u8>, n: int)
    requires
        0 <= n <= s.len(),
        forall|k: int| 0 <= k < n ==> s[k] != 46,
    ensures
        dot_index(s) >= n,
        dot_index(s) <= s.len(),
    decreases n, s.len(),
{
    if n > 0 {
        lemma_dot_index_ge(s.drop_first(), n - 1);
    } else if s.len() > 0 && s[0] != 46 {
        lemma_dot_index_ge(s.drop_first(), 0);
    }
}

} // verus!

