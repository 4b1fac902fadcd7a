//! Recognising numbers written in text: decimal integers and the floating
//! point syntax that the validation rules accept.
use vstd::prelude::*;

verus! {

/// `c` is one of the ASCII digits `0`..`9`.
pub open spec fn is_digit(c: char) -> bool {
    '0' <= c && c <= '9'
}

/// Every character of `d` is an ASCII digit.
pub open spec fn all_digits(d: Seq<char>) -> bool {
    forall|i: int| 0 <= i < d.len() ==> is_digit(#[trigger] d[i])
}

/// The number that the digits `d` spell in base ten.
pub open spec fn decimal_value(d: Seq<char>) -> int
    decreases d.len(),
{
    if d.len() == 0 {
        0
    } else {
        decimal_value(d.drop_last()) * 10 + (d.last() as int - '0' as int)
    }
}

/// Digits spell a value of at least zero.
pub proof fn lemma_decimal_nonneg(d: Seq<char>)
    requires
        all_digits(d),
    ensures
        decimal_value(d) >= 0,
    decreases d.len(),
{
    if d.len() > 0 {
        assert(is_digit(d[d.len() - 1]));
        assert(all_digits(d.drop_last())) by {
            assert forall|i: int| 0 <= i < d.drop_last().len() implies is_digit(
                #[trigger] d.drop_last()[i],
            ) by {
                assert(d.drop_last()[i] == d[i]);
            }
        }
        lemma_decimal_nonneg(d.drop_last());
    }
}

/// An unsigned literal is never negative.
pub proof fn lemma_unsigned_nonneg(s: Seq<char>)
    ensures
        unsigned_literal(s) matches Some(n) ==> n >= 0,
{
    if s.len() > 0 && s[0] == '+' {
        if s.len() > 1 && all_digits(s.drop_first()) {
            lemma_decimal_nonneg(s.drop_first());
        }
    } else if s.len() > 0 && all_digits(s) {
        lemma_decimal_nonneg(s);
    }
}

/// The value of an optionally signed decimal integer: `+` or `-` followed
/// by at least one digit and nothing else.
pub open spec fn signed_literal(s: Seq<char>) -> Option<int> {
    if s.len() > 0 && s[0] == '-' {
        if s.len() > 1 && all_digits(s.drop_first()) {
            Some(-decimal_value(s.drop_first()))
        } else {
            None
        }
    } else if s.len() > 0 && s[0] == '+' {
        if s.len() > 1 && all_digits(s.drop_first()) {
            Some(decimal_value(s.drop_first()))
        } else {
            None
        }
    } else if s.len() > 0 && all_digits(s) {
        Some(decimal_value(s))
    } else {
        None
    }
}

/// The value of an unsigned decimal integer: an optional `+` followed by
/// at least one digit and nothing else.
pub open spec fn unsigned_literal(s: Seq<char>) -> Option<int> {
    if s.len() > 0 && s[0] == '+' {
        if s.len() > 1 && all_digits(s.drop_first()) {
            Some(decimal_value(s.drop_first()))
        } else {
            None
        }
    } else if s.len() > 0 && all_digits(s) {
        Some(decimal_value(s))
    } else {
        None
    }
}

/// Calls `str::parse::<i64>`, which accepts an optional sign followed by
/// decimal digits whose value fits in an `i64`, and nothing else.
#[verifier::external_body]
pub(crate) fn parse_i64(s: &str) -> (r: Option<i64>)
    ensures
        r == (match signed_literal(s@) {
            Some(n) => if i64::MIN <= n <= i64::MAX {
                Some(n as i64)
            } else {
                None
            },
            None => None,
        }),
{
    s.parse::<i64>().ok()
}

/// Calls `str::parse::<u16>`, which accepts an optional `+` followed by
/// decimal digits whose value fits in a `u16`, and nothing else.
#[verifier::external_body]
pub(crate) fn parse_u16(s: &str) -> (r: Option<u16>)
    ensures
        r == (match unsigned_literal(s@) {
            Some(n) => if n <= u16::MAX {
                Some(n as u16)
            } else {
                None
            },
            None => None,
        }),
{
    s.parse::<u16>().ok()
}

// ---------------------------------------------------------------------------
// The syntax of a floating point number
// ---------------------------------------------------------------------------

/// `c` is the letter `lower` in either case.
pub open spec fn is_letter(c: char, lower: char, upper: char) -> bool {
    c == lower || c == upper
}

/// `s` without one leading `+` or `-`.
pub open spec fn drop_sign(s: Seq<char>) -> Seq<char> {
    if s.len() > 0 && (s[0] == '+' || s[0] == '-') {
        s.drop_first()
    } else {
        s
    }
}

/// `s` spells `inf`, `infinity` or `nan`, in any case.
pub open spec fn special_word(s: Seq<char>) -> bool {
    ||| (s.len() == 3 && is_letter(s[0], 'i', 'I') && is_letter(s[1], 'n', 'N') && is_letter(
        s[2],
        'f',
        'F',
    ))
    ||| (s.len() == 8 && is_letter(s[0], 'i', 'I') && is_letter(s[1], 'n', 'N') && is_letter(
        s[2],
        'f',
        'F',
    ) && is_letter(s[3], 'i', 'I') && is_letter(s[4], 'n', 'N') && is_letter(s[5], 'i', 'I')
        && is_letter(s[6], 't', 'T') && is_letter(s[7], 'y', 'Y'))
    ||| (s.len() == 3 && is_letter(s[0], 'n', 'N') && is_letter(s[1], 'a', 'A') && is_letter(
        s[2],
        'n',
        'N',
    ))
}

/// Digits with at most one `.`, and at least one digit.
pub open spec fn mantissa_ok(m: Seq<char>) -> bool {
    match m.index_of_first('.') {
        Some(p) => all_digits(m.take(p)) && all_digits(m.skip(p + 1)) && m.len() > 1,
        None => m.len() > 0 && all_digits(m),
    }
}

/// An optionally signed run of at least one digit.
pub open spec fn exponent_ok(x: Seq<char>) -> bool {
    drop_sign(x).len() > 0 && all_digits(drop_sign(x))
}

/// The position of the first `e` or `E` in `s`.
pub open spec fn exp_marker(s: Seq<char>) -> Option<int>
    decreases s.len(),
{
    if s.len() == 0 {
        None
    } else if is_letter(s[0], 'e', 'E') {
        Some(0)
    } else {
        match exp_marker(s.drop_first()) {
            Some(p) => Some(p + 1),
            None => None,
        }
    }
}

/// A decimal number: a mantissa, then optionally an exponent.
pub open spec fn decimal_number(s: Seq<char>) -> bool {
    match exp_marker(s) {
        Some(e) => mantissa_ok(s.take(e)) && exponent_ok(s.skip(e + 1)),
        None => mantissa_ok(s),
    }
}

/// The syntax that `str::parse` accepts for a floating point number:
/// an optional sign, then `inf`, `infinity`, `nan` (in any case) or a
/// decimal number with an optional exponent.
pub open spec fn float_syntax(s: Seq<char>) -> bool {
    special_word(drop_sign(s)) || decimal_number(drop_sign(s))
}

/// Whether `v[lo..hi]` is all digits.
fn digits_in(v: &Vec<char>, lo: usize, hi: usize) -> (r: bool)
    requires
        lo <= hi <= v.len(),
    ensures
        r == all_digits(v@.subrange(lo as int, hi as int)),
{
    let mut i = lo;
    while i < hi
        invariant
            lo <= i <= hi <= v.len(),
            forall|j: int| lo <= j < i ==> is_digit(v@[j]),
        decreases hi - i,
    {
        if !('0' <= v[i] && v[i] <= '9') {
            assert(!is_digit(v@.subrange(lo as int, hi as int)[i - lo]));
            return false;
        }
        i = i + 1;
    }
    assert forall|j: int| 0 <= j < hi - lo implies is_digit(
        #[trigger] v@.subrange(lo as int, hi as int)[j],
    ) by {
        assert(v@.subrange(lo as int, hi as int)[j] == v@[lo + j]);
    }
    true
}

/// Whether `v[lo..hi]` is a mantissa.
fn mantissa_in(v: &Vec<char>, lo: usize, hi: usize) -> (r: bool)
    requires
        lo <= hi <= v.len(),
    ensures
        r == mantissa_ok(v@.subrange(lo as int, hi as int)),
{
    let ghost m = v@.subrange(lo as int, hi as int);
    let mut p = lo;
    while p < hi && v[p] != '.'
        invariant
            lo <= p <= hi <= v.len(),
            forall|j: int| lo <= j < p ==> v@[j] != '.',
        decreases hi - p,
    {
        p = p + 1;
    }
    proof {
        assert forall|j: int| 0 <= j < p - lo implies m[j] != '.' by {
            assert(m[j] == v@[lo + j]);
        }
    }
    if p < hi {
        proof {
            crate::text::lemma_first_at(m, '.', p - lo);
            assert(m.take(p - lo) =~= v@.subrange(lo as int, p as int));
            assert(m.skip(p - lo + 1) =~= v@.subrange(p + 1, hi as int));
        }
        digits_in(v, lo, p) && digits_in(v, p + 1, hi) && hi - lo > 1
    } else {
        proof {
            crate::text::lemma_first_none(m, '.');
        }
        hi > lo && digits_in(v, lo, hi)
    }
}

/// Whether `v[lo..hi]` is an exponent.
fn exponent_in(v: &Vec<char>, lo: usize, hi: usize) -> (r: bool)
    requires
        lo <= hi <= v.len(),
    ensures
        r == exponent_ok(v@.subrange(lo as int, hi as int)),
{
    let ghost x = v@.subrange(lo as int, hi as int);
    if lo < hi && (v[lo] == '+' || v[lo] == '-') {
        assert(x[0] == v@[lo as int]);
        assert(x.drop_first() =~= v@.subrange(lo + 1, hi as int));
        hi > lo + 1 && digits_in(v, lo + 1, hi)
    } else {
        if lo < hi {
            assert(x[0] == v@[lo as int]);
        }
        hi > lo && digits_in(v, lo, hi)
    }
}

/// Pins `exp_marker` from the position of the first marker.
proof fn lemma_exp_marker_at(s: Seq<char>, e: int)
    requires
        0 <= e <= s.len(),
        e < s.len() ==> is_letter(s[e], 'e', 'E'),
        forall|j: int| 0 <= j < e ==> !is_letter(#[trigger] s[j], 'e', 'E'),
    ensures
        exp_marker(s) == (if e < s.len() {
            Some(e)
        } else {
            None::<int>
        }),
    decreases s.len(),
{
    if s.len() > 0 && e > 0 {
        let t = s.drop_first();
        assert(!is_letter(s[0], 'e', 'E'));
        assert forall|j: int| 0 <= j < e - 1 implies !is_letter(#[trigger] t[j], 'e', 'E') by {
            assert(t[j] == s[j + 1]);
            assert(!is_letter(s[j + 1], 'e', 'E'));
        }
        if e < s.len() {
            assert(t[e - 1] == s[e]);
        }
        lemma_exp_marker_at(t, e - 1);
    }
}

/// Whether the characters of `v` have the syntax of a floating point number.
pub(crate) fn is_float_syntax(v: &Vec<char>) -> (r: bool)
    ensures
        r == float_syntax(v@),
{
    let n = v.len();
    let lo: usize = if n > 0 && (v[0] == '+' || v[0] == '-') {
        1
    } else {
        0
    };
    let ghost b = v@.subrange(lo as int, n as int);
    assert(drop_sign(v@) =~= b);
    let k = n - lo;
    let special = (k == 3 && (v[lo] == 'i' || v[lo] == 'I') && (v[lo + 1] == 'n' || v[lo + 1]
        == 'N') && (v[lo + 2] == 'f' || v[lo + 2] == 'F')) || (k == 8 && (v[lo] == 'i' || v[lo]
        == 'I') && (v[lo + 1] == 'n' || v[lo + 1] == 'N') && (v[lo + 2] == 'f' || v[lo + 2]
        == 'F') && (v[lo + 3] == 'i' || v[lo + 3] == 'I') && (v[lo + 4] == 'n' || v[lo + 4]
        == 'N') && (v[lo + 5] == 'i' || v[lo + 5] == 'I') && (v[lo + 6] == 't' || v[lo + 6]
        == 'T') && (v[lo + 7] == 'y' || v[lo + 7] == 'Y')) || (k == 3 && (v[lo] == 'n' || v[lo]
        == 'N') && (v[lo + 1] == 'a' || v[lo + 1] == 'A') && (v[lo + 2] == 'n' || v[lo + 2]
        == 'N'));
    proof {
        if k == 3 || k == 8 {
            assert(b[0] == v@[lo as int]);
            assert(b[1] == v@[lo + 1]);
            assert(b[2] == v@[lo + 2]);
        }
        if k == 8 {
            assert(b[3] == v@[lo + 3]);
            assert(b[4] == v@[lo + 4]);
            assert(b[5] == v@[lo + 5]);
            assert(b[6] == v@[lo + 6]);
            assert(b[7] == v@[lo + 7]);
        }
        assert(special == special_word(b));
    }
    if special {
        return true;
    }
    let mut e = lo;
    while e < n && !(v[e] == 'e' || v[e] == 'E')
        invariant
            lo <= e <= n,
            n == v.len(),
            forall|j: int| lo <= j < e ==> !is_letter(v@[j], 'e', 'E'),
        decreases n - e,
    {
        e = e + 1;
    }
    proof {
        assert forall|j: int| 0 <= j < e - lo implies !is_letter(#[trigger] b[j], 'e', 'E') by {
            assert(b[j] == v@[lo + j]);
        }
        if e < n {
            assert(b[e - lo] == v@[e as int]);
        }
        lemma_exp_marker_at(b, e - lo);
    }
    if e < n {
        assert(b.take(e - lo) =~= v@.subrange(lo as int, e as int));
        assert(b.skip(e - lo + 1) =~= v@.subrange(e + 1, n as int));
        mantissa_in(v, lo, e) && exponent_in(v, e + 1, n)
    } else {
        mantissa_in(v, lo, n)
    }
}

} // verus!
