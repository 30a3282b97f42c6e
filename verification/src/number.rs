//! The syntax of decimal floating-point literals.
//!
//! ```text
//! Number   ::= Sign? ( Named | Decimal )
//! Named    ::= 'inf' | 'infinity' | 'nan'          (in either case)
//! Decimal  ::= Mantissa Exponent?
//! Mantissa ::= Digit+ | Digit+ '.' Digit* | Digit* '.' Digit+
//! Exponent ::= ( 'e' | 'E' ) Sign? Digit+
//! Sign     ::= '+' | '-'
//! Digit    ::= '0' ... '9'
//! ```
//!
//! This is the syntax that the standard library's conversion from text to a
//! floating-point value accepts, so text that [`is_number`] admits converts
//! without error.

use vstd::prelude::*;
use vstd::slice::slice_subrange;

verus! {

/// `'0' ... '9'`
pub open spec fn is_digit(c: char) -> bool {
    '0' <= c && c <= '9'
}

/// `'+' | '-'`
pub open spec fn is_sign(c: char) -> bool {
    c == '+' || c == '-'
}

/// `Digit*`
pub open spec fn all_digits(s: Seq<char>) -> bool {
    forall|i: int| 0 <= i < s.len() ==> is_digit(#[trigger] s[i])
}

/// `s` without its leading sign, if it has one.
pub open spec fn unsigned(s: Seq<char>) -> Seq<char> {
    if s.len() > 0 && is_sign(s.first()) {
        s.drop_first()
    } else {
        s
    }
}

/// Whether `s` has a point at `p` with nothing but digits around it, and at
/// least one digit.
pub open spec fn is_pointed_at(s: Seq<char>, p: int) -> bool {
    &&& 0 <= p < s.len()
    &&& s[p] == '.'
    &&& all_digits(s.take(p))
    &&& all_digits(s.skip(p + 1))
    &&& s.len() >= 2
}

/// `Digit+ | Digit+ '.' Digit* | Digit* '.' Digit+`
pub open spec fn is_mantissa(s: Seq<char>) -> bool {
    ||| s.len() > 0 && all_digits(s)
    ||| exists|p: int| is_pointed_at(s, p)
}

/// `( 'e' | 'E' ) Sign? Digit+`
pub open spec fn is_exponent(s: Seq<char>) -> bool {
    &&& s.len() > 0
    &&& (s.first() == 'e' || s.first() == 'E')
    &&& unsigned(s.drop_first()).len() > 0
    &&& all_digits(unsigned(s.drop_first()))
}

/// Whether `s` is a mantissa up to `m` and an exponent from there on.
pub open spec fn is_scientific_at(s: Seq<char>, m: int) -> bool {
    &&& 0 <= m <= s.len()
    &&& is_mantissa(s.take(m))
    &&& is_exponent(s.skip(m))
}

/// `Mantissa Exponent?`
pub open spec fn is_decimal(s: Seq<char>) -> bool {
    ||| is_mantissa(s)
    ||| exists|m: int| is_scientific_at(s, m)
}

/// Whether `c` is the letter given in its two cases.
pub open spec fn is_letter(c: char, lower: char, upper: char) -> bool {
    c == lower || c == upper
}

/// `inf`, in either case.
pub open spec fn is_inf(s: Seq<char>) -> bool {
    &&& s.len() == 3
    &&& is_letter(s[0], 'i', 'I')
    &&& is_letter(s[1], 'n', 'N')
    &&& is_letter(s[2], 'f', 'F')
}

/// `infinity`, in either case.
pub open spec fn is_infinity(s: Seq<char>) -> bool {
    &&& s.len() == 8
    &&& is_letter(s[0], 'i', 'I')
    &&& is_letter(s[1], 'n', 'N')
    &&& is_letter(s[2], 'f', 'F')
    &&& is_letter(s[3], 'i', 'I')
    &&& is_letter(s[4], 'n', 'N')
    &&& is_letter(s[5], 'i', 'I')
    &&& is_letter(s[6], 't', 'T')
    &&& is_letter(s[7], 'y', 'Y')
}

/// `nan`, in either case.
pub open spec fn is_nan(s: Seq<char>) -> bool {
    &&& s.len() == 3
    &&& is_letter(s[0], 'n', 'N')
    &&& is_letter(s[1], 'a', 'A')
    &&& is_letter(s[2], 'n', 'N')
}

/// `'inf' | 'infinity' | 'nan'`
pub open spec fn is_named(s: Seq<char>) -> bool {
    is_inf(s) || is_infinity(s) || is_nan(s)
}

/// `Sign? ( Named | Decimal )`
pub open spec fn is_number_text(s: Seq<char>) -> bool {
    is_named(unsigned(s)) || is_decimal(unsigned(s))
}

/// A mantissa holds nothing but digits and points.
pub proof fn lemma_mantissa_characters(s: Seq<char>)
    requires
        is_mantissa(s),
    ensures
        s.len() > 0,
        forall|i: int| 0 <= i < s.len() ==> is_digit(#[trigger] s[i]) || s[i] == '.',
{
    if !(s.len() > 0 && all_digits(s)) {
        let p = choose|p: int| is_pointed_at(s, p);
        assert forall|i: int| 0 <= i < s.len() implies is_digit(#[trigger] s[i]) || s[i]
            == '.' by {
            if i < p {
                assert(s.take(p)[i] == s[i]);
            } else if i > p {
                assert(s.skip(p + 1)[i - p - 1] == s[i]);
            }
        }
    }
}

/// The mantissa of a decimal ends where the first character that is neither
/// a digit nor a point stands: a text has at most one reading.
pub proof fn lemma_mantissa_end_unique(s: Seq<char>, m: int, end: int)
    requires
        is_scientific_at(s, m),
        0 <= end <= s.len(),
        forall|i: int| 0 <= i < end ==> is_digit(#[trigger] s[i]) || s[i] == '.',
        end < s.len() ==> !is_digit(s[end]) && s[end] != '.',
    ensures
        m == end,
{
    lemma_mantissa_characters(s.take(m));
    assert(s.skip(m).first() == s[m]);
    if end < m {
        assert(s.take(m)[end] == s[end]);
    }
}

/// The characters of `s`, in order.
pub fn to_chars(s: &str) -> (v: Vec<char>)
    ensures
        v@ == s@,
{
    let mut v: Vec<char> = Vec::new();
    for c in it: s.chars()
        invariant
            it.seq() == s@,
            v@ == s@.take(it.index() as int),
    {
        v.push(c);
        assert(v@ =~= s@.take(it.index() + 1));
    }
    assert(s@.take(s@.len() as int) =~= s@);
    v
}

/// Decides [`is_digit`].
pub fn digit(c: char) -> (b: bool)
    ensures
        b == is_digit(c),
{
    '0' <= c && c <= '9'
}

/// The end of the run of digits that starts at `from`.
fn digits_end(s: &[char], from: usize) -> (to: usize)
    requires
        from <= s@.len(),
    ensures
        from <= to <= s@.len(),
        forall|i: int| from <= i < to ==> is_digit(#[trigger] s@[i]),
        to < s@.len() ==> !is_digit(s@[to as int]),
{
    let mut to = from;
    while to < s.len() && digit(s[to])
        invariant
            from <= to <= s@.len(),
            forall|i: int| from <= i < to ==> is_digit(#[trigger] s@[i]),
        decreases s@.len() - to,
    {
        to += 1;
    }
    to
}

/// `s` without its leading sign, if it has one.
fn strip_sign(s: &[char]) -> (u: &[char])
    ensures
        u@ == unsigned(s@),
{
    if s.len() > 0 && (s[0] == '+' || s[0] == '-') {
        slice_subrange(s, 1, s.len())
    } else {
        s
    }
}

/// Decides [`is_exponent`].
fn exponent(s: &[char]) -> (b: bool)
    ensures
        b == is_exponent(s@),
{
    if s.len() == 0 || !(s[0] == 'e' || s[0] == 'E') {
        return false;
    }
    let digits = strip_sign(slice_subrange(s, 1, s.len()));
    let end = digits_end(digits, 0);
    digits.len() > 0 && end == digits.len()
}

/// Decides [`is_decimal`].
fn decimal(s: &[char]) -> (b: bool)
    ensures
        b == is_decimal(s@),
{
    let n = s.len();
    let point = digits_end(s, 0);
    let pointed = point < n && s[point] == '.';
    let end = if pointed {
        digits_end(s, point + 1)
    } else {
        point
    };
    let has_digit = if pointed {
        end > 1
    } else {
        end > 0
    };
    let head = slice_subrange(s, 0, end);
    proof {
        // `head` is the longest prefix of digits and points that can be a mantissa.
        assert(is_mantissa(head@) == has_digit) by {
            if pointed {
                if has_digit {
                    assert(is_pointed_at(head@, point as int));
                }
                if is_mantissa(head@) {
                    if all_digits(head@) {
                        assert(is_digit(head@[point as int]));
                    }
                }
            } else {
                if is_mantissa(head@) && !all_digits(head@) {
                    let p = choose|p: int| is_pointed_at(head@, p);
                    assert(is_digit(head@[p]));
                }
            }
        }
        assert forall|i: int| 0 <= i < end implies is_digit(#[trigger] s@[i]) || s@[i] == '.' by {}
        if pointed && end < n && s@[end as int] == '.' {
            // a second point: no prefix that reaches it is a mantissa
            assert forall|m: int| !is_scientific_at(s@, m) by {
                if is_scientific_at(s@, m) {
                    lemma_mantissa_characters(s@.take(m));
                    assert(s@.skip(m).first() == s@[m]);
                    if m <= end {
                        assert(is_digit(s@[m]) || s@[m] == '.');
                    } else {
                        lemma_two_points(s@.take(m), point as int, end as int);
                    }
                }
            }
            assert(!is_mantissa(s@)) by {
                if is_mantissa(s@) {
                    lemma_two_points(s@, point as int, end as int);
                }
            }
        } else {
            assert forall|m: int| is_scientific_at(s@, m) implies m == end by {
                lemma_mantissa_end_unique(s@, m, end as int);
            }
            if end < n {
                assert(!is_mantissa(s@)) by {
                    if is_mantissa(s@) {
                        lemma_mantissa_characters(s@);
                    }
                }
            } else {
                assert(head@ =~= s@);
                assert forall|m: int| !is_scientific_at(s@, m) by {
                    if is_scientific_at(s@, m) {
                        assert(s@.skip(m).len() > 0);
                    }
                }
            }
        }
    }
    if !has_digit {
        proof {
            if is_mantissa(s@) {
                lemma_mantissa_characters(s@);
                assert(head@ =~= s@);
            }
            assert forall|m: int| !is_scientific_at(s@, m) by {
                if is_scientific_at(s@, m) {
                    assert(m == end);
                    assert(s@.take(m) =~= head@);
                }
            }
        }
        return false;
    }
    if end == n {
        return true;
    }
    if pointed && s[end] == '.' {
        return false;
    }
    let b = exponent(slice_subrange(s, end, n));
    proof {
        assert(s@.subrange(end as int, n as int) =~= s@.skip(end as int));
        if b {
            assert(is_scientific_at(s@, end as int));
        }
    }
    b
}

/// A mantissa has at most one point.
proof fn lemma_two_points(s: Seq<char>, p: int, q: int)
    requires
        0 <= p < q < s.len(),
        s[p] == '.',
        s[q] == '.',
    ensures
        !is_mantissa(s),
{
    if is_mantissa(s) {
        if all_digits(s) {
            assert(is_digit(s[p]));
        } else {
            let r = choose|r: int| is_pointed_at(s, r);
            if r != p {
                if p < r {
                    assert(s.take(r)[p] == s[p]);
                } else {
                    assert(s.skip(r + 1)[p - r - 1] == s[p]);
                }
            } else {
                assert(s.skip(r + 1)[q - r - 1] == s[q]);
            }
        }
    }
}

/// Decides [`is_letter`].
fn letter(c: char, lower: char, upper: char) -> (b: bool)
    ensures
        b == is_letter(c, lower, upper),
{
    c == lower || c == upper
}

/// Decides [`is_named`].
fn named(s: &[char]) -> (b: bool)
    ensures
        b == is_named(s@),
{
    if s.len() == 3 {
        (letter(s[0], 'i', 'I') && letter(s[1], 'n', 'N') && letter(s[2], 'f', 'F')) || (letter(
            s[0],
            'n',
            'N',
        ) && letter(s[1], 'a', 'A') && letter(s[2], 'n', 'N'))
    } else if s.len() == 8 {
        letter(s[0], 'i', 'I') && letter(s[1], 'n', 'N') && letter(s[2], 'f', 'F') && letter(
            s[3],
            'i',
            'I',
        ) && letter(s[4], 'n', 'N') && letter(s[5], 'i', 'I') && letter(s[6], 't', 'T') && letter(
            s[7],
            'y',
            'Y',
        )
    } else {
        false
    }
}

/// Whether `s` is a decimal floating-point literal.
pub fn is_number(s: &str) -> (b: bool)
    ensures
        b == is_number_text(s@),
{
    let chars = to_chars(s);
    let body = strip_sign(chars.as_slice());
    named(body) || decimal(body)
}

} // verus!
