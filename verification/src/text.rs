//! Whitespace and trimming over strings, stated on sequences of characters.

use vstd::prelude::*;

verus! {

/// Whether `c` carries the Unicode `White_Space` property.
pub open spec fn is_whitespace(c: char) -> bool {
    ||| ('\u{9}' <= c && c <= '\u{d}')
    ||| c == ' '
    ||| c == '\u{85}'
    ||| c == '\u{a0}'
    ||| c == '\u{1680}'
    ||| ('\u{2000}' <= c && c <= '\u{200a}')
    ||| c == '\u{2028}'
    ||| c == '\u{2029}'
    ||| c == '\u{202f}'
    ||| c == '\u{205f}'
    ||| c == '\u{3000}'
}

/// What each of the strings holds, in order.
pub open spec fn texts(strings: Seq<String>) -> Seq<Seq<char>> {
    strings.map_values(|s: String| s@)
}

/// `s` without its longest prefix of whitespace.
pub open spec fn trim_start(s: Seq<char>) -> Seq<char>
    decreases s.len(),
{
    if s.len() > 0 && is_whitespace(s.first()) {
        trim_start(s.drop_first())
    } else {
        s
    }
}

/// `s` without its longest suffix of whitespace.
pub open spec fn trim_end(s: Seq<char>) -> Seq<char>
    decreases s.len(),
{
    if s.len() > 0 && is_whitespace(s.last()) {
        trim_end(s.drop_last())
    } else {
        s
    }
}

/// `s` without leading and trailing whitespace.
pub open spec fn trimmed(s: Seq<char>) -> Seq<char> {
    trim_end(trim_start(s))
}

/// Whether `s` neither starts nor ends with whitespace.
pub open spec fn is_trimmed(s: Seq<char>) -> bool {
    s.len() > 0 ==> !is_whitespace(s.first()) && !is_whitespace(s.last())
}

/// Whether every character of `s` before position `n` is whitespace.
pub open spec fn whitespace_before(s: Seq<char>, n: int) -> bool {
    forall|i: int| 0 <= i < n ==> is_whitespace(#[trigger] s[i])
}

/// Whether every character of `s` from position `n` on is whitespace.
pub open spec fn whitespace_from(s: Seq<char>, n: int) -> bool {
    forall|i: int| n <= i < s.len() ==> is_whitespace(#[trigger] s[i])
}

/// Dropping a whitespace prefix that ends at the first other character, or at
/// the end of the text, is what `trim_start` does.
pub proof fn lemma_trim_start_is_skip(s: Seq<char>, n: int)
    requires
        0 <= n <= s.len(),
        whitespace_before(s, n),
        n < s.len() ==> !is_whitespace(s[n]),
    ensures
        trim_start(s) == s.skip(n),
    decreases n,
{
    if n == 0 {
        assert(s.skip(0) =~= s);
    } else {
        assert(is_whitespace(s[0]));
        let rest = s.drop_first();
        assert forall|i: int| 0 <= i < n - 1 implies is_whitespace(#[trigger] rest[i]) by {
            assert(rest[i] == s[i + 1]);
        }
        lemma_trim_start_is_skip(rest, n - 1);
        assert(rest.skip(n - 1) =~= s.skip(n));
    }
}

/// Dropping a whitespace suffix that starts right after the last other
/// character, or at the start of the text, is what `trim_end` does.
pub proof fn lemma_trim_end_is_take(s: Seq<char>, n: int)
    requires
        0 <= n <= s.len(),
        whitespace_from(s, n),
        n > 0 ==> !is_whitespace(s[n - 1]),
    ensures
        trim_end(s) == s.take(n),
    decreases s.len() - n,
{
    if n == s.len() {
        assert(s.take(n) =~= s);
    } else {
        assert(is_whitespace(s[s.len() - 1]));
        let rest = s.drop_last();
        assert forall|i: int| n <= i < rest.len() implies is_whitespace(#[trigger] rest[i]) by {
            assert(rest[i] == s[i]);
        }
        lemma_trim_end_is_take(rest, n);
        assert(rest.take(n) =~= s.take(n));
    }
}

/// `trim_start` returns a suffix of its argument that does not start with whitespace.
pub proof fn lemma_trim_start_shape(s: Seq<char>)
    ensures
        trim_start(s).len() <= s.len(),
        trim_start(s) == s.skip(s.len() - trim_start(s).len()),
        whitespace_before(s, s.len() - trim_start(s).len()),
        trim_start(s).len() > 0 ==> !is_whitespace(trim_start(s).first()),
    decreases s.len(),
{
    if s.len() > 0 && is_whitespace(s.first()) {
        let rest = s.drop_first();
        lemma_trim_start_shape(rest);
        let k = rest.len() - trim_start(rest).len();
        assert(rest.skip(k) =~= s.skip(k + 1));
        assert forall|i: int| 0 <= i < k + 1 implies is_whitespace(#[trigger] s[i]) by {
            if i > 0 {
                assert(rest[i - 1] == s[i]);
            }
        }
    } else {
        assert(s.skip(0) =~= s);
    }
}

/// `trim_end` returns a prefix of its argument that does not end with whitespace.
pub proof fn lemma_trim_end_shape(s: Seq<char>)
    ensures
        trim_end(s).len() <= s.len(),
        trim_end(s) == s.take(trim_end(s).len() as int),
        whitespace_from(s, trim_end(s).len() as int),
        trim_end(s).len() > 0 ==> !is_whitespace(trim_end(s).last()),
    decreases s.len(),
{
    if s.len() > 0 && is_whitespace(s.last()) {
        let rest = s.drop_last();
        lemma_trim_end_shape(rest);
        let k = trim_end(rest).len() as int;
        assert(rest.take(k) =~= s.take(k));
        assert forall|i: int| k <= i < s.len() implies is_whitespace(#[trigger] s[i]) by {
            if i < rest.len() {
                assert(rest[i] == s[i]);
            }
        }
    } else {
        assert(s.take(s.len() as int) =~= s);
    }
}

/// Trimmed text neither starts nor ends with whitespace.
pub proof fn lemma_trimmed_is_trimmed(s: Seq<char>)
    ensures
        is_trimmed(trimmed(s)),
{
    let a = trim_start(s);
    lemma_trim_start_shape(s);
    lemma_trim_end_shape(a);
    let t = trim_end(a);
    if t.len() > 0 {
        assert(t.first() == a.take(t.len() as int)[0]);
        assert(t.first() == a.first());
    }
}

/// Text that neither starts nor ends with whitespace is left as it is.
pub proof fn lemma_trimmed_fixes_trimmed(s: Seq<char>)
    requires
        is_trimmed(s),
    ensures
        trimmed(s) == s,
{
}

/// Trimming twice is trimming once.
pub proof fn lemma_trimmed_idempotent(s: Seq<char>)
    ensures
        trimmed(trimmed(s)) == trimmed(s),
{
    lemma_trimmed_is_trimmed(s);
    lemma_trimmed_fixes_trimmed(trimmed(s));
}

/// Decides [`is_whitespace`].
pub fn whitespace(c: char) -> (b: bool)
    ensures
        b == is_whitespace(c),
{
    ('\u{9}' <= c && c <= '\u{d}') || c == ' ' || c == '\u{85}' || c == '\u{a0}' || c == '\u{1680}'
        || ('\u{2000}' <= c && c <= '\u{200a}') || c == '\u{2028}' || c == '\u{2029}' || c
        == '\u{202f}' || c == '\u{205f}' || c == '\u{3000}'
}

/// Returns `s` without leading and trailing whitespace.
pub fn trim(s: &str) -> (t: String)
    ensures
        t@ == trimmed(s@),
        is_trimmed(t@),
{
    let n = s.unicode_len();
    let mut first: usize = n;
    let mut end: usize = 0;
    let mut idx: usize = 0;
    for c in it: s.chars()
        invariant
            it.seq() == s@,
            n == s@.len(),
            idx == it.index(),
            end <= idx,
            whitespace_before(s@, if first < idx { first as int } else { idx as int }),
            first < idx ==> !is_whitespace(s@[first as int]) && first < end && !is_whitespace(
                s@[end - 1],
            ),
            first >= idx ==> first == n && end == 0,
            forall|i: int| end <= i < idx ==> is_whitespace(#[trigger] s@[i]),
    {
        if !whitespace(c) {
            if first == n {
                first = idx;
            }
            end = idx + 1;
        }
        idx = idx + 1;
    }
    proof {
        lemma_trimmed_is_trimmed(s@);
        if first < n {
            lemma_trim_start_is_skip(s@, first as int);
            let a = s@.skip(first as int);
            assert forall|i: int| end - first <= i < a.len() implies is_whitespace(
                #[trigger] a[i],
            ) by {
                assert(a[i] == s@[i + first]);
            }
            assert(a[end - first - 1] == s@[end - 1]);
            lemma_trim_end_is_take(a, end - first);
            assert(a.take(end - first) =~= s@.subrange(first as int, end as int));
        } else {
            lemma_trim_start_is_skip(s@, n as int);
            assert(s@.skip(n as int) =~= Seq::<char>::empty());
        }
    }
    if first < n {
        s.substring_char(first, end).to_owned()
    } else {
        String::new()
    }
}

} // verus!
