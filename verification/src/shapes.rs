//! Lexical shapes used by the validator: key, object-path and bare
//! identifiers, boolean words, and numeric literals. Each executable
//! matcher is proved equivalent to a declarative description of the shape.
//!
//! All shapes are ASCII-only; any non-ASCII byte fails the byte classes and
//! so fails the match, which is the intended behaviour.

use vstd::prelude::*;
use vstd::string::StringSliceAdditionalSpecFns;

verus! {

// ------------------------------------------------------------------
// Byte classes
// ------------------------------------------------------------------

/// An ASCII letter.
pub open spec fn is_alpha(b: u8) -> bool {
    (65 <= b <= 90) || (97 <= b <= 122)
}

/// An ASCII digit.
pub open spec fn is_digit(b: u8) -> bool {
    48 <= b <= 57
}

/// A letter, digit or underscore.
pub open spec fn is_word_byte(b: u8) -> bool {
    is_alpha(b) || is_digit(b) || b == 95
}

/// The lower-case form of an ASCII byte.
pub open spec fn lower_byte(b: u8) -> u8 {
    if 65 <= b <= 90 {
        (b + 32) as u8
    } else {
        b
    }
}

// ------------------------------------------------------------------
// Declarative shapes
// ------------------------------------------------------------------

/// Every byte of the sequence is a digit.
pub open spec fn all_digits(s: Seq<u8>) -> bool {
    forall|j: int| 0 <= j < s.len() ==> is_digit(#[trigger] s[j])
}

/// A bare identifier: a letter followed by letters, digits or underscores.
pub open spec fn is_ident_seq(s: Seq<u8>) -> bool {
    s.len() >= 1 && is_alpha(s[0]) && (forall|j: int|
        1 <= j < s.len() ==> is_word_byte(#[trigger] s[j]))
}

/// An unsigned index without a leading zero: `0`, or a nonzero digit
/// followed by digits.
pub open spec fn is_index_seq(s: Seq<u8>) -> bool {
    s.len() >= 1 && all_digits(s) && (s[0] != 48 || s.len() == 1)
}

/// An index wrapped in `[`...`]` or `(`...`)`.
pub open spec fn is_key_suffix(s: Seq<u8>) -> bool {
    s.len() >= 3 && ((s[0] == 91 && s[s.len() - 1] == 93) || (s[0] == 40 && s[s.len() - 1] == 41))
        && is_index_seq(s.subrange(1, s.len() - 1))
}

/// A key: an identifier with an optional bracketed or parenthesized index.
pub open spec fn is_key_seq(s: Seq<u8>) -> bool {
    is_ident_seq(s) || (exists|i: int|
        0 < i < s.len() && is_ident_seq(s.subrange(0, i)) && is_key_suffix(
            #[trigger] s.subrange(i, s.len() as int),
        ))
}

/// An object path: an identifier, optionally followed by a single space- or
/// dot-separated second identifier.
pub open spec fn is_object_seq(s: Seq<u8>) -> bool {
    is_ident_seq(s) || (exists|i: int|
        0 < i < s.len() && (s[i] == 32 || s[i] == 46) && is_ident_seq(s.subrange(0, i))
            && is_ident_seq(#[trigger] s.subrange(i + 1, s.len() as int)))
}

/// The word `true`, ignoring ASCII case.
pub open spec fn is_true_word(s: Seq<u8>) -> bool {
    s.len() == 4 && lower_byte(s[0]) == 116 && lower_byte(s[1]) == 114 && lower_byte(s[2]) == 117
        && lower_byte(s[3]) == 101
}

/// The word `false`, ignoring ASCII case.
pub open spec fn is_false_word(s: Seq<u8>) -> bool {
    s.len() == 5 && lower_byte(s[0]) == 102 && lower_byte(s[1]) == 97 && lower_byte(s[2]) == 108
        && lower_byte(s[3]) == 115 && lower_byte(s[4]) == 101
}

/// The word `true` or `false`, ignoring ASCII case.
pub open spec fn is_bool_seq(s: Seq<u8>) -> bool {
    is_true_word(s) || is_false_word(s)
}

/// The word `inf`, ignoring ASCII case.
pub open spec fn is_inf_word(s: Seq<u8>) -> bool {
    s.len() == 3 && lower_byte(s[0]) == 105 && lower_byte(s[1]) == 110 && lower_byte(s[2]) == 102
}

/// The word `infinity`, ignoring ASCII case.
pub open spec fn is_infinity_word(s: Seq<u8>) -> bool {
    s.len() == 8 && lower_byte(s[0]) == 105 && lower_byte(s[1]) == 110 && lower_byte(s[2]) == 102
        && lower_byte(s[3]) == 105 && lower_byte(s[4]) == 110 && lower_byte(s[5]) == 105
        && lower_byte(s[6]) == 116 && lower_byte(s[7]) == 121
}

/// The word `nan`, ignoring ASCII case.
pub open spec fn is_nan_word(s: Seq<u8>) -> bool {
    s.len() == 3 && lower_byte(s[0]) == 110 && lower_byte(s[1]) == 97 && lower_byte(s[2]) == 110
}

/// A digit run with an optional single dot: `123`, `1.`, `.5`, `1.25`; at
/// least one digit in all.
pub open spec fn is_mantissa(s: Seq<u8>) -> bool {
    (s.len() >= 1 && all_digits(s)) || (s.len() >= 2 && (exists|d: int|
        0 <= d < s.len() && #[trigger] s[d] == 46 && all_digits(s.subrange(0, d)) && all_digits(
            s.subrange(d + 1, s.len() as int),
        )))
}

/// An exponent tail: an optional sign followed by at least one digit.
pub open spec fn is_exp_tail(s: Seq<u8>) -> bool {
    if s.len() >= 1 && (s[0] == 43 || s[0] == 45) {
        s.len() >= 2 && all_digits(s.subrange(1, s.len() as int))
    } else {
        s.len() >= 1 && all_digits(s)
    }
}

/// The unsigned body of a numeric literal: a special float word, or a
/// mantissa with an optional `e`/`E` exponent.
pub open spec fn is_num_body(s: Seq<u8>) -> bool {
    ||| is_inf_word(s)
    ||| is_infinity_word(s)
    ||| is_nan_word(s)
    ||| is_mantissa(s)
    ||| (exists|x: int|
        0 <= x < s.len() && (s[x] == 101 || s[x] == 69) && is_mantissa(
            #[trigger] s.subrange(0, x),
        ) && is_exp_tail(s.subrange(x + 1, s.len() as int)))
}

/// A numeric literal in the shape accepted for property values: exactly the
/// strings that parse as a 32-bit float, which subsume the strings that
/// parse as a signed 32-bit integer (an out-of-range integer still has
/// float shape).
pub open spec fn is_num_seq(s: Seq<u8>) -> bool {
    if s.len() >= 1 && (s[0] == 43 || s[0] == 45) {
        is_num_body(s.subrange(1, s.len() as int))
    } else {
        is_num_body(s)
    }
}

// ------------------------------------------------------------------
// Executable matchers over byte ranges
// ------------------------------------------------------------------

/// The first position in `[i, end)` holding no word byte, or `end`.
pub open spec fn skip_word(t: Seq<u8>, i: int, end: int) -> int
    decreases end - i,
{
    if i < 0 || i >= end || end > t.len() {
        end
    } else if is_word_byte(t[i]) {
        skip_word(t, i + 1, end)
    } else {
        i
    }
}

/// `skip_word` skips exactly the run of word bytes.
pub proof fn lemma_skip_word(t: Seq<u8>, i: int, end: int)
    requires
        0 <= i <= end <= t.len(),
    ensures
        i <= skip_word(t, i, end) <= end,
        forall|j: int| i <= j < skip_word(t, i, end) ==> is_word_byte(#[trigger] t[j]),
        skip_word(t, i, end) < end ==> !is_word_byte(t[skip_word(t, i, end)]),
    decreases end - i,
{
    if i < end && is_word_byte(t[i]) {
        lemma_skip_word(t, i + 1, end);
    }
}

/// Finds the first byte in `[i, end)` that is not a word byte.
fn scan_word(b: &[u8], i: usize, end: usize) -> (r: usize)
    requires
        i <= end <= b@.len(),
    ensures
        r == skip_word(b@, i as int, end as int),
        i <= r <= end,
{
    let mut k = i;
    while k < end && (b[k] == 95 || (65 <= b[k] && b[k] <= 90) || (97 <= b[k] && b[k] <= 122) || (48
        <= b[k] && b[k] <= 57))
        invariant
            i <= k <= end <= b@.len(),
            skip_word(b@, i as int, end as int) == skip_word(b@, k as int, end as int),
        decreases end - k,
    {
        k = k + 1;
    }
    k
}

/// Decides whether `[a, e)` is a bare identifier.
pub(crate) fn ident_in_range(b: &[u8], a: usize, e: usize) -> (r: bool)
    requires
        a <= e <= b@.len(),
    ensures
        r == is_ident_seq(b@.subrange(a as int, e as int)),
{
    let ghost s = b@.subrange(a as int, e as int);
    if a == e {
        return false;
    }
    let c = b[a];
    if !((65 <= c && c <= 90) || (97 <= c && c <= 122)) {
        assert(s[0] == b@[a as int]);
        return false;
    }
    let w = scan_word(b, a + 1, e);
    proof {
        lemma_skip_word(b@, a + 1, e as int);
    }
    if w == e {
        assert(is_ident_seq(s)) by {
            assert(forall|j: int| 1 <= j < s.len() ==> s[j] == b@[a + j]);
        }
        true
    } else {
        assert(!is_ident_seq(s)) by {
            assert(s[w - a] == b@[w as int]);
            assert(!is_word_byte(s[w - a]));
        }
        false
    }
}

/// Decides whether `[a, e)` is an index without a leading zero.
fn index_in_range(b: &[u8], a: usize, e: usize) -> (r: bool)
    requires
        a <= e <= b@.len(),
    ensures
        r == is_index_seq(b@.subrange(a as int, e as int)),
{
    let ghost s = b@.subrange(a as int, e as int);
    if a == e {
        return false;
    }
    let mut k = a;
    while k < e && 48 <= b[k] && b[k] <= 57
        invariant
            a <= k <= e <= b@.len(),
            forall|j: int| a <= j < k ==> is_digit(#[trigger] b@[j]),
        decreases e - k,
    {
        k = k + 1;
    }
    if k < e {
        assert(!is_digit(b@[k as int]));
        assert(s[k - a] == b@[k as int]);
        return false;
    }
    assert(all_digits(s)) by {
        assert(forall|j: int| 0 <= j < s.len() ==> s[j] == b@[a + j]);
    }
    if b[a] == 48 && e - a > 1 {
        assert(s[0] == 48 && s.len() > 1);
        return false;
    }
    assert(s[0] == b@[a as int]);
    true
}

/// Decides whether `[a, e)` is a key: an identifier with an optional
/// bracketed or parenthesized index.
pub(crate) fn key_in_range(b: &[u8], a: usize, e: usize) -> (r: bool)
    requires
        a <= e <= b@.len(),
    ensures
        r == is_key_seq(b@.subrange(a as int, e as int)),
{
    let ghost s = b@.subrange(a as int, e as int);
    if a == e {
        return false;
    }
    let c = b[a];
    if !((65 <= c && c <= 90) || (97 <= c && c <= 122)) {
        assert(s[0] == b@[a as int]);
        assert(!is_ident_seq(s));
        assert forall|i: int|
            0 < i < s.len() implies !(is_ident_seq(s.subrange(0, i)) && is_key_suffix(
            #[trigger] s.subrange(i, s.len() as int),
        )) by {
            assert(s.subrange(0, i).len() >= 1 ==> s.subrange(0, i)[0] == s[0]);
        }
        return false;
    }
    let w = scan_word(b, a + 1, e);
    proof {
        lemma_skip_word(b@, a + 1, e as int);
    }
    if w == e {
        assert(is_ident_seq(s)) by {
            assert(forall|j: int| 1 <= j < s.len() ==> s[j] == b@[a + j]);
        }
        return true;
    }
    // A word byte broke off before the end: the identifier part can only be
    // [a, w), and the remainder must be an index suffix.
    assert(!is_ident_seq(s)) by {
        assert(s[w - a] == b@[w as int]);
    }
    let ok = if b[w] == 91 && b[e - 1] == 93 && e - w >= 3 {
        index_in_range(b, w + 1, e - 1)
    } else if b[w] == 40 && b[e - 1] == 41 && e - w >= 3 {
        index_in_range(b, w + 1, e - 1)
    } else {
        false
    };
    proof {
        let gi = w - a;
        let pre = s.subrange(0, gi);
        let suf = s.subrange(gi, s.len() as int);
        assert(forall|j: int| 0 <= j < s.len() ==> s[j] == b@[a + j]);
        assert(pre =~= b@.subrange(a as int, w as int));
        assert(suf =~= b@.subrange(w as int, e as int));
        assert(is_ident_seq(pre)) by {
            assert(forall|j: int| 0 <= j < pre.len() ==> pre[j] == b@[a + j]);
        }
        if ok {
            assert(suf.subrange(1, suf.len() - 1) =~= b@.subrange(w + 1 as int, e - 1 as int));
            assert(is_key_suffix(suf));
            assert(is_key_seq(s));
        } else {
            // No split other than at `w` can work: an earlier split leaves a
            // word byte at the start of the suffix, a later one puts the
            // non-word byte `s[w - a]` inside the identifier part.
            assert forall|i: int|
                0 < i < s.len() implies !(is_ident_seq(s.subrange(0, i)) && is_key_suffix(
                #[trigger] s.subrange(i, s.len() as int),
            )) by {
                if i < gi {
                    let sufi = s.subrange(i, s.len() as int);
                    assert(sufi.len() >= 1 && sufi[0] == s[i]);
                    assert(is_word_byte(s[i]));
                } else if i > gi {
                    assert(s.subrange(0, i)[gi] == s[gi]);
                    assert(!is_word_byte(s[gi]));
                } else {
                    assert(s.subrange(i, s.len() as int) == suf);
                    assert(suf[0] == b@[w as int]);
                    assert(suf[suf.len() - 1] == b@[e - 1]);
                    if suf.len() >= 3 && ((suf[0] == 91 && suf[suf.len() - 1] == 93) || (suf[0]
                        == 40 && suf[suf.len() - 1] == 41)) {
                        assert(suf.subrange(1, suf.len() - 1) =~= b@.subrange(
                            w + 1 as int,
                            e - 1 as int,
                        ));
                    }
                }
            }
        }
    }
    ok
}

/// Decides whether `[a, e)` is an object path.
pub(crate) fn object_in_range(b: &[u8], a: usize, e: usize) -> (r: bool)
    requires
        a <= e <= b@.len(),
    ensures
        r == is_object_seq(b@.subrange(a as int, e as int)),
{
    let ghost s = b@.subrange(a as int, e as int);
    if a == e {
        return false;
    }
    let c = b[a];
    if !((65 <= c && c <= 90) || (97 <= c && c <= 122)) {
        assert(s[0] == b@[a as int]);
        assert(!is_ident_seq(s));
        assert forall|i: int|
            0 < i < s.len() implies !((s[i] == 32 || s[i] == 46) && is_ident_seq(
            s.subrange(0, i),
        ) && is_ident_seq(#[trigger] s.subrange(i + 1, s.len() as int))) by {
            assert(s.subrange(0, i).len() >= 1 ==> s.subrange(0, i)[0] == s[0]);
        }
        return false;
    }
    let w = scan_word(b, a + 1, e);
    proof {
        lemma_skip_word(b@, a + 1, e as int);
    }
    if w == e {
        assert(is_ident_seq(s)) by {
            assert(forall|j: int| 1 <= j < s.len() ==> s[j] == b@[a + j]);
        }
        return true;
    }
    assert(!is_ident_seq(s)) by {
        assert(s[w - a] == b@[w as int]);
    }
    let ok = if b[w] == 32 || b[w] == 46 {
        ident_in_range(b, w + 1, e)
    } else {
        false
    };
    proof {
        let gi = w - a;
        assert(forall|j: int| 0 <= j < s.len() ==> s[j] == b@[a + j]);
        assert(s.subrange(0, gi) =~= b@.subrange(a as int, w as int));
        assert(s.subrange(gi + 1, s.len() as int) =~= b@.subrange(w + 1 as int, e as int));
        assert(is_ident_seq(s.subrange(0, gi))) by {
            assert(forall|j: int|
                0 <= j < s.subrange(0, gi).len() ==> s.subrange(0, gi)[j] == b@[a + j]);
        }
        if ok {
            assert(is_object_seq(s));
        } else {
            assert forall|i: int|
                0 < i < s.len() implies !((s[i] == 32 || s[i] == 46) && is_ident_seq(
                s.subrange(0, i),
            ) && is_ident_seq(#[trigger] s.subrange(i + 1, s.len() as int))) by {
                if i < gi {
                    assert(is_word_byte(s[i]));
                } else if i > gi {
                    assert(s.subrange(0, i)[gi] == s[gi]);
                    assert(!is_word_byte(s[gi]));
                } else {
                    assert(s.subrange(i + 1, s.len() as int) == b@.subrange(
                        w + 1 as int,
                        e as int,
                    ));
                }
            }
        }
    }
    ok
}

/// Lower-cases one ASCII byte.
fn to_lower(c: u8) -> (r: u8)
    ensures
        r == lower_byte(c),
{
    if 65 <= c && c <= 90 {
        c + 32
    } else {
        c
    }
}

/// Decides whether `[a, e)` is `true` or `false`, ignoring ASCII case.
pub(crate) fn bool_in_range(b: &[u8], a: usize, e: usize) -> (r: bool)
    requires
        a <= e <= b@.len(),
    ensures
        r == is_bool_seq(b@.subrange(a as int, e as int)),
{
    let ghost s = b@.subrange(a as int, e as int);
    proof {
        assert(forall|j: int| 0 <= j < s.len() ==> s[j] == b@[a + j]);
    }
    if e - a == 4 {
        to_lower(b[a]) == 116 && to_lower(b[a + 1]) == 114 && to_lower(b[a + 2]) == 117 && to_lower(
            b[a + 3],
        ) == 101
    } else if e - a == 5 {
        to_lower(b[a]) == 102 && to_lower(b[a + 1]) == 97 && to_lower(b[a + 2]) == 108 && to_lower(
            b[a + 3],
        ) == 115 && to_lower(b[a + 4]) == 101
    } else {
        false
    }
}

/// The first position in `[i, end)` holding no digit, or `end`.
pub open spec fn skip_digits(t: Seq<u8>, i: int, end: int) -> int
    decreases end - i,
{
    if i < 0 || i >= end || end > t.len() {
        end
    } else if is_digit(t[i]) {
        skip_digits(t, i + 1, end)
    } else {
        i
    }
}

/// `skip_digits` skips exactly the run of digits.
pub proof fn lemma_skip_digits(t: Seq<u8>, i: int, end: int)
    requires
        0 <= i <= end <= t.len(),
    ensures
        i <= skip_digits(t, i, end) <= end,
        forall|j: int| i <= j < skip_digits(t, i, end) ==> is_digit(#[trigger] t[j]),
        skip_digits(t, i, end) < end ==> !is_digit(t[skip_digits(t, i, end)]),
    decreases end - i,
{
    if i < end && is_digit(t[i]) {
        lemma_skip_digits(t, i + 1, end);
    }
}

/// Finds the first byte in `[i, end)` that is not a digit.
fn scan_digits(b: &[u8], i: usize, end: usize) -> (r: usize)
    requires
        i <= end <= b@.len(),
    ensures
        r == skip_digits(b@, i as int, end as int),
        i <= r <= end,
{
    let mut k = i;
    while k < end && 48 <= b[k] && b[k] <= 57
        invariant
            i <= k <= end <= b@.len(),
            skip_digits(b@, i as int, end as int) == skip_digits(b@, k as int, end as int),
        decreases end - k,
    {
        k = k + 1;
    }
    k
}

/// Decides whether `[a, e)` is the unsigned body of a numeric literal.
#[verifier::rlimit(100)]
fn num_body_in_range(b: &[u8], a: usize, e: usize) -> (r: bool)
    requires
        a <= e <= b@.len(),
    ensures
        r == is_num_body(b@.subrange(a as int, e as int)),
{
    let ghost s = b@.subrange(a as int, e as int);
    proof {
        assert(forall|j: int| 0 <= j < s.len() ==> s[j] == b@[a + j]);
    }
    let n = e - a;
    if n == 3 && to_lower(b[a]) == 105 && to_lower(b[a + 1]) == 110 && to_lower(b[a + 2]) == 102 {
        return true;
    }
    if n == 3 && to_lower(b[a]) == 110 && to_lower(b[a + 1]) == 97 && to_lower(b[a + 2]) == 110 {
        return true;
    }
    if n == 8 && to_lower(b[a]) == 105 && to_lower(b[a + 1]) == 110 && to_lower(b[a + 2]) == 102
        && to_lower(b[a + 3]) == 105 && to_lower(b[a + 4]) == 110 && to_lower(b[a + 5]) == 105
        && to_lower(b[a + 6]) == 116 && to_lower(b[a + 7]) == 121 {
        return true;
    }
    proof {
        assert(!is_inf_word(s) && !is_infinity_word(s) && !is_nan_word(s));
    }
    // Mantissa: a digit run, an optional dot, a further digit run.
    let d1 = scan_digits(b, a, e);
    proof {
        lemma_skip_digits(b@, a as int, e as int);
    }
    let m_end: usize;
    let has_digits: bool;
    if d1 < e && b[d1] == 46 {
        let d2 = scan_digits(b, d1 + 1, e);
        proof {
            lemma_skip_digits(b@, d1 + 1, e as int);
        }
        m_end = d2;
        has_digits = d1 > a || d2 > d1 + 1;
    } else {
        m_end = d1;
        has_digits = d1 > a;
    }
    let ghost gm = m_end - a;
    proof {
        lemma_num_mantissa_shape(b@, a as int, e as int, d1 as int, m_end as int, has_digits);
    }
    if m_end == e {
        return has_digits;
    }
    let c = b[m_end];
    if !(c == 101 || c == 69) {
        proof {
            lemma_num_no_split(b@, a as int, e as int, d1 as int, m_end as int);
        }
        return false;
    }
    if !has_digits {
        proof {
            lemma_num_exp_split(b@, a as int, e as int, d1 as int, m_end as int);
        }
        return false;
    }
    // Exponent tail: optional sign, then at least one digit reaching the end.
    let mut x = m_end + 1;
    if x < e && (b[x] == 43 || b[x] == 45) {
        x = x + 1;
    }
    let ok: bool;
    if x >= e {
        ok = false;
    } else {
        let d3 = scan_digits(b, x, e);
        proof {
            lemma_skip_digits(b@, x as int, e as int);
        }
        ok = d3 == e;
    }
    proof {
        lemma_num_exp_split(b@, a as int, e as int, d1 as int, m_end as int);
        let tail = s.subrange(gm + 1, s.len() as int);
        assert(forall|j: int| 0 <= j < tail.len() ==> tail[j] == b@[m_end + 1 + j]);
        if ok {
            if x as int == m_end + 2 {
                assert(tail[0] == b@[m_end + 1]);
                assert(tail.subrange(1, tail.len() as int) =~= b@.subrange(x as int, e as int));
            } else {
                assert(tail =~= b@.subrange(x as int, e as int));
            }
            assert(is_exp_tail(tail));
        } else {
            assert(!is_exp_tail(tail)) by {
                if is_exp_tail(tail) {
                    if tail.len() >= 1 && (tail[0] == 43 || tail[0] == 45) {
                        assert(x as int == m_end + 2);
                        assert(tail.subrange(1, tail.len() as int) =~= b@.subrange(
                            x as int,
                            e as int,
                        ));
                        assert(x < e);
                        let d3 = skip_digits(b@, x as int, e as int);
                        assert(tail.subrange(1, tail.len() as int)[d3 - x] == b@[d3]);
                    } else {
                        assert(x as int == m_end + 1);
                        assert(tail =~= b@.subrange(x as int, e as int));
                        if x < e {
                            let d3 = skip_digits(b@, x as int, e as int);
                            assert(tail[d3 - x] == b@[d3]);
                        }
                    }
                }
            }
        }
    }
    ok
}

/// After the digit-dot-digit scan, the prefix `[a, m_end)` is a mantissa
/// exactly when a digit was seen, and no byte of it is `e` or `E`.
proof fn lemma_num_mantissa_shape(t: Seq<u8>, a: int, e: int, d1: int, m_end: int, has_digits: bool)
    requires
        0 <= a <= e <= t.len(),
        d1 == skip_digits(t, a, e),
        ({
            if d1 < e && t[d1] == 46 {
                m_end == skip_digits(t, d1 + 1, e) && has_digits == (d1 > a || m_end > d1 + 1)
            } else {
                m_end == d1 && has_digits == (d1 > a)
            }
        }),
    ensures
        a <= m_end <= e,
        is_mantissa(t.subrange(a, m_end)) <==> has_digits,
        forall|j: int| a <= j < m_end ==> is_digit(#[trigger] t[j]) || t[j] == 46,
        m_end < e ==> !is_digit(t[m_end]),
        m_end < e && t[m_end] == 46 ==> d1 < m_end && t[d1] == 46,
{
    lemma_skip_digits(t, a, e);
    if d1 < e && t[d1] == 46 {
        lemma_skip_digits(t, d1 + 1, e);
    }
    let m = t.subrange(a, m_end);
    assert(forall|j: int| 0 <= j < m.len() ==> m[j] == t[a + j]);
    if d1 < e && t[d1] == 46 {
        let gd = d1 - a;
        assert(m[gd] == 46);
        if has_digits {
            assert(is_mantissa(m)) by {
                assert(m.len() >= 2);
                assert(all_digits(m.subrange(0, gd))) by {
                    assert(forall|j: int|
                        0 <= j < gd ==> m.subrange(0, gd)[j] == t[a + j]);
                }
                assert(all_digits(m.subrange(gd + 1, m.len() as int))) by {
                    assert(forall|j: int|
                        0 <= j < m.len() - gd - 1 ==> #[trigger] m.subrange(
                            gd + 1,
                            m.len() as int,
                        )[j] == t[d1 + 1 + j]);
                }
            }
        } else {
            // The mantissa is exactly the single dot.
            assert(d1 == a && m_end == d1 + 1);
            assert(m.len() == 1);
            assert(!is_mantissa(m));
        }
    } else {
        if has_digits {
            assert(is_mantissa(m)) by {
                assert(all_digits(m));
            }
        } else {
            assert(m.len() == 0);
            assert(!is_mantissa(m));
        }
    }
}

/// When the scan stops at a byte that is neither a digit, a dot, nor an
/// exponent marker, the whole range has no numeric shape.
proof fn lemma_num_no_split(t: Seq<u8>, a: int, e: int, d1: int, m_end: int)
    requires
        0 <= a <= e <= t.len(),
        d1 == skip_digits(t, a, e),
        a <= m_end < e,
        forall|j: int| a <= j < m_end ==> is_digit(#[trigger] t[j]) || t[j] == 46,
        !is_digit(t[m_end]),
        t[m_end] == 46 ==> a <= d1 < m_end && t[d1] == 46,
        t[m_end] != 101 && t[m_end] != 69,
        !is_inf_word(t.subrange(a, e)),
        !is_infinity_word(t.subrange(a, e)),
        !is_nan_word(t.subrange(a, e)),
        ({
            if d1 < e && t[d1] == 46 {
                m_end == skip_digits(t, d1 + 1, e)
            } else {
                m_end == d1
            }
        }),
    ensures
        !is_num_body(t.subrange(a, e)),
{
    let s = t.subrange(a, e);
    let gm = m_end - a;
    assert(forall|j: int| 0 <= j < s.len() ==> s[j] == t[a + j]);
    assert(s[gm] == t[m_end]);
    assert(!is_mantissa(s)) by {
        if s.len() >= 1 && all_digits(s) {
            assert(is_digit(s[gm]));
        }
        if exists|d: int|
            0 <= d < s.len() && #[trigger] s[d] == 46 && all_digits(s.subrange(0, d)) && all_digits(
                s.subrange(d + 1, s.len() as int),
            ) {
            let d = choose|d: int|
                0 <= d < s.len() && #[trigger] s[d] == 46 && all_digits(s.subrange(0, d))
                    && all_digits(s.subrange(d + 1, s.len() as int));
            if d < gm {
                assert(s.subrange(d + 1, s.len() as int)[gm - d - 1] == s[gm]);
            } else if d > gm {
                assert(s.subrange(0, d)[gm] == s[gm]);
            } else {
                // The scan point is a second dot; the first dot refutes the
                // digit run in front of it.
                assert(s[gm] == 46);
                assert(s.subrange(0, d)[d1 - a] == s[d1 - a]);
                assert(s[d1 - a] == t[d1]);
            }
        }
    }
    assert forall|x: int| 0 <= x < s.len() && (s[x] == 101 || s[x] == 69) implies !(is_mantissa(
        #[trigger] s.subrange(0, x),
    ) && is_exp_tail(s.subrange(x + 1, s.len() as int))) by {
        // Any exponent marker lies past the scan point, so the would-be
        // mantissa in front of it contains the offending byte.
        assert(x > gm);
        let pre = s.subrange(0, x);
        assert(pre[gm] == s[gm]);
        if is_mantissa(pre) {
            if pre.len() >= 1 && all_digits(pre) {
                assert(is_digit(pre[gm]));
            } else {
                let d = choose|d: int|
                    0 <= d < pre.len() && #[trigger] pre[d] == 46 && all_digits(pre.subrange(0, d))
                        && all_digits(pre.subrange(d + 1, pre.len() as int));
                if d < gm {
                    assert(pre.subrange(d + 1, pre.len() as int)[gm - d - 1] == pre[gm]);
                } else if d > gm {
                    assert(pre.subrange(0, d)[gm] == pre[gm]);
                } else {
                    assert(pre[gm] == 46);
                    assert(pre.subrange(0, d)[d1 - a] == pre[d1 - a]);
                    assert(pre[d1 - a] == t[d1]);
                }
            }
        }
    }
}

/// When the scan stops at an exponent marker, the only possible exponent
/// split is at the scan point, and the prefix mantissa is fixed.
proof fn lemma_num_exp_split(t: Seq<u8>, a: int, e: int, d1: int, m_end: int)
    requires
        0 <= a <= e <= t.len(),
        d1 == skip_digits(t, a, e),
        a <= m_end < e,
        forall|j: int| a <= j < m_end ==> is_digit(#[trigger] t[j]) || t[j] == 46,
        !is_digit(t[m_end]),
        t[m_end] != 46,
        t[m_end] == 101 || t[m_end] == 69,
        ({
            if d1 < e && t[d1] == 46 {
                m_end == skip_digits(t, d1 + 1, e)
            } else {
                m_end == d1
            }
        }),
    ensures
        is_num_body(t.subrange(a, e)) <==> (is_mantissa(t.subrange(a, m_end)) && is_exp_tail(
            t.subrange(a, e).subrange(m_end - a + 1, e - a),
        )),
{
    let s = t.subrange(a, e);
    let gm = m_end - a;
    assert(forall|j: int| 0 <= j < s.len() ==> s[j] == t[a + j]);
    assert(s.subrange(0, gm) =~= t.subrange(a, m_end));
    assert(!is_inf_word(s) && !is_nan_word(s)) by {
        if s.len() == 3 {
            assert(lower_byte(s[gm]) == 101);
        }
    }
    assert(!is_infinity_word(s)) by {
        if s.len() == 8 {
            assert(lower_byte(s[gm]) == 101);
        }
    }
    assert(!is_mantissa(s)) by {
        if s.len() >= 1 && all_digits(s) {
            assert(is_digit(s[gm]));
        }
        if exists|d: int|
            0 <= d < s.len() && #[trigger] s[d] == 46 && all_digits(s.subrange(0, d)) && all_digits(
                s.subrange(d + 1, s.len() as int),
            ) {
            let d = choose|d: int|
                0 <= d < s.len() && #[trigger] s[d] == 46 && all_digits(s.subrange(0, d))
                    && all_digits(s.subrange(d + 1, s.len() as int));
            if d < gm {
                assert(s.subrange(d + 1, s.len() as int)[gm - d - 1] == s[gm]);
            } else if d > gm {
                assert(s.subrange(0, d)[gm] == s[gm]);
            }
        }
    }
    assert forall|x: int|
        0 <= x < s.len() && (s[x] == 101 || s[x] == 69) && x != gm implies !(is_mantissa(
        #[trigger] s.subrange(0, x),
    ) && is_exp_tail(s.subrange(x + 1, s.len() as int))) by {
        if x > gm {
            let pre = s.subrange(0, x);
            assert(pre[gm] == s[gm]);
            if is_mantissa(pre) {
                if pre.len() >= 1 && all_digits(pre) {
                    assert(is_digit(pre[gm]));
                } else {
                    let d = choose|d: int|
                        0 <= d < pre.len() && #[trigger] pre[d] == 46 && all_digits(
                            pre.subrange(0, d),
                        ) && all_digits(pre.subrange(d + 1, pre.len() as int));
                    if d < gm {
                        assert(pre.subrange(d + 1, pre.len() as int)[gm - d - 1] == pre[gm]);
                    } else if d > gm {
                        assert(pre.subrange(0, d)[gm] == pre[gm]);
                    }
                }
            }
        } else {
            assert(is_digit(s[x]) || s[x] == 46);
        }
    }
    if is_num_body(s) {
        assert(is_mantissa(s.subrange(0, gm)) && is_exp_tail(s.subrange(gm + 1, s.len() as int)));
    }
    if is_mantissa(s.subrange(0, gm)) && is_exp_tail(s.subrange(gm + 1, s.len() as int)) {
        assert(is_num_body(s));
    }
}

/// Decides whether `[a, e)` is a numeric literal with an optional sign.
pub(crate) fn num_in_range(b: &[u8], a: usize, e: usize) -> (r: bool)
    requires
        a <= e <= b@.len(),
    ensures
        r == is_num_seq(b@.subrange(a as int, e as int)),
{
    let ghost s = b@.subrange(a as int, e as int);
    proof {
        assert(forall|j: int| 0 <= j < s.len() ==> s[j] == b@[a + j]);
    }
    if a < e && (b[a] == 43 || b[a] == 45) {
        let r = num_body_in_range(b, a + 1, e);
        proof {
            assert(s.subrange(1, s.len() as int) =~= b@.subrange(a + 1 as int, e as int));
        }
        r
    } else {
        num_body_in_range(b, a, e)
    }
}

// ------------------------------------------------------------------
// String-level matchers
// ------------------------------------------------------------------

/// Decides whether the text is a bare identifier.
pub fn matches_ident(text: &str) -> (r: bool)
    ensures
        r == is_ident_seq(text.spec_bytes()),
{
    let b = text.as_bytes();
    proof {
        assert(b@.subrange(0, b@.len() as int) =~= b@);
    }
    ident_in_range(b, 0, b.len())
}

/// Decides whether the text is a key: an identifier with an optional
/// non-zero-padded index in brackets or parentheses.
pub fn matches_key(text: &str) -> (r: bool)
    ensures
        r == is_key_seq(text.spec_bytes()),
{
    let b = text.as_bytes();
    proof {
        assert(b@.subrange(0, b@.len() as int) =~= b@);
    }
    key_in_range(b, 0, b.len())
}

/// Decides whether the text is an object path: an identifier optionally
/// followed by a space- or dot-separated second identifier.
pub fn matches_object(text: &str) -> (r: bool)
    ensures
        r == is_object_seq(text.spec_bytes()),
{
    let b = text.as_bytes();
    proof {
        assert(b@.subrange(0, b@.len() as int) =~= b@);
    }
    object_in_range(b, 0, b.len())
}

/// Decides whether the text is `true` or `false`, ignoring ASCII case.
pub fn matches_bool(text: &str) -> (r: bool)
    ensures
        r == is_bool_seq(text.spec_bytes()),
{
    let b = text.as_bytes();
    proof {
        assert(b@.subrange(0, b@.len() as int) =~= b@);
    }
    bool_in_range(b, 0, b.len())
}

/// Decides whether the text has the shape of a numeric literal: exactly the
/// strings accepted by a 32-bit float parse, which include every signed
/// 32-bit integer literal (an out-of-range integer still has float shape).
pub fn matches_num(text: &str) -> (r: bool)
    ensures
        r == is_num_seq(text.spec_bytes()),
{
    let b = text.as_bytes();
    proof {
        assert(b@.subrange(0, b@.len() as int) =~= b@);
    }
    num_in_range(b, 0, b.len())
}

} // verus!
