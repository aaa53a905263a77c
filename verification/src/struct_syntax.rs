//! The property-value sub-grammar: a lexer and recursive-descent parser for
//! the UnrealScript-style struct / array / terminal expressions that appear
//! on the right-hand side of key-value pairs.
//!
//! Tokens and terminals carry byte-range spans into the parsed text; every
//! parse error carries the byte offset of the token at which the failure was
//! observed, and a short message.

use crate::parse::{sp, Span};
use crate::shapes::{all_digits, is_digit};
use vstd::prelude::*;
use vstd::string::StringSliceAdditionalSpecFns;

verus! {

/// One lexical token. `Text` and `Quoted` carry the span of their source
/// bytes; a `Quoted` span includes both quotes.
#[derive(Clone, Copy, Debug, PartialEq, Eq, Structural)]
pub enum Token {
    LParen,
    RParen,
    LBrack,
    RBrack,
    Comma,
    Eq,
    Semi,
    Text(Span),
    Quoted(Span),
}

// ------------------------------------------------------------------
// The lexer, as a specification
// ------------------------------------------------------------------

/// A byte that terminates a bareword and forms (or opens) a token of its
/// own: `(`, `)`, `[`, `]`, `,`, `=`, `"`, `;`.
pub open spec fn is_sigil_byte(b: u8) -> bool {
    b == 40 || b == 41 || b == 91 || b == 93 || b == 44 || b == 61 || b == 34 || b == 59
}

/// A space or tab, the only bytes the value lexer skips between tokens.
pub open spec fn is_lex_ws(b: u8) -> bool {
    b == 32 || b == 9
}

/// The first position at or after `i` that does not hold a space or tab.
pub open spec fn lex_skip_ws(s: Seq<u8>, i: int) -> int
    decreases s.len() - i,
{
    if i < 0 || i >= s.len() {
        s.len() as int
    } else if is_lex_ws(s[i]) {
        lex_skip_ws(s, i + 1)
    } else {
        i
    }
}

/// The end of a bareword that started before `i`: the first sigil byte at
/// or after `i`, or the text length.
pub open spec fn text_run_end(s: Seq<u8>, i: int) -> int
    decreases s.len() - i,
{
    if i < 0 || i >= s.len() {
        s.len() as int
    } else if is_sigil_byte(s[i]) {
        i
    } else {
        text_run_end(s, i + 1)
    }
}

/// The end of a quoted run whose opening quote sits at `i - 1`: one past
/// the closing quote, or the text length if it never closes.
pub open spec fn quote_run_end(s: Seq<u8>, i: int) -> int
    decreases s.len() - i,
{
    if i < 0 || i >= s.len() {
        s.len() as int
    } else if s[i] == 34 {
        i + 1
    } else {
        quote_run_end(s, i + 1)
    }
}

/// The token stream of the text from position `i` on, each token paired
/// with the byte position of its first byte.
pub open spec fn spec_lex_from(s: Seq<u8>, i: int) -> Seq<(Token, usize)>
    decreases s.len() - i,
    via spec_lex_from_decreases
{
    if i < 0 {
        Seq::empty()
    } else {
        let k = lex_skip_ws(s, i);
        if k >= s.len() {
            Seq::empty()
        } else {
            let b = s[k];
            if b == 40 {
                seq![(Token::LParen, k as usize)] + spec_lex_from(s, k + 1)
            } else if b == 41 {
                seq![(Token::RParen, k as usize)] + spec_lex_from(s, k + 1)
            } else if b == 91 {
                seq![(Token::LBrack, k as usize)] + spec_lex_from(s, k + 1)
            } else if b == 93 {
                seq![(Token::RBrack, k as usize)] + spec_lex_from(s, k + 1)
            } else if b == 44 {
                seq![(Token::Comma, k as usize)] + spec_lex_from(s, k + 1)
            } else if b == 61 {
                seq![(Token::Eq, k as usize)] + spec_lex_from(s, k + 1)
            } else if b == 59 {
                seq![(Token::Semi, k as usize)] + spec_lex_from(s, k + 1)
            } else if b == 34 {
                let e = quote_run_end(s, k + 1);
                seq![(Token::Quoted(sp(k, e)), k as usize)] + spec_lex_from(s, e)
            } else {
                let e = text_run_end(s, k + 1);
                seq![(Token::Text(sp(k, e)), k as usize)] + spec_lex_from(s, e)
            }
        }
    }
}

#[via_fn]
proof fn spec_lex_from_decreases(s: Seq<u8>, i: int) {
    if 0 <= i && i <= s.len() {
        let k = lex_skip_ws(s, i);
        lemma_lex_skip_ws(s, i);
        if k < s.len() {
            if s[k] == 34 {
                lemma_quote_run_end(s, k + 1);
            } else {
                lemma_text_run_end(s, k + 1);
            }
        }
    }
}

/// The token stream of a whole text.
pub open spec fn spec_lex(s: Seq<u8>) -> Seq<(Token, usize)> {
    spec_lex_from(s, 0)
}

/// `lex_skip_ws` stays in range and skips exactly spaces and tabs.
pub proof fn lemma_lex_skip_ws(s: Seq<u8>, i: int)
    requires
        0 <= i <= s.len(),
    ensures
        i <= lex_skip_ws(s, i) <= s.len(),
        forall|j: int| i <= j < lex_skip_ws(s, i) ==> is_lex_ws(#[trigger] s[j]),
        lex_skip_ws(s, i) < s.len() ==> !is_lex_ws(s[lex_skip_ws(s, i)]),
    decreases s.len() - i,
{
    if i < s.len() && is_lex_ws(s[i]) {
        lemma_lex_skip_ws(s, i + 1);
    }
}

/// `text_run_end` stays in range and stops at the first sigil byte.
pub proof fn lemma_text_run_end(s: Seq<u8>, i: int)
    requires
        0 <= i <= s.len(),
    ensures
        i <= text_run_end(s, i) <= s.len(),
        forall|j: int| i <= j < text_run_end(s, i) ==> !is_sigil_byte(#[trigger] s[j]),
        text_run_end(s, i) < s.len() ==> is_sigil_byte(s[text_run_end(s, i)]),
    decreases s.len() - i,
{
    if i < s.len() && !is_sigil_byte(s[i]) {
        lemma_text_run_end(s, i + 1);
    }
}

/// `quote_run_end` stays in range and stops one past the first quote, or
/// at the text length when no quote follows.
pub proof fn lemma_quote_run_end(s: Seq<u8>, i: int)
    requires
        0 <= i <= s.len(),
    ensures
        i <= quote_run_end(s, i) <= s.len(),
        forall|j: int| i <= j < quote_run_end(s, i) - 1 ==> #[trigger] s[j] != 34,
        (quote_run_end(s, i) > i && s[quote_run_end(s, i) - 1] == 34) || (quote_run_end(s, i)
            == s.len() && (forall|j: int| i <= j < s.len() ==> #[trigger] s[j] != 34)),
    decreases s.len() - i,
{
    if i < s.len() && s[i] != 34 {
        lemma_quote_run_end(s, i + 1);
    }
}

// ------------------------------------------------------------------
// The executable lexer
// ------------------------------------------------------------------

/// Finds the first byte at or after `i` that is not a space or tab.
fn scan_lex_ws(b: &[u8], i: usize) -> (r: usize)
    requires
        i <= b@.len(),
    ensures
        r == lex_skip_ws(b@, i as int),
        i <= r <= b@.len(),
{
    let n = b.len();
    let mut k = i;
    while k < n && (b[k] == 32 || b[k] == 9)
        invariant
            i <= k <= n,
            n == b@.len(),
            lex_skip_ws(b@, i as int) == lex_skip_ws(b@, k as int),
        decreases n - k,
    {
        k = k + 1;
    }
    k
}

/// Finds the end of a bareword: the first sigil byte at or after `i`.
fn scan_text_run(b: &[u8], i: usize) -> (r: usize)
    requires
        i <= b@.len(),
    ensures
        r == text_run_end(b@, i as int),
        i <= r <= b@.len(),
{
    let n = b.len();
    let mut k = i;
    while k < n && !(b[k] == 40 || b[k] == 41 || b[k] == 91 || b[k] == 93 || b[k] == 44 || b[k]
        == 61 || b[k] == 34 || b[k] == 59)
        invariant
            i <= k <= n,
            n == b@.len(),
            text_run_end(b@, i as int) == text_run_end(b@, k as int),
        decreases n - k,
    {
        k = k + 1;
    }
    k
}

/// Finds the end of a quoted run: one past the first quote at or after `i`.
fn scan_quote_run(b: &[u8], i: usize) -> (r: usize)
    requires
        i <= b@.len(),
    ensures
        r == quote_run_end(b@, i as int),
        i <= r <= b@.len(),
{
    let n = b.len();
    let mut k = i;
    while k < n && b[k] != 34
        invariant
            i <= k <= n,
            n == b@.len(),
            quote_run_end(b@, i as int) == quote_run_end(b@, k as int),
        decreases n - k,
    {
        k = k + 1;
    }
    if k < n {
        k + 1
    } else {
        k
    }
}

/// Tokenizes the whole text.
fn lex(b: &[u8]) -> (toks: Vec<(Token, usize)>)
    ensures
        toks@ == spec_lex(b@),
{
    let n = b.len();
    let mut toks: Vec<(Token, usize)> = Vec::new();
    let mut i: usize = 0;
    while i < n
        invariant
            i <= n,
            n == b@.len(),
            spec_lex(b@) == toks@ + spec_lex_from(b@, i as int),
        decreases n - i,
    {
        let k = scan_lex_ws(b, i);
        if k >= n {
            i = n;
            assert(spec_lex_from(b@, i as int) =~= Seq::empty());
        } else {
            let c = b[k];
            if c == 40 {
                toks.push((Token::LParen, k));
                i = k + 1;
            } else if c == 41 {
                toks.push((Token::RParen, k));
                i = k + 1;
            } else if c == 91 {
                toks.push((Token::LBrack, k));
                i = k + 1;
            } else if c == 93 {
                toks.push((Token::RBrack, k));
                i = k + 1;
            } else if c == 44 {
                toks.push((Token::Comma, k));
                i = k + 1;
            } else if c == 61 {
                toks.push((Token::Eq, k));
                i = k + 1;
            } else if c == 59 {
                toks.push((Token::Semi, k));
                i = k + 1;
            } else if c == 34 {
                let e = scan_quote_run(b, k + 1);
                toks.push((Token::Quoted(Span(k, e)), k));
                i = e;
            } else {
                let e = scan_text_run(b, k + 1);
                toks.push((Token::Text(Span(k, e)), k));
                i = e;
            }
        }
    }
    assert(spec_lex_from(b@, i as int) =~= Seq::empty());
    assert(toks@ =~= toks@ + spec_lex_from(b@, i as int));
    toks
}

// ------------------------------------------------------------------
// Facts about the token stream
// ------------------------------------------------------------------

/// Well-formedness of one token at its position: the position is in range
/// and a `Text` or `Quoted` token's span starts at its position, is
/// non-empty, in bounds, and shaped as the lexer produces it. Opaque: use
/// the extraction lemma below.
#[verifier::opaque]
pub open spec fn token_wf(s: Seq<u8>, tok: Token, at: usize) -> bool {
    at <= s.len() && match tok {
        Token::Text(spn) => {
            &&& spn.0 == at
            &&& spn.0 < spn.1 <= s.len()
            &&& !is_lex_ws(s[spn.0 as int])
            &&& !is_sigil_byte(s[spn.0 as int])
            &&& (forall|j: int| spn.0 < j < spn.1 ==> !is_sigil_byte(#[trigger] s[j]))
            &&& (spn.1 < s.len() ==> is_sigil_byte(s[spn.1 as int]))
        },
        Token::Quoted(spn) => {
            &&& spn.0 == at
            &&& spn.0 < spn.1 <= s.len()
            &&& s[spn.0 as int] == 34
            &&& (forall|j: int| spn.0 < j < spn.1 - 1 ==> #[trigger] s[j] != 34)
            &&& (spn.1 == s.len() || (spn.1 - spn.0 >= 2 && s[spn.1 - 1] == 34))
        },
        _ => true,
    }
}

/// Every token of the stream is well formed at its position.
pub proof fn lemma_lex_wf(s: Seq<u8>, i: int)
    requires
        0 <= i <= s.len() <= usize::MAX,
    ensures
        forall|k: int|
            0 <= k < spec_lex_from(s, i).len() ==> token_wf(
                s,
                (#[trigger] spec_lex_from(s, i)[k]).0,
                spec_lex_from(s, i)[k].1,
            ),
    decreases s.len() - i,
{
    reveal(token_wf);
    let toks = spec_lex_from(s, i);
    let k = lex_skip_ws(s, i);
    lemma_lex_skip_ws(s, i);
    if k < s.len() {
        let b = s[k];
        if b == 34 {
            lemma_quote_run_end(s, k + 1);
            let e = quote_run_end(s, k + 1);
            lemma_lex_wf(s, e);
            let rest = spec_lex_from(s, e);
            assert(toks[0] == (Token::Quoted(sp(k, e)), k as usize));
            assert(forall|x: int| 0 <= x < rest.len() ==> toks[x + 1] == #[trigger] rest[x]);
            assert(token_wf(s, toks[0].0, toks[0].1)) by {
                if e < s.len() {
                    assert(s[e - 1] == 34);
                }
            }
        } else if !(b == 40 || b == 41 || b == 91 || b == 93 || b == 44 || b == 61 || b == 59) {
            lemma_text_run_end(s, k + 1);
            let e = text_run_end(s, k + 1);
            lemma_lex_wf(s, e);
            let rest = spec_lex_from(s, e);
            assert(toks[0] == (Token::Text(sp(k, e)), k as usize));
            assert(forall|x: int| 0 <= x < rest.len() ==> toks[x + 1] == #[trigger] rest[x]);
        } else {
            lemma_lex_wf(s, k + 1);
            let rest = spec_lex_from(s, k + 1);
            assert(forall|x: int| 0 <= x < rest.len() ==> toks[x + 1] == #[trigger] rest[x]);
        }
    }
}

// ------------------------------------------------------------------
// The value tree
// ------------------------------------------------------------------

/// A property name with an optional array index, as in `Abc[0]`.
#[derive(Clone, Copy, Debug, PartialEq, Eq)]
pub struct PropName {
    pub name: Span,
    pub idx: Option<u32>,
}

/// One parsed property value: a terminal (bareword or quoted literal), a
/// struct of named children, an array of elements, or the empty `()`.
#[derive(Debug, PartialEq, Eq)]
pub enum PropValue {
    Terminal(Span),
    Struct(Struct),
    Array(Array),
    Empty,
}

/// A parenthesized list of `name = value` children, as in `(A="1", B=2)`.
#[derive(Debug, PartialEq, Eq)]
pub struct Struct {
    pub children: Vec<(PropName, PropValue)>,
}

/// A parenthesized list of elements, as in `(1, 2, 3)`.
#[derive(Debug, PartialEq, Eq)]
pub struct Array {
    pub elems: Vec<PropValue>,
}

/// A parse failure: the byte offset of the token at which it was observed,
/// and a short message.
#[derive(Clone, Debug, PartialEq, Eq)]
pub struct ParseError {
    pub pos: usize,
    pub msg: String,
}

impl ParseError {
    /// Packs an offset and a message into a parse error.
    fn new(pos: usize, msg: String) -> (r: Self)
        ensures
            r.pos == pos,
            r.msg == msg,
    {
        Self { pos, msg }
    }
}

/// The mathematical mirror of a parsed value, with sequences for the
/// children of structs and arrays.
pub enum ValueModel {
    Terminal(Span),
    Struct(Seq<(PropName, ValueModel)>),
    Array(Seq<ValueModel>),
    Empty,
}

/// The executable value is the given model.
pub open spec fn value_models(v: PropValue, m: ValueModel) -> bool
    decreases m,
{
    match m {
        ValueModel::Terminal(spn) => v matches PropValue::Terminal(s2) && s2 == spn,
        ValueModel::Struct(cs) => v matches PropValue::Struct(st) && children_model(
            st.children@,
            cs,
        ),
        ValueModel::Array(es) => v matches PropValue::Array(ar) && elems_model(ar.elems@, es),
        ValueModel::Empty => v is Empty,
    }
}

/// The executable children list is the given model list, pairwise.
pub open spec fn children_model(ch: Seq<(PropName, PropValue)>, cs: Seq<(PropName, ValueModel)>) -> bool
    decreases cs,
{
    ch.len() == cs.len() && (forall|i: int|
        0 <= i < cs.len() ==> ch[i].0 == (#[trigger] cs[i]).0 && value_models(ch[i].1, cs[i].1))
}

/// The executable element list is the given model list, pairwise.
pub open spec fn elems_model(el: Seq<PropValue>, es: Seq<ValueModel>) -> bool
    decreases es,
{
    el.len() == es.len() && (forall|i: int|
        0 <= i < es.len() ==> value_models(el[i], #[trigger] es[i]))
}

// ------------------------------------------------------------------
// Array indices
// ------------------------------------------------------------------

/// The value of a digit string, most significant digit first.
pub open spec fn digits_val(d: Seq<u8>) -> nat
    decreases d.len(),
{
    if d.len() == 0 {
        0
    } else {
        (digits_val(d.drop_last()) * 10 + (d.last() - 48)) as nat
    }
}

/// The digit part of an unsigned decimal string: everything after one
/// optional leading `+`.
pub open spec fn u32_digits(s: Seq<u8>) -> Seq<u8> {
    if s.len() >= 1 && s[0] == 43 {
        s.subrange(1, s.len() as int)
    } else {
        s
    }
}

/// The string parses as an unsigned 32-bit integer: an optional `+`, then
/// at least one digit, with a value that fits.
pub open spec fn u32_str_ok(s: Seq<u8>) -> bool {
    let d = u32_digits(s);
    d.len() >= 1 && all_digits(d) && digits_val(d) <= u32::MAX
}

/// The parsed value of such a string.
pub open spec fn u32_str_val(s: Seq<u8>) -> nat {
    digits_val(u32_digits(s))
}

/// A digit string's value only grows as digits are appended.
proof fn lemma_digits_prefix_le(d: Seq<u8>, k: int)
    requires
        all_digits(d),
        0 <= k <= d.len(),
    ensures
        digits_val(d.subrange(0, k)) <= digits_val(d),
    decreases d.len() - k,
{
    if k < d.len() {
        assert(d.subrange(0, k + 1).drop_last() =~= d.subrange(0, k));
        assert(d.subrange(0, k + 1).last() == d[k]);
        assert(digits_val(d.subrange(0, k + 1)) == (digits_val(d.subrange(0, k)) * 10 + (d[k]
            - 48)) as nat);
        lemma_digits_prefix_le(d, k + 1);
    } else {
        assert(d.subrange(0, k) =~= d);
    }
}

/// Parses `[a, e)` as an unsigned 32-bit integer.
fn parse_u32_range(b: &[u8], a: usize, e: usize) -> (r: Option<u32>)
    requires
        a <= e <= b@.len(),
    ensures
        r is Some <==> u32_str_ok(b@.subrange(a as int, e as int)),
        r matches Some(v) ==> v as nat == u32_str_val(b@.subrange(a as int, e as int)),
{
    let ghost s = b@.subrange(a as int, e as int);
    proof {
        assert(forall|j: int| 0 <= j < s.len() ==> s[j] == b@[a + j]);
    }
    let mut k = a;
    if k < e && b[k] == 43 {
        k = k + 1;
    }
    let start = k;
    let ghost d = u32_digits(s);
    proof {
        assert(d =~= b@.subrange(start as int, e as int));
        assert(forall|j: int| 0 <= j < d.len() ==> d[j] == b@[start + j]);
    }
    if k == e {
        return None;
    }
    let mut val: u32 = 0;
    while k < e
        invariant
            start <= k <= e <= b@.len(),
            s == b@.subrange(a as int, e as int),
            a <= start <= e,
            d == u32_digits(s),
            d == b@.subrange(start as int, e as int),
            forall|j: int| start <= j < k ==> is_digit(#[trigger] b@[j]),
            val as nat == digits_val(b@.subrange(start as int, k as int)),
        decreases e - k,
    {
        let c = b[k];
        if !(48 <= c && c <= 57) {
            assert(d[k - start] == b@[k as int]);
            assert(!all_digits(d));
            assert(!u32_str_ok(s));
            return None;
        }
        let dg = (c - 48) as u32;
        let ghost pre = b@.subrange(start as int, k as int);
        let ghost pre1 = b@.subrange(start as int, k + 1 as int);
        proof {
            assert(pre1.drop_last() =~= pre);
            assert(pre1.last() == b@[k as int]);
            assert(digits_val(pre1) == (digits_val(pre) * 10 + (b@[k as int] - 48)) as nat);
        }
        if val > (u32::MAX - dg) / 10 {
            proof {
                assert(digits_val(pre1) > u32::MAX) by (nonlinear_arith)
                    requires
                        digits_val(pre1) == (digits_val(pre) * 10 + (b@[k as int] - 48)) as nat,
                        val as nat == digits_val(pre),
                        dg == b@[k as int] - 48,
                        0 <= dg <= 9,
                        val > (u32::MAX - dg) / 10,
                {}
                if all_digits(d) {
                    assert(pre1 =~= d.subrange(0, k + 1 - start));
                    lemma_digits_prefix_le(d, k + 1 - start);
                }
                assert(!u32_str_ok(s));
            }
            return None;
        }
        proof {
            assert((val * 10 + dg) as nat == digits_val(pre1)) by (nonlinear_arith)
                requires
                    digits_val(pre1) == (digits_val(pre) * 10 + (b@[k as int] - 48)) as nat,
                    val as nat == digits_val(pre),
                    dg == b@[k as int] - 48,
                    0 <= dg <= 9,
                {}
            assert(val * 10 + dg <= u32::MAX) by (nonlinear_arith)
                requires
                    0 <= dg <= 9,
                    0 <= val,
                    val <= (u32::MAX - dg) / 10,
                {}
        }
        val = val * 10 + dg;
        k = k + 1;
    }
    proof {
        assert(b@.subrange(start as int, k as int) == d);
        assert(all_digits(d));
    }
    Some(val)
}

/// A terminal's source re-lexes to itself: the slice under a `Text` or
/// `Quoted` token is tokenized as exactly one token of the same kind
/// spanning the whole slice. Feeding a terminal's source back through the
/// value lexer therefore reproduces its shape.
pub proof fn lemma_terminal_relex(s: Seq<u8>, k: int)
    requires
        s.len() <= usize::MAX,
        0 <= k < spec_lex(s).len(),
        spec_lex(s)[k].0 is Text || spec_lex(s)[k].0 is Quoted,
    ensures
        ({
            let tok = spec_lex(s)[k].0;
            let spn = if tok is Text {
                tok->Text_0
            } else {
                tok->Quoted_0
            };
            let u = s.subrange(spn.0 as int, spn.1 as int);
            spec_lex(u) == seq![
                (
                    if tok is Text {
                        Token::Text(sp(0, u.len() as int))
                    } else {
                        Token::Quoted(sp(0, u.len() as int))
                    },
                    0usize,
                ),
            ]
        }),
{
    lemma_lex_wf(s, 0);
    let tok = spec_lex(s)[k].0;
    let at = spec_lex(s)[k].1;
    assert(token_wf(s, tok, at));
    lemma_token_relex(s, tok, at);
}

/// The re-lex fact for one well-formed terminal token.
proof fn lemma_token_relex(s: Seq<u8>, tok: Token, at: usize)
    requires
        s.len() <= usize::MAX,
        token_wf(s, tok, at),
        tok is Text || tok is Quoted,
    ensures
        ({
            let spn = if tok is Text {
                tok->Text_0
            } else {
                tok->Quoted_0
            };
            let u = s.subrange(spn.0 as int, spn.1 as int);
            spec_lex(u) == seq![
                (
                    if tok is Text {
                        Token::Text(sp(0, u.len() as int))
                    } else {
                        Token::Quoted(sp(0, u.len() as int))
                    },
                    0usize,
                ),
            ]
        }),
{
    reveal(token_wf);
    let spn = if tok is Text {
        tok->Text_0
    } else {
        tok->Quoted_0
    };
    let u = s.subrange(spn.0 as int, spn.1 as int);
    let n = u.len() as int;
    assert(forall|j: int| 0 <= j < n ==> u[j] == s[spn.0 + j]);
    assert(n >= 1);
    if tok is Text {
        assert(!is_lex_ws(u[0]) && !is_sigil_byte(u[0]));
        assert(lex_skip_ws(u, 0) == 0);
        let e = text_run_end(u, 1);
        lemma_text_run_end(u, 1);
        assert(e == n) by {
            if e < n {
                assert(is_sigil_byte(u[e]));
                assert(u[e] == s[spn.0 + e]);
            }
        }
        assert(spec_lex_from(u, n) =~= Seq::empty());
        assert(spec_lex(u) =~= seq![(Token::Text(sp(0, n)), 0usize)]);
    } else {
        assert(u[0] == 34);
        assert(lex_skip_ws(u, 0) == 0);
        let e = quote_run_end(u, 1);
        lemma_quote_run_end(u, 1);
        assert(e == n) by {
            if e < n {
                assert(e >= 1 && u[e - 1] == 34);
                if e - 1 >= 1 {
                    assert(u[e - 1] == s[spn.0 + e - 1]);
                }
            }
        }
        assert(spec_lex_from(u, n) =~= Seq::empty());
        assert(spec_lex(u) =~= seq![(Token::Quoted(sp(0, n)), 0usize)]);
    }
}

/// Extracts the span bounds of a `Text` or `Quoted` token.
pub proof fn lemma_token_span(s: Seq<u8>, tok: Token, at: usize)
    requires
        token_wf(s, tok, at),
    ensures
        tok matches Token::Text(spn) ==> spn.0 < spn.1 <= s.len(),
        tok matches Token::Quoted(spn) ==> spn.0 < spn.1 <= s.len(),
{
    reveal(token_wf);
}

// ------------------------------------------------------------------
// The parser, as a specification
// ------------------------------------------------------------------

/// The token at stream position `i`, if any.
pub open spec fn tok_of(toks: Seq<(Token, usize)>, i: int) -> Option<Token> {
    if 0 <= i < toks.len() {
        Some(toks[i].0)
    } else {
        None
    }
}

/// The byte position reported for a fetch at stream position `i`: the
/// token's first byte, or the text length once the stream is exhausted.
pub open spec fn tok_pos(toks: Seq<(Token, usize)>, end: int, i: int) -> int {
    if 0 <= i < toks.len() {
        toks[i].1 as int
    } else {
        end
    }
}

/// Clamps a stream position into `[lo, n]`; the parser's positions always
/// lie there already, so this only serves the termination argument.
pub open spec fn clamp_idx(lo: int, x: int, n: int) -> int {
    if x < lo {
        lo
    } else if x > n {
        n
    } else {
        x
    }
}

/// Parses a struct whose first property name is the `Text` token at stream
/// position `vis`. Returns the children and the stream position after the
/// closing parenthesis.
pub open spec fn sp_struct(s: Seq<u8>, toks: Seq<(Token, usize)>, end: int, vis: int) -> Result<
    (Seq<(PropName, ValueModel)>, int),
    (int, Seq<char>),
>
    decreases toks.len() - vis, 1int,
{
    if !(0 <= vis && vis < toks.len() && tok_of(toks, vis) matches Some(Token::Text(_))) {
        Err((tok_pos(toks, end, vis), "Expected `)` or name"@))
    } else {
        let nsp = toks[vis].0->Text_0;
        let p1 = vis + 1;
        if tok_of(toks, p1) matches Some(Token::LBrack) {
            if tok_of(toks, p1 + 1) matches Some(Token::Text(_)) {
                let tsp = toks[p1 + 1].0->Text_0;
                if u32_str_ok(s.subrange(tsp.0 as int, tsp.1 as int)) {
                    if tok_of(toks, p1 + 2) matches Some(Token::RBrack) {
                        sp_struct_body(
                            s,
                            toks,
                            end,
                            nsp,
                            Some(u32_str_val(s.subrange(tsp.0 as int, tsp.1 as int)) as u32),
                            p1 + 3,
                        )
                    } else {
                        Err((tok_pos(toks, end, p1 + 2), "Expected `]`"@))
                    }
                } else {
                    Err((tok_pos(toks, end, p1 + 1), "Expected array index"@))
                }
            } else {
                Err((tok_pos(toks, end, p1 + 1), "Expected array index"@))
            }
        } else {
            sp_struct_body(s, toks, end, nsp, None::<u32>, p1)
        }
    }
}

/// Parses the rest of one struct child after its name and optional index:
/// the `=`, the value, and the separator; then either closes the struct or
/// continues with the next child.
pub open spec fn sp_struct_body(
    s: Seq<u8>,
    toks: Seq<(Token, usize)>,
    end: int,
    name: Span,
    idx: Option<u32>,
    i: int,
) -> Result<(Seq<(PropName, ValueModel)>, int), (int, Seq<char>)>
    decreases toks.len() - i, 0int,
{
    if !(tok_of(toks, i) matches Some(Token::Eq)) {
        Err((tok_pos(toks, end, i), "Expected `=`"@))
    } else {
        let vres = sp_value(s, toks, end, i + 1);
        match vres {
            Err(e) => Err(e),
            Ok((vm, nxt0)) => {
                let child = (PropName { name, idx }, vm);
                let nv = clamp_idx(i + 2, nxt0, toks.len() as int);
                if tok_of(toks, nv) matches Some(Token::Comma) {
                    if tok_of(toks, nv + 1) matches Some(Token::RParen) {
                        Ok((seq![child], nv + 2))
                    } else if tok_of(toks, nv + 1) matches Some(Token::Text(_)) {
                        match sp_struct(s, toks, end, nv + 1) {
                            Ok((cs, nxt2)) => Ok((seq![child] + cs, nxt2)),
                            Err(e) => Err(e),
                        }
                    } else {
                        Err((tok_pos(toks, end, nv + 1), "Expected `)` or name"@))
                    }
                } else if tok_of(toks, nv) matches Some(Token::RParen) {
                    Ok((seq![child], nv + 1))
                } else {
                    Err((tok_pos(toks, end, nv), "Expected `,` or `)`"@))
                }
            },
        }
    }
}

/// Parses one value at stream position `i`: a terminal, or a parenthesized
/// struct, array or empty value.
pub open spec fn sp_value(s: Seq<u8>, toks: Seq<(Token, usize)>, end: int, i: int) -> Result<
    (ValueModel, int),
    (int, Seq<char>),
>
    decreases toks.len() - i, 3int,
{
    if tok_of(toks, i) matches Some(Token::Text(_)) {
        Ok((ValueModel::Terminal(toks[i].0->Text_0), i + 1))
    } else if tok_of(toks, i) matches Some(Token::Quoted(_)) {
        Ok((ValueModel::Terminal(toks[i].0->Quoted_0), i + 1))
    } else if tok_of(toks, i) matches Some(Token::LParen) {
        sp_struct_or_array(s, toks, end, i + 1)
    } else {
        Err((tok_pos(toks, end, i), "Expected `(` or value"@))
    }
}

/// Parses what follows an inner `(`: the empty value, a struct, or an
/// array, disambiguated by the first one or two tokens.
pub open spec fn sp_struct_or_array(s: Seq<u8>, toks: Seq<(Token, usize)>, end: int, i: int) -> Result<
    (ValueModel, int),
    (int, Seq<char>),
>
    decreases toks.len() - i, 2int,
{
    if !(0 <= i && i < toks.len()) {
        Err((tok_pos(toks, end, i), "Expected name, value, or `)`"@))
    } else if tok_of(toks, i) matches Some(Token::RParen) {
        Ok((ValueModel::Empty, i + 1))
    } else if (tok_of(toks, i) matches Some(Token::Text(_))) && (tok_of(toks, i + 1) matches Some(
        Token::Eq,
    ) || tok_of(toks, i + 1) matches Some(Token::LBrack)) {
        match sp_struct(s, toks, end, i) {
            Ok((cs, nxt)) => Ok((ValueModel::Struct(cs), nxt)),
            Err(e) => Err(e),
        }
    } else if (tok_of(toks, i) matches Some(Token::Text(_)) || tok_of(toks, i) matches Some(
        Token::Quoted(_),
    )) && (tok_of(toks, i + 1) matches Some(Token::Comma) || tok_of(toks, i + 1) matches Some(
        Token::RParen,
    )) {
        match sp_array(s, toks, end, i, i + 1) {
            Ok((es, nxt)) => Ok((ValueModel::Array(es), nxt)),
            Err(e) => Err(e),
        }
    } else if (tok_of(toks, i) matches Some(Token::LParen)) && (tok_of(toks, i + 1) matches Some(
        Token::Text(_),
    ) || tok_of(toks, i + 1) matches Some(Token::RParen)) {
        match sp_array(s, toks, end, i, i + 1) {
            Ok((es, nxt)) => Ok((ValueModel::Array(es), nxt)),
            Err(e) => Err(e),
        }
    } else {
        // The failure is observed at the peeked token, one past the
        // consumed one.
        Err((tok_pos(toks, end, i + 1), "Expected key-value pair or array value"@))
    }
}

/// Parses an array whose first element token sits at stream position `vis`
/// (already consumed); `i` is the current stream position.
pub open spec fn sp_array(s: Seq<u8>, toks: Seq<(Token, usize)>, end: int, vis: int, i: int) -> Result<
    (Seq<ValueModel>, int),
    (int, Seq<char>),
>
    decreases toks.len() - vis, 1int,
{
    if !(0 <= vis && vis < toks.len()) {
        Err((tok_pos(toks, end, vis), "expected value"@))
    } else {
        let i2 = clamp_idx(vis + 1, i, toks.len() as int);
        if tok_of(toks, vis) matches Some(Token::Text(_)) {
            match sp_array_rest(s, toks, end, i2) {
                Ok((es, nxt)) => Ok((seq![ValueModel::Terminal(toks[vis].0->Text_0)] + es, nxt)),
                Err(e) => Err(e),
            }
        } else if tok_of(toks, vis) matches Some(Token::Quoted(_)) {
            match sp_array_rest(s, toks, end, i2) {
                Ok((es, nxt)) => Ok((seq![ValueModel::Terminal(toks[vis].0->Quoted_0)] + es, nxt)),
                Err(e) => Err(e),
            }
        } else if tok_of(toks, vis) matches Some(Token::LParen) {
            // The first element is itself parenthesized: a struct.
            if tok_of(toks, i2) matches Some(Token::Text(_)) {
                match sp_struct(s, toks, end, i2) {
                    Ok((cs, nxt)) => {
                        match sp_array_rest(s, toks, end, clamp_idx(i2 + 1, nxt, toks.len() as int)) {
                            Ok((es, nxt2)) => Ok((seq![ValueModel::Struct(cs)] + es, nxt2)),
                            Err(e) => Err(e),
                        }
                    },
                    Err(e) => Err(e),
                }
            } else {
                Err((tok_pos(toks, end, i2), "Expected property name"@))
            }
        } else {
            Err((tok_pos(toks, end, vis), "expected value"@))
        }
    }
}

/// Parses the separators and elements after an array's first element:
/// comma-separated elements with an optional trailing comma, closed by `)`.
pub open spec fn sp_array_rest(s: Seq<u8>, toks: Seq<(Token, usize)>, end: int, j: int) -> Result<
    (Seq<ValueModel>, int),
    (int, Seq<char>),
>
    decreases toks.len() - j, 0int,
{
    if tok_of(toks, j) matches Some(Token::RParen) {
        Ok((Seq::empty(), j + 1))
    } else if tok_of(toks, j) matches Some(Token::Comma) {
        if tok_of(toks, j + 1) matches Some(Token::RParen) {
            Ok((Seq::empty(), j + 2))
        } else if tok_of(toks, j + 1) matches Some(Token::Text(_)) {
            match sp_array_rest(s, toks, end, j + 2) {
                Ok((es, nxt)) => Ok((seq![ValueModel::Terminal(toks[j + 1].0->Text_0)] + es, nxt)),
                Err(e) => Err(e),
            }
        } else if tok_of(toks, j + 1) matches Some(Token::Quoted(_)) {
            match sp_array_rest(s, toks, end, j + 2) {
                Ok((es, nxt)) => Ok((seq![ValueModel::Terminal(toks[j + 1].0->Quoted_0)] + es, nxt)),
                Err(e) => Err(e),
            }
        } else if tok_of(toks, j + 1) matches Some(Token::LParen) {
            if tok_of(toks, j + 2) matches Some(Token::Text(_)) {
                match sp_struct(s, toks, end, j + 2) {
                    Ok((cs, nxt)) => {
                        match sp_array_rest(s, toks, end, clamp_idx(j + 3, nxt, toks.len() as int)) {
                            Ok((es, nxt2)) => Ok((seq![ValueModel::Struct(cs)] + es, nxt2)),
                            Err(e) => Err(e),
                        }
                    },
                    Err(e) => Err(e),
                }
            } else {
                Err((tok_pos(toks, end, j + 2), "Expected property name"@))
            }
        } else {
            Err((tok_pos(toks, end, j + 1), "expected value"@))
        }
    } else {
        Err((tok_pos(toks, end, j), "expected `,` or `(`"@))
    }
}

/// Parses a whole value text: the only legal top-level shape is a
/// parenthesized struct.
pub open spec fn spec_parse(s: Seq<u8>) -> Result<Seq<(PropName, ValueModel)>, (int, Seq<char>)> {
    let toks = spec_lex(s);
    let end = s.len() as int;
    if tok_of(toks, 0) matches Some(Token::LParen) {
        if tok_of(toks, 1) matches Some(Token::Text(_)) {
            match sp_struct(s, toks, end, 1) {
                Ok((cs, nxt)) => Ok(cs),
                Err(e) => Err(e),
            }
        } else {
            Err((tok_pos(toks, end, 1), "Expected property name"@))
        }
    } else {
        Err((tok_pos(toks, end, 0), "Expected `(`"@))
    }
}

// ------------------------------------------------------------------
// The executable parser
// ------------------------------------------------------------------

/// Parser state: the text, its token stream, the position of the next
/// token, and the byte position of the last token handed out.
pub struct Parser<'a> {
    text: &'a [u8],
    toks: Vec<(Token, usize)>,
    i: usize,
    last_pos: usize,
}

impl<'a> Parser<'a> {
    /// The next-token position never runs past the stream, and every token
    /// is well formed over the text.
    pub closed spec fn wf(self) -> bool {
        &&& self.i <= self.toks@.len()
        &&& forall|k: int|
            0 <= k < self.toks@.len() ==> token_wf(
                self.text@,
                (#[trigger] self.toks@[k]).0,
                self.toks@[k].1,
            )
    }

    /// The text being parsed.
    pub closed spec fn src(self) -> Seq<u8> {
        self.text@
    }

    /// The token stream.
    pub closed spec fn stream(self) -> Seq<(Token, usize)> {
        self.toks@
    }

    /// The position of the next token to be consumed.
    pub closed spec fn at(self) -> int {
        self.i as int
    }

    /// The reported byte position once the stream is exhausted.
    pub closed spec fn endp(self) -> int {
        self.text@.len() as int
    }

    /// Looks at the next token without consuming it.
    fn peek(&mut self) -> (t: Option<Token>)
        requires
            old(self).wf(),
        ensures
            final(self).wf(),
            final(self).text == old(self).text,
            final(self).toks == old(self).toks,
            final(self).i == old(self).i,
            t == tok_of(old(self).toks@, old(self).i as int),
            final(self).last_pos as int == tok_pos(
                old(self).toks@,
                old(self).text@.len() as int,
                old(self).i as int,
            ),
            final(self).last_pos <= final(self).text@.len(),
    {
        if self.i < self.toks.len() {
            let (tok, at) = self.toks[self.i];
            proof {
                reveal(token_wf);
                assert(token_wf(self.text@, self.toks@[self.i as int].0, self.toks@[self.i as int].1));
            }
            self.last_pos = at;
            Some(tok)
        } else {
            self.last_pos = self.text.len();
            None
        }
    }

    /// Consumes and returns the next token.
    fn next(&mut self) -> (t: Option<Token>)
        requires
            old(self).wf(),
        ensures
            final(self).wf(),
            final(self).text == old(self).text,
            final(self).toks == old(self).toks,
            t == tok_of(old(self).toks@, old(self).i as int),
            final(self).i as int == if old(self).i < old(self).toks@.len() {
                old(self).i + 1
            } else {
                old(self).i as int
            },
            final(self).last_pos as int == tok_pos(
                old(self).toks@,
                old(self).text@.len() as int,
                old(self).i as int,
            ),
            final(self).last_pos <= final(self).text@.len(),
    {
        if self.i < self.toks.len() {
            let (tok, at) = self.toks[self.i];
            proof {
                reveal(token_wf);
                assert(token_wf(self.text@, self.toks@[self.i as int].0, self.toks@[self.i as int].1));
            }
            self.last_pos = at;
            self.i = self.i + 1;
            Some(tok)
        } else {
            self.last_pos = self.text.len();
            None
        }
    }

    /// The byte position of the last token handed out.
    fn pos(&self) -> (r: usize)
        ensures
            r == self.last_pos,
    {
        self.last_pos
    }
}

/// Prepending matching items preserves the children relation.
proof fn lemma_children_prepend(
    c: (PropName, PropValue),
    cm: (PropName, ValueModel),
    ch: Seq<(PropName, PropValue)>,
    cs: Seq<(PropName, ValueModel)>,
)
    requires
        children_model(ch, cs),
        c.0 == cm.0,
        value_models(c.1, cm.1),
    ensures
        children_model(ch.insert(0, c), seq![cm] + cs),
{
    let ch2 = ch.insert(0, c);
    let cs2 = seq![cm] + cs;
    assert(ch2.len() == cs2.len());
    assert forall|i: int| 0 <= i < cs2.len() implies ch2[i].0 == (#[trigger] cs2[i]).0
        && value_models(ch2[i].1, cs2[i].1) by {
        if i == 0 {
            assert(ch2[0] == c && cs2[0] == cm);
        } else {
            assert(ch2[i] == ch[i - 1] && cs2[i] == cs[i - 1]);
        }
    }
}

/// Prepending matching items preserves the elements relation.
proof fn lemma_elems_prepend(
    v: PropValue,
    vm: ValueModel,
    el: Seq<PropValue>,
    es: Seq<ValueModel>,
)
    requires
        elems_model(el, es),
        value_models(v, vm),
    ensures
        elems_model(el.insert(0, v), seq![vm] + es),
{
    let el2 = el.insert(0, v);
    let es2 = seq![vm] + es;
    assert(el2.len() == es2.len());
    assert forall|i: int| 0 <= i < es2.len() implies value_models(el2[i], #[trigger] es2[i]) by {
        if i == 0 {
            assert(el2[0] == v && es2[0] == vm);
        } else {
            assert(el2[i] == el[i - 1] && es2[i] == es[i - 1]);
        }
    }
}

/// Parses a struct whose first property name is the already-consumed
/// `Text` token `ex_token`.
fn parse_struct(p: &mut Parser, ex_token: Token) -> (r: Result<Struct, ParseError>)
    requires
        old(p).wf(),
        1 <= old(p).at() <= old(p).stream().len(),
        tok_of(old(p).stream(), old(p).at() - 1) == Some(ex_token),
        ex_token is Text,
    ensures
        final(p).wf(),
        final(p).src() == old(p).src(),
        final(p).stream() == old(p).stream(),
        final(p).at() >= old(p).at(),
        ({
            let res = sp_struct(old(p).src(), old(p).stream(), old(p).endp(), old(p).at() - 1);
            match r {
                Ok(st) => res matches Ok(o) && children_model(st.children@, o.0) && final(p).at()
                    == o.1,
                Err(e) => res matches Err(em) && e.pos as int == em.0 && e.msg@ == em.1 && e.pos
                    <= old(p).src().len(),
            }
        }),
    decreases old(p).stream().len() - old(p).at(), 2int,
{
    let ghost vis = old(p).at() - 1;
    let name: Span = match ex_token {
        Token::Text(spn) => spn,
        _ => Span(0, 0),
    };
    let pk = p.peek();
    if matches!(pk, Some(Token::LBrack)) {
        let _ = p.next();
        let t2 = p.next();
        if let Some(Token::Text(tsp)) = t2 {
            proof {
                lemma_token_span(p.src(), Token::Text(tsp), old(p).stream()[vis + 2].1);
            }
            let txt = p.text;
            match parse_u32_range(txt, tsp.0, tsp.1) {
                Some(v) => {
                    match p.next() {
                        Some(Token::RBrack) => parse_struct_body(p, name, Some(v)),
                        _ => Err(ParseError::new(p.pos(), "Expected `]`".to_owned())),
                    }
                },
                None => Err(ParseError::new(p.pos(), "Expected array index".to_owned())),
            }
        } else {
            Err(ParseError::new(p.pos(), "Expected array index".to_owned()))
        }
    } else {
        parse_struct_body(p, name, None)
    }
}

/// Parses the rest of one struct child after its name and optional index,
/// and then the remaining children.
fn parse_struct_body(p: &mut Parser, name: Span, idx: Option<u32>) -> (r: Result<
    Struct,
    ParseError,
>)
    requires
        old(p).wf(),
    ensures
        final(p).wf(),
        final(p).src() == old(p).src(),
        final(p).stream() == old(p).stream(),
        final(p).at() >= old(p).at(),
        ({
            let res = sp_struct_body(
                old(p).src(),
                old(p).stream(),
                old(p).endp(),
                name,
                idx,
                old(p).at(),
            );
            match r {
                Ok(st) => res matches Ok(o) && children_model(st.children@, o.0) && final(p).at()
                    == o.1,
                Err(e) => res matches Err(em) && e.pos as int == em.0 && e.msg@ == em.1 && e.pos
                    <= old(p).src().len(),
            }
        }),
    decreases old(p).stream().len() - old(p).at(), 0int,
{
    let ghost i0 = old(p).at();
    match p.next() {
        Some(Token::Eq) => {},
        _ => {
            return Err(ParseError::new(p.pos(), "Expected `=`".to_owned()));
        },
    }
    let v = match parse_value(p) {
        Ok(v) => v,
        Err(e) => {
            return Err(e);
        },
    };
    let ghost vm = sp_value(old(p).src(), old(p).stream(), old(p).endp(), i0 + 1)->Ok_0.0;
    assert(p.at() == clamp_idx(
        i0 + 2,
        sp_value(old(p).src(), old(p).stream(), old(p).endp(), i0 + 1)->Ok_0.1,
        old(p).stream().len() as int,
    ));
    let child = (PropName { name, idx }, v);
    match p.next() {
        Some(Token::Comma) => {
            match p.next() {
                Some(Token::RParen) => {
                    let mut children: Vec<(PropName, PropValue)> = Vec::new();
                    children.push(child);
                    proof {
                        lemma_children_prepend(
                            child,
                            (PropName { name, idx }, vm),
                            Seq::empty(),
                            Seq::empty(),
                        );
                        assert(children@ =~= Seq::<(PropName, PropValue)>::empty().insert(
                            0,
                            child,
                        ));
                    }
                    Ok(Struct { children })
                },
                Some(t2 @ Token::Text(_)) => {
                    let ghost vis2 = p.at() - 1;
                    match parse_struct(p, t2) {
                        Ok(mut st) => {
                            let ghost cs = sp_struct(
                                old(p).src(),
                                old(p).stream(),
                                old(p).endp(),
                                vis2,
                            )->Ok_0.0;
                            st.children.insert(0, child);
                            proof {
                                lemma_children_prepend(
                                    child,
                                    (PropName { name, idx }, vm),
                                    st.children@.remove(0),
                                    cs,
                                );
                                assert(st.children@.remove(0).insert(0, child) =~= st.children@);
                            }
                            Ok(st)
                        },
                        Err(e) => Err(e),
                    }
                },
                _ => Err(ParseError::new(p.pos(), "Expected `)` or name".to_owned())),
            }
        },
        Some(Token::RParen) => {
            let mut children: Vec<(PropName, PropValue)> = Vec::new();
            children.push(child);
            proof {
                lemma_children_prepend(
                    child,
                    (PropName { name, idx }, vm),
                    Seq::empty(),
                    Seq::empty(),
                );
                assert(children@ =~= Seq::<(PropName, PropValue)>::empty().insert(0, child));
            }
            Ok(Struct { children })
        },
        _ => Err(ParseError::new(p.pos(), "Expected `,` or `)`".to_owned())),
    }
}

/// Parses one value: a terminal, or a parenthesized struct, array or
/// empty value.
fn parse_value(p: &mut Parser) -> (r: Result<PropValue, ParseError>)
    requires
        old(p).wf(),
    ensures
        final(p).wf(),
        final(p).src() == old(p).src(),
        final(p).stream() == old(p).stream(),
        final(p).at() >= old(p).at(),
        ({
            let res = sp_value(old(p).src(), old(p).stream(), old(p).endp(), old(p).at());
            match r {
                Ok(v) => res matches Ok(o) && value_models(v, o.0) && final(p).at() == o.1
                    && final(p).at() > old(p).at(),
                Err(e) => res matches Err(em) && e.pos as int == em.0 && e.msg@ == em.1 && e.pos
                    <= old(p).src().len(),
            }
        }),
    decreases old(p).stream().len() - old(p).at(), 3int,
{
    match p.next() {
        Some(Token::Text(spn)) => Ok(PropValue::Terminal(spn)),
        Some(Token::Quoted(spn)) => Ok(PropValue::Terminal(spn)),
        Some(Token::LParen) => parse_struct_or_array(p),
        _ => Err(ParseError::new(p.pos(), "Expected `(` or value".to_owned())),
    }
}

/// Parses what follows an inner `(`: the empty value, a struct, or an
/// array.
#[verifier::rlimit(100)]
fn parse_struct_or_array(p: &mut Parser) -> (r: Result<PropValue, ParseError>)
    requires
        old(p).wf(),
    ensures
        final(p).wf(),
        final(p).src() == old(p).src(),
        final(p).stream() == old(p).stream(),
        final(p).at() >= old(p).at(),
        ({
            let res = sp_struct_or_array(old(p).src(), old(p).stream(), old(p).endp(), old(p).at());
            match r {
                Ok(v) => res matches Ok(o) && value_models(v, o.0) && final(p).at() == o.1
                    && final(p).at() > old(p).at(),
                Err(e) => res matches Err(em) && e.pos as int == em.0 && e.msg@ == em.1 && e.pos
                    <= old(p).src().len(),
            }
        }),
    decreases old(p).stream().len() - old(p).at(), 1int,
{
    let prop_token = match p.next() {
        None => {
            return Err(ParseError::new(p.pos(), "Expected name, value, or `)`".to_owned()));
        },
        Some(Token::RParen) => {
            return Ok(PropValue::Empty);
        },
        Some(tok) => tok,
    };
    let pk = p.peek();
    let struct_head = matches!(prop_token, Token::Text(_)) && (matches!(pk, Some(Token::Eq))
        || matches!(pk, Some(Token::LBrack)));
    let term_head = (matches!(prop_token, Token::Text(_)) || matches!(prop_token, Token::Quoted(_)))
        && (matches!(pk, Some(Token::Comma)) || matches!(pk, Some(Token::RParen)));
    let paren_head = matches!(prop_token, Token::LParen) && (matches!(pk, Some(Token::Text(_)))
        || matches!(pk, Some(Token::RParen)));
    if struct_head {
        match parse_struct(p, prop_token) {
            Ok(st) => Ok(PropValue::Struct(st)),
            Err(e) => Err(e),
        }
    } else if term_head || paren_head {
        match parse_array(p, prop_token) {
            Ok(ar) => Ok(PropValue::Array(ar)),
            Err(e) => Err(e),
        }
    } else {
        Err(ParseError::new(p.pos(), "Expected key-value pair or array value".to_owned()))
    }
}

/// Parses an array whose first element token `ex_token` was already
/// consumed.
#[verifier::rlimit(100)]
fn parse_array(p: &mut Parser, ex_token: Token) -> (r: Result<Array, ParseError>)
    requires
        old(p).wf(),
        1 <= old(p).at() <= old(p).stream().len(),
        tok_of(old(p).stream(), old(p).at() - 1) == Some(ex_token),
        ex_token is Text || ex_token is Quoted || ex_token is LParen,
    ensures
        final(p).wf(),
        final(p).src() == old(p).src(),
        final(p).stream() == old(p).stream(),
        final(p).at() >= old(p).at(),
        ({
            let res = sp_array(
                old(p).src(),
                old(p).stream(),
                old(p).endp(),
                old(p).at() - 1,
                old(p).at(),
            );
            match r {
                Ok(ar) => res matches Ok(o) && elems_model(ar.elems@, o.0) && final(p).at() == o.1,
                Err(e) => res matches Err(em) && e.pos as int == em.0 && e.msg@ == em.1 && e.pos
                    <= old(p).src().len(),
            }
        }),
    decreases old(p).stream().len() - old(p).at(), 2int,
{
    let ghost vis = old(p).at() - 1;
    let ghost fm: ValueModel;
    let first: PropValue = match ex_token {
        Token::Text(spn) => {
            proof {
                fm = ValueModel::Terminal(spn);
            }
            PropValue::Terminal(spn)
        },
        Token::Quoted(spn) => {
            proof {
                fm = ValueModel::Terminal(spn);
            }
            PropValue::Terminal(spn)
        },
        Token::LParen => {
            match p.next() {
                Some(t2 @ Token::Text(_)) => {
                    let ghost vis2 = p.at() - 1;
                    match parse_struct(p, t2) {
                        Ok(st) => {
                            proof {
                                fm = ValueModel::Struct(
                                    sp_struct(
                                        old(p).src(),
                                        old(p).stream(),
                                        old(p).endp(),
                                        vis2,
                                    )->Ok_0.0,
                                );
                            }
                            PropValue::Struct(st)
                        },
                        Err(e) => {
                            return Err(e);
                        },
                    }
                },
                _ => {
                    return Err(ParseError::new(p.pos(), "Expected property name".to_owned()));
                },
            }
        },
        _ => {
            proof {
                fm = ValueModel::Empty;
            }
            PropValue::Empty
        },
    };
    let ghost jr = p.at();
    match parse_array_rest(p) {
        Ok(rest) => {
            let mut elems = rest.elems;
            let ghost es = sp_array_rest(old(p).src(), old(p).stream(), old(p).endp(), jr)->Ok_0.0;
            elems.insert(0, first);
            proof {
                lemma_elems_prepend(first, fm, elems@.remove(0), es);
                assert(elems@.remove(0).insert(0, first) =~= elems@);
            }
            Ok(Array { elems })
        },
        Err(e) => Err(e),
    }
}

/// Parses the separators and elements after an array's first element.
fn parse_array_rest(p: &mut Parser) -> (r: Result<Array, ParseError>)
    requires
        old(p).wf(),
    ensures
        final(p).wf(),
        final(p).src() == old(p).src(),
        final(p).stream() == old(p).stream(),
        final(p).at() >= old(p).at(),
        ({
            let res = sp_array_rest(old(p).src(), old(p).stream(), old(p).endp(), old(p).at());
            match r {
                Ok(ar) => res matches Ok(o) && elems_model(ar.elems@, o.0) && final(p).at() == o.1
                    && final(p).at() > old(p).at(),
                Err(e) => res matches Err(em) && e.pos as int == em.0 && e.msg@ == em.1 && e.pos
                    <= old(p).src().len(),
            }
        }),
    decreases old(p).stream().len() - old(p).at(), 0int,
{
    let ghost j0 = old(p).at();
    let pk = p.peek();
    match pk {
        Some(Token::Comma) => {
            let _ = p.next();
        },
        Some(Token::RParen) => {
            let _ = p.next();
            return Ok(Array { elems: Vec::new() });
        },
        _ => {
            return Err(ParseError::new(p.pos(), "expected `,` or `(`".to_owned()));
        },
    }
    match p.next() {
        Some(Token::RParen) => Ok(Array { elems: Vec::new() }),
        Some(Token::Text(spn)) => {
            match parse_array_rest(p) {
                Ok(rest) => {
                    let ghost es = sp_array_rest(
                        old(p).src(),
                        old(p).stream(),
                        old(p).endp(),
                        j0 + 2,
                    )->Ok_0.0;
                    let mut elems = rest.elems;
                    elems.insert(0, PropValue::Terminal(spn));
                    proof {
                        lemma_elems_prepend(
                            PropValue::Terminal(spn),
                            ValueModel::Terminal(spn),
                            elems@.remove(0),
                            es,
                        );
                        assert(elems@.remove(0).insert(0, PropValue::Terminal(spn)) =~= elems@);
                    }
                    Ok(Array { elems })
                },
                Err(e) => Err(e),
            }
        },
        Some(Token::Quoted(spn)) => {
            match parse_array_rest(p) {
                Ok(rest) => {
                    let ghost es = sp_array_rest(
                        old(p).src(),
                        old(p).stream(),
                        old(p).endp(),
                        j0 + 2,
                    )->Ok_0.0;
                    let mut elems = rest.elems;
                    elems.insert(0, PropValue::Terminal(spn));
                    proof {
                        lemma_elems_prepend(
                            PropValue::Terminal(spn),
                            ValueModel::Terminal(spn),
                            elems@.remove(0),
                            es,
                        );
                        assert(elems@.remove(0).insert(0, PropValue::Terminal(spn)) =~= elems@);
                    }
                    Ok(Array { elems })
                },
                Err(e) => Err(e),
            }
        },
        Some(Token::LParen) => {
            match p.next() {
                Some(t2 @ Token::Text(_)) => {
                    let st = match parse_struct(p, t2) {
                        Ok(st) => st,
                        Err(e) => {
                            return Err(e);
                        },
                    };
                    let ghost cs = sp_struct(
                        old(p).src(),
                        old(p).stream(),
                        old(p).endp(),
                        j0 + 2,
                    )->Ok_0.0;
                    let ghost jr = p.at();
                    match parse_array_rest(p) {
                        Ok(rest) => {
                            let ghost es = sp_array_rest(
                                old(p).src(),
                                old(p).stream(),
                                old(p).endp(),
                                jr,
                            )->Ok_0.0;
                            let mut elems = rest.elems;
                            elems.insert(0, PropValue::Struct(st));
                            proof {
                                lemma_elems_prepend(
                                    PropValue::Struct(st),
                                    ValueModel::Struct(cs),
                                    elems@.remove(0),
                                    es,
                                );
                                assert(elems@.remove(0).insert(0, PropValue::Struct(st))
                                    =~= elems@);
                            }
                            Ok(Array { elems })
                        },
                        Err(e) => Err(e),
                    }
                },
                _ => Err(ParseError::new(p.pos(), "Expected property name".to_owned())),
            }
        },
        _ => Err(ParseError::new(p.pos(), "expected value".to_owned())),
    }
}

/// Parses a whole value text as a parenthesized struct, the only legal
/// top-level shape.
pub fn parse(text: &str) -> (r: Result<Struct, ParseError>)
    ensures
        ({
            let res = spec_parse(text.spec_bytes());
            match r {
                Ok(st) => res matches Ok(cs) && children_model(st.children@, cs),
                Err(e) => res matches Err(em) && e.pos as int == em.0 && e.msg@ == em.1 && e.pos
                    <= text.spec_bytes().len(),
            }
        }),
{
    let b = text.as_bytes();
    parse_bytes(b)
}

/// Parses a whole value, given as raw bytes.
pub(crate) fn parse_bytes(b: &[u8]) -> (r: Result<Struct, ParseError>)
    ensures
        ({
            let res = spec_parse(b@);
            match r {
                Ok(st) => res matches Ok(cs) && children_model(st.children@, cs),
                Err(e) => res matches Err(em) && e.pos as int == em.0 && e.msg@ == em.1 && e.pos
                    <= b@.len(),
            }
        }),
{
    let n = b.len();
    let toks = lex(b);
    proof {
        lemma_lex_wf(b@, 0);
    }
    let mut parser = Parser { text: b, toks, i: 0, last_pos: 0 };
    match parser.next() {
        Some(Token::LParen) => {
            match parser.next() {
                Some(t @ Token::Text(_)) => {
                    match parse_struct(&mut parser, t) {
                        Ok(st) => Ok(st),
                        Err(e) => Err(e),
                    }
                },
                _ => Err(ParseError::new(parser.pos(), "Expected property name".to_owned())),
            }
        },
        _ => Err(ParseError::new(parser.pos(), "Expected `(`".to_owned())),
    }
}

} // verus!
