//! The validator: a pluggable rule set evaluated per directive, and the
//! default rules. Diagnostics are values carrying a kind and a byte-range
//! span into the original text; directive iteration never halts early.

use crate::parse::{
    ends_backslashes, is_blank_byte, is_eol, next_eol, rtrim_sp_tab, scan_eol, scan_rtrim,
    scan_skip_sp_tab, skip_sp_tab, sp, Directive, Directives, KvpOperation, Span, Unknown,
};
use crate::shapes::{
    bool_in_range, ident_in_range, is_bool_seq, is_ident_seq, is_key_seq, is_num_seq,
    is_object_seq, key_in_range, num_in_range, object_in_range,
};
use crate::struct_syntax::{parse_bytes, spec_parse};
use vstd::prelude::*;
use vstd::string::StringSliceAdditionalSpecFns;

verus! {

/// One diagnostic: a categorized kind and the span it points at.
#[derive(Clone, Debug, PartialEq, Eq)]
pub struct ReportedError {
    pub kind: ErrorKind,
    pub span: Span,
}

/// The category of a diagnostic. `Custom` carries a dynamically built
/// message from the value sub-grammar parser.
#[derive(Clone, Debug, PartialEq, Eq)]
pub enum ErrorKind {
    InvalidIdent,
    MalformedHeader,
    SpaceAfterMultiline,
    SlashSlashComment,
    BadValue,
    Custom(String),
    Other,
}

/// The outcome of one visit: the checked thing matched a good shape, the
/// validator has no opinion, or it reports one or more diagnostics.
#[derive(Debug)]
#[must_use]
pub enum DiagResult {
    Matched,
    NoOpinion,
    Reported(Vec<ReportedError>),
}

// ------------------------------------------------------------------
// Mathematical mirrors of diagnostics
// ------------------------------------------------------------------

/// The mirror of `ErrorKind`, with the message as a character sequence.
pub enum KindModel {
    InvalidIdent,
    MalformedHeader,
    SpaceAfterMultiline,
    SlashSlashComment,
    BadValue,
    Custom(Seq<char>),
    Other,
}

/// The mirror of `DiagResult`, with diagnostics as a sequence.
pub enum DiagModel {
    Matched,
    NoOpinion,
    Reported(Seq<(KindModel, Span)>),
}

/// The executable kind is the given model.
pub open spec fn kind_models(k: ErrorKind, m: KindModel) -> bool {
    match (k, m) {
        (ErrorKind::InvalidIdent, KindModel::InvalidIdent) => true,
        (ErrorKind::MalformedHeader, KindModel::MalformedHeader) => true,
        (ErrorKind::SpaceAfterMultiline, KindModel::SpaceAfterMultiline) => true,
        (ErrorKind::SlashSlashComment, KindModel::SlashSlashComment) => true,
        (ErrorKind::BadValue, KindModel::BadValue) => true,
        (ErrorKind::Custom(s), KindModel::Custom(cs)) => s@ == cs,
        (ErrorKind::Other, KindModel::Other) => true,
        _ => false,
    }
}

/// The executable diagnostic list is the given model list, pairwise.
pub open spec fn errs_model(es: Seq<ReportedError>, ms: Seq<(KindModel, Span)>) -> bool {
    es.len() == ms.len() && (forall|i: int|
        0 <= i < ms.len() ==> kind_models(es[i].kind, (#[trigger] ms[i]).0) && es[i].span
            == ms[i].1)
}

/// Every reported span lies within a text of `n` bytes.
pub open spec fn errs_spans_wf(es: Seq<ReportedError>, n: int) -> bool {
    forall|i: int| 0 <= i < es.len() ==> (#[trigger] es[i]).span.wf(n)
}

/// The executable visit outcome is the given model.
pub open spec fn diag_models(r: DiagResult, m: DiagModel) -> bool {
    match (r, m) {
        (DiagResult::Matched, DiagModel::Matched) => true,
        (DiagResult::NoOpinion, DiagModel::NoOpinion) => true,
        (DiagResult::Reported(es), DiagModel::Reported(ms)) => errs_model(es@, ms),
        _ => false,
    }
}

/// Appending matching diagnostic lists preserves the relation.
pub proof fn lemma_errs_model_app(
    e1: Seq<ReportedError>,
    m1: Seq<(KindModel, Span)>,
    e2: Seq<ReportedError>,
    m2: Seq<(KindModel, Span)>,
)
    requires
        errs_model(e1, m1),
        errs_model(e2, m2),
    ensures
        errs_model(e1 + e2, m1 + m2),
{
    let e = e1 + e2;
    let m = m1 + m2;
    assert forall|i: int| 0 <= i < m.len() implies kind_models(e[i].kind, (#[trigger] m[i]).0)
        && e[i].span == m[i].1 by {
        if i < m1.len() {
            assert(e[i] == e1[i] && m[i] == m1[i]);
        } else {
            assert(e[i] == e2[i - m1.len()] && m[i] == m2[i - m1.len()]);
        }
    }
}

// ------------------------------------------------------------------
// Byte scans used by the rules
// ------------------------------------------------------------------

/// The first position in `[i, end)` that holds no whitespace byte, or `end`.
pub open spec fn skip_blank(t: Seq<u8>, i: int, end: int) -> int
    decreases end - i,
{
    if i < 0 || i >= end || end > t.len() {
        end
    } else if is_blank_byte(t[i]) {
        skip_blank(t, i + 1, end)
    } else {
        i
    }
}

/// The end of `[start, end)` after dropping trailing whitespace bytes,
/// never below `start`.
pub open spec fn rtrim_blank(t: Seq<u8>, start: int, end: int) -> int
    decreases end - start,
{
    if end <= start || end > t.len() || start < 0 {
        end
    } else if is_blank_byte(t[end - 1]) {
        rtrim_blank(t, start, end - 1)
    } else {
        end
    }
}

/// The first `;` position in `[i, end)`, or `end` if there is none.
pub open spec fn find_semi(t: Seq<u8>, i: int, end: int) -> int
    decreases end - i,
{
    if i < 0 || i >= end || end > t.len() {
        end
    } else if t[i] == 59 {
        i
    } else {
        find_semi(t, i + 1, end)
    }
}

/// Finds the first non-whitespace byte in `[i, end)`.
fn scan_skip_blank(b: &[u8], i: usize, end: usize) -> (r: usize)
    requires
        i <= end <= b@.len(),
    ensures
        r == skip_blank(b@, i as int, end as int),
        i <= r <= end,
{
    let mut k = i;
    while k < end && (b[k] == 32 || b[k] == 9 || b[k] == 10 || b[k] == 13)
        invariant
            i <= k <= end <= b@.len(),
            skip_blank(b@, i as int, end as int) == skip_blank(b@, k as int, end as int),
        decreases end - k,
    {
        k = k + 1;
    }
    k
}

/// Drops trailing whitespace bytes from `[start, end)`.
fn scan_rtrim_blank(b: &[u8], start: usize, end: usize) -> (r: usize)
    requires
        start <= end <= b@.len(),
    ensures
        r == rtrim_blank(b@, start as int, end as int),
        start <= r <= end,
{
    let mut k = end;
    while k > start && (b[k - 1] == 32 || b[k - 1] == 9 || b[k - 1] == 10 || b[k - 1] == 13)
        invariant
            start <= k <= end <= b@.len(),
            rtrim_blank(b@, start as int, end as int) == rtrim_blank(b@, start as int, k as int),
        decreases k,
    {
        k = k - 1;
    }
    k
}

/// Finds the first `;` in `[i, end)`; returns `end` if there is none.
fn scan_find_semi(b: &[u8], i: usize, end: usize) -> (r: usize)
    requires
        i <= end <= b@.len(),
    ensures
        r == find_semi(b@, i as int, end as int),
        i <= r <= end,
{
    let mut k = i;
    while k < end && b[k] != 59
        invariant
            i <= k <= end <= b@.len(),
            find_semi(b@, i as int, end as int) == find_semi(b@, k as int, end as int),
        decreases end - k,
    {
        k = k + 1;
    }
    k
}

/// Packs one diagnostic into a fresh list.
fn report_one(kind: ErrorKind, span: Span) -> (r: Vec<ReportedError>)
    ensures
        r@.len() == 1,
        r@[0].kind == kind,
        r@[0].span == span,
{
    let mut v: Vec<ReportedError> = Vec::new();
    v.push(ReportedError { kind, span });
    v
}

// ------------------------------------------------------------------
// Comment and stray-header checks
// ------------------------------------------------------------------

/// The comment rule on a span of the text: a trimmed `;` start is a
/// matched comment; a trimmed `//` start is reported; otherwise no opinion.
pub open spec fn spec_comment_diag(t: Seq<u8>, span: Span) -> DiagModel {
    let a = skip_blank(t, span.0 as int, span.1 as int);
    if a < span.1 && t[a] == 59 {
        DiagModel::Matched
    } else if a + 1 < span.1 && t[a] == 47 && t[a + 1] == 47 {
        DiagModel::Reported(seq![(KindModel::SlashSlashComment, span)])
    } else {
        DiagModel::NoOpinion
    }
}

/// Reports a line that starts with `;` as a comment, and one that starts
/// with `//` as an UnrealScript-style comment.
pub fn try_report_comment(text: &str, span: &Span) -> (r: DiagResult)
    requires
        span.wf(text.spec_bytes().len() as int),
    ensures
        diag_models(r, spec_comment_diag(text.spec_bytes(), *span)),
        r matches DiagResult::Reported(es) ==> errs_spans_wf(es@, text.spec_bytes().len() as int),
{
    let b = text.as_bytes();
    let a = scan_skip_blank(b, span.0, span.1);
    if a < span.1 && b[a] == 59 {
        DiagResult::Matched
    } else if a < span.1 && a + 1 < span.1 && b[a] == 47 && b[a + 1] == 47 {
        let es = report_one(ErrorKind::SlashSlashComment, *span);
        assert(errs_model(es@, seq![(KindModel::SlashSlashComment, *span)]));
        DiagResult::Reported(es)
    } else {
        DiagResult::NoOpinion
    }
}

/// The stray-header rule on a span: after cutting a `;` comment and
/// trimming, a line bracketed by `[` and `]` is a malformed header.
pub open spec fn spec_section_diag(t: Seq<u8>, span: Span) -> DiagModel {
    let c = find_semi(t, span.0 as int, span.1 as int);
    let a = skip_blank(t, span.0 as int, c);
    let b2 = rtrim_blank(t, a, c);
    if a < b2 && t[a] == 91 && t[b2 - 1] == 93 {
        DiagModel::Reported(seq![(KindModel::MalformedHeader, span)])
    } else {
        DiagModel::NoOpinion
    }
}

/// Reports a line that, ignoring a trailing `;` comment and surrounding
/// whitespace, is bracketed by `[` and `]`: a header the recognizer did
/// not accept, for example one with a trailing space.
pub fn try_report_section_error(text: &str, span: &Span) -> (r: DiagResult)
    requires
        span.wf(text.spec_bytes().len() as int),
    ensures
        diag_models(r, spec_section_diag(text.spec_bytes(), *span)),
        r matches DiagResult::Reported(es) ==> errs_spans_wf(es@, text.spec_bytes().len() as int),
{
    let b = text.as_bytes();
    let c = scan_find_semi(b, span.0, span.1);
    let a = scan_skip_blank(b, span.0, c);
    let b2 = scan_rtrim_blank(b, a, c);
    if a < b2 && b[a] == 91 && b[b2 - 1] == 93 {
        let es = report_one(ErrorKind::MalformedHeader, *span);
        assert(errs_model(es@, seq![(KindModel::MalformedHeader, *span)]));
        DiagResult::Reported(es)
    } else {
        DiagResult::NoOpinion
    }
}

// ------------------------------------------------------------------
// Collapsing multi-line continuations
// ------------------------------------------------------------------

/// The first position in `[i, end)` that holds none of tab, `\r`, `\n`,
/// or `end`: the run consumed after a spliced continuation.
pub open spec fn ws_run_end(t: Seq<u8>, i: int, end: int) -> int
    decreases end - i,
{
    if i < 0 || i >= end || end > t.len() {
        end
    } else if t[i] == 9 || t[i] == 13 || t[i] == 10 {
        ws_run_end(t, i + 1, end)
    } else {
        i
    }
}

/// A run of `n` spaces.
pub open spec fn spaces(n: int) -> Seq<u8> {
    Seq::new(n as nat, |i: int| 32u8)
}

/// The bytes of `[a, b)` with each continuation spliced out: at a newline
/// whose two preceding bytes are `\\`, the backslashes become two spaces
/// and the newline plus the following run of tabs and terminators becomes
/// one space each. A newline not preceded by `\\` ends the collapse. The
/// result always has exactly `b - a` bytes.
pub open spec fn collapse(t: Seq<u8>, a: int, b: int) -> Seq<u8>
    decreases b - a,
    via collapse_decreases
{
    if !(0 <= a <= b <= t.len()) {
        Seq::empty()
    } else {
        let e = next_eol(t, a);
        if e >= b {
            t.subrange(a, b)
        } else if e >= a + 2 && t[e - 2] == 92 && t[e - 1] == 92 {
            let w = ws_run_end(t, e, b);
            t.subrange(a, e - 2) + spaces(2) + spaces(w - e) + collapse(t, w, b)
        } else {
            t.subrange(a, b)
        }
    }
}

#[via_fn]
proof fn collapse_decreases(t: Seq<u8>, a: int, b: int) {
    if 0 <= a <= b <= t.len() {
        let e = next_eol(t, a);
        crate::parse::lemma_next_eol(t, a);
        if e < b {
            lemma_ws_run_end(t, e, b);
            assert(is_eol(t[e]));
            assert(ws_run_end(t, e, b) == ws_run_end(t, e + 1, b));
        }
    }
}

/// `ws_run_end` stays in range.
pub proof fn lemma_ws_run_end(t: Seq<u8>, i: int, end: int)
    requires
        0 <= i <= end <= t.len(),
    ensures
        i <= ws_run_end(t, i, end) <= end,
    decreases end - i,
{
    if i < end && (t[i] == 9 || t[i] == 13 || t[i] == 10) {
        lemma_ws_run_end(t, i + 1, end);
    }
}

/// The collapsed text has exactly the length of the collapsed range.
pub proof fn lemma_collapse_len(t: Seq<u8>, a: int, b: int)
    requires
        0 <= a <= b <= t.len(),
    ensures
        collapse(t, a, b).len() == b - a,
    decreases b - a,
{
    let e = next_eol(t, a);
    crate::parse::lemma_next_eol(t, a);
    if e < b && e >= a + 2 && t[e - 2] == 92 && t[e - 1] == 92 {
        let w = ws_run_end(t, e, b);
        lemma_ws_run_end(t, e, b);
        assert(is_eol(t[e]));
        assert(ws_run_end(t, e, b) == ws_run_end(t, e + 1, b));
        lemma_collapse_len(t, w, b);
    }
}

/// Finds the first byte in `[i, end)` that is none of tab, `\r`, `\n`.
fn scan_ws_run(b: &[u8], i: usize, end: usize) -> (r: usize)
    requires
        i <= end <= b@.len(),
    ensures
        r == ws_run_end(b@, i as int, end as int),
        i <= r <= end,
{
    let mut k = i;
    while k < end && (b[k] == 9 || b[k] == 13 || b[k] == 10)
        invariant
            i <= k <= end <= b@.len(),
            ws_run_end(b@, i as int, end as int) == ws_run_end(b@, k as int, end as int),
        decreases end - k,
    {
        k = k + 1;
    }
    k
}

/// Builds the collapsed form of `[a, e)`.
fn collapse_range(b: &[u8], a: usize, e: usize) -> (r: Vec<u8>)
    requires
        a <= e <= b@.len(),
    ensures
        r@ == collapse(b@, a as int, e as int),
{
    let ghost t = b@;
    let mut out: Vec<u8> = Vec::new();
    let mut k = a;
    while k < e
        invariant
            a <= k <= e <= b@.len(),
            t == b@,
            collapse(t, a as int, e as int) == out@ + collapse(t, k as int, e as int),
        decreases e - k,
    {
        let ghost out0 = out@;
        let nl = scan_eol(b, k);
        if nl >= e {
            let mut m = k;
            while m < e
                invariant
                    k <= m <= e <= b@.len(),
                    t == b@,
                    out@ == out0 + t.subrange(k as int, m as int),
                decreases e - m,
            {
                out.push(b[m]);
                proof {
                    assert(out@ =~= out0 + t.subrange(k as int, m + 1));
                }
                m = m + 1;
            }
            assert(collapse(t, k as int, e as int) == t.subrange(k as int, e as int));
            k = e;
        } else if nl - k >= 2 && b[nl - 1] == 92 && b[nl - 2] == 92 {
            let mut m = k;
            while m < nl - 2
                invariant
                    k <= m <= nl - 2,
                    nl <= e <= b@.len(),
                    t == b@,
                    out@ == out0 + t.subrange(k as int, m as int),
                decreases nl - m,
            {
                out.push(b[m]);
                proof {
                    assert(out@ =~= out0 + t.subrange(k as int, m + 1));
                }
                m = m + 1;
            }
            out.push(32);
            out.push(32);
            let w = scan_ws_run(b, nl, e);
            let ghost out1 = out@;
            assert(out1 =~= out0 + t.subrange(k as int, nl - 2) + spaces(2));
            let mut c = nl;
            while c < w
                invariant
                    nl <= c <= w <= e,
                    t == b@,
                    out@ == out1 + spaces(c - nl),
                decreases w - c,
            {
                out.push(32);
                proof {
                    assert(out@ =~= out1 + spaces(c + 1 - nl));
                }
                c = c + 1;
            }
            proof {
                assert(collapse(t, k as int, e as int) == t.subrange(k as int, nl - 2) + spaces(2)
                    + spaces(w - nl) + collapse(t, w as int, e as int));
                assert(out@ =~= out0 + (t.subrange(k as int, nl - 2) + spaces(2) + spaces(
                    w - nl,
                )));
                assert(out0 + (t.subrange(k as int, nl - 2) + spaces(2) + spaces(w - nl))
                    + collapse(t, w as int, e as int) =~= out0 + collapse(t, k as int, e as int));
            }
            k = w;
        } else {
            let mut m = k;
            while m < e
                invariant
                    k <= m <= e <= b@.len(),
                    t == b@,
                    out@ == out0 + t.subrange(k as int, m as int),
                decreases e - m,
            {
                out.push(b[m]);
                proof {
                    assert(out@ =~= out0 + t.subrange(k as int, m + 1));
                }
                m = m + 1;
            }
            assert(collapse(t, k as int, e as int) == t.subrange(k as int, e as int));
            k = e;
        }
    }
    assert(collapse(t, k as int, e as int) =~= Seq::empty());
    assert(out@ =~= out@ + collapse(t, k as int, e as int));
    out
}

// ------------------------------------------------------------------
// Value shape validation
// ------------------------------------------------------------------

/// The value rule on a value span: an empty span is fine; the trimmed and
/// collapsed text is fine when it is a quoted literal (no opinion), a
/// boolean word, a numeric literal, or a bare identifier; a parenthesized
/// text must parse in the value sub-grammar, whose first failure is
/// reported at the value's offset plus the failure offset; anything else
/// is a bad value.
pub open spec fn spec_vpt(t: Seq<u8>, span: Span) -> DiagModel {
    if span.0 == span.1 {
        DiagModel::Matched
    } else {
        let a0 = skip_sp_tab(t, span.0 as int, span.1 as int);
        let b0 = rtrim_sp_tab(t, a0, span.1 as int);
        let red = collapse(t, a0, b0);
        if red.len() > 0 && red[0] == 34 {
            DiagModel::NoOpinion
        } else if is_bool_seq(red) {
            DiagModel::Matched
        } else if is_num_seq(red) {
            DiagModel::Matched
        } else if is_ident_seq(red) {
            DiagModel::Matched
        } else if red.len() > 0 && red[0] == 40 {
            match spec_parse(red) {
                Ok(_) => DiagModel::Matched,
                Err(em) => DiagModel::Reported(
                    seq![(KindModel::Custom(em.1), sp(span.0 + em.0, span.1 as int))],
                ),
            }
        } else {
            DiagModel::Reported(seq![(KindModel::BadValue, span)])
        }
    }
}

/// The diagnostics of the value rule, or the empty list when it has none.
pub open spec fn vpt_errs(t: Seq<u8>, span: Span) -> Seq<(KindModel, Span)> {
    match spec_vpt(t, span) {
        DiagModel::Reported(es) => es,
        _ => Seq::empty(),
    }
}

/// Validates the text of a property value: accepts an empty value, a
/// quoted literal, a boolean word, a numeric literal, a bare identifier,
/// or a well-formed parenthesized struct; reports the first sub-grammar
/// failure or a bad value otherwise.
pub fn validate_property_text(text: &str, span: &Span) -> (r: DiagResult)
    requires
        span.wf(text.spec_bytes().len() as int),
    ensures
        diag_models(r, spec_vpt(text.spec_bytes(), *span)),
        r matches DiagResult::Reported(es) ==> errs_spans_wf(es@, text.spec_bytes().len() as int),
{
    let b = text.as_bytes();
    if span.0 == span.1 {
        return DiagResult::Matched;
    }
    let a0 = scan_skip_sp_tab(b, span.0, span.1);
    let b0 = scan_rtrim(b, a0, span.1);
    let red = collapse_range(b, a0, b0);
    proof {
        lemma_collapse_len(b@, a0 as int, b0 as int);
        assert(red@.subrange(0, red@.len() as int) =~= red@);
    }
    let n = red.len();
    if n > 0 && red[0] == 34 {
        return DiagResult::NoOpinion;
    }
    if bool_in_range(red.as_slice(), 0, n) {
        return DiagResult::Matched;
    }
    if num_in_range(red.as_slice(), 0, n) {
        return DiagResult::Matched;
    }
    if ident_in_range(red.as_slice(), 0, n) {
        return DiagResult::Matched;
    }
    if n > 0 && red[0] == 40 {
        match parse_bytes(red.as_slice()) {
            Ok(_) => DiagResult::Matched,
            Err(e) => {
                let s2 = Span(span.0 + e.pos, span.1);
                let es = report_one(ErrorKind::Custom(e.msg), s2);
                assert(diag_models(DiagResult::Reported(es), spec_vpt(text.spec_bytes(), *span)))
                    by {
                    assert(errs_model(
                        es@,
                        seq![
                            (
                                KindModel::Custom(es@[0].kind->Custom_0@),
                                s2,
                            ),
                        ],
                    ));
                }
                DiagResult::Reported(es)
            },
        }
    } else {
        let es = report_one(ErrorKind::BadValue, *span);
        assert(errs_model(es@, seq![(KindModel::BadValue, *span)]));
        DiagResult::Reported(es)
    }
}

// ------------------------------------------------------------------
// The validator capability
// ------------------------------------------------------------------

/// A pluggable rule set evaluated per directive. Each visit's executable
/// result is pinned to the validator's own specification function, so a
/// whole validation pass is a mathematical function of the text and the
/// directives.
pub trait Validator {
    /// The rule applied to a section header's interior span.
    spec fn section_header_diag(&self, t: Seq<u8>, obj_name: Span) -> DiagModel;

    /// The rule applied to a key-value pair's identifier and value spans.
    spec fn kvp_diag(&self, t: Seq<u8>, op: KvpOperation, ident: Span, value: Span) -> DiagModel;

    /// The rule applied to an unclassified line.
    spec fn unknown_diag(&self, t: Seq<u8>, span: Span) -> DiagModel;

    /// Visits a section header; `span` is the interior between the brackets.
    fn visit_section_header(&self, text: &str, span: &Span) -> (r: DiagResult)
        requires
            span.wf(text.spec_bytes().len() as int),
        ensures
            diag_models(r, self.section_header_diag(text.spec_bytes(), *span)),
            r matches DiagResult::Reported(es) ==> errs_spans_wf(
                es@,
                text.spec_bytes().len() as int,
            ),
    ;

    /// Visits a key-value pair through its identifier and value spans.
    fn visit_kvp(&self, op: KvpOperation, text: &str, ident: &Span, value: &Span) -> (r:
        DiagResult)
        requires
            ident.wf(text.spec_bytes().len() as int),
            value.wf(text.spec_bytes().len() as int),
        ensures
            diag_models(r, self.kvp_diag(text.spec_bytes(), op, *ident, *value)),
            r matches DiagResult::Reported(es) ==> errs_spans_wf(
                es@,
                text.spec_bytes().len() as int,
            ),
    ;

    /// Visits an unclassified line through its raw span.
    fn visit_unknown(&self, text: &str, span: &Span) -> (r: DiagResult)
        requires
            span.wf(text.spec_bytes().len() as int),
        ensures
            diag_models(r, self.unknown_diag(text.spec_bytes(), *span)),
            r matches DiagResult::Reported(es) ==> errs_spans_wf(
                es@,
                text.spec_bytes().len() as int,
            ),
    ;
}

// ------------------------------------------------------------------
// The default rules
// ------------------------------------------------------------------

/// The default syntactic rule set.
pub struct SimpleSyntaxValidator;

/// The default header rule: the interior must be an object path.
pub open spec fn simple_header_diag(t: Seq<u8>, obj: Span) -> DiagModel {
    if is_object_seq(t.subrange(obj.0 as int, obj.1 as int)) {
        DiagModel::Matched
    } else {
        DiagModel::Reported(seq![(KindModel::InvalidIdent, obj)])
    }
}

/// The default key-value rule: a well-shaped key is followed by the value
/// check; a key that is really a `;` comment suppresses the directive; a
/// `//` comment or a malformed key is reported, followed by the value
/// check's findings.
pub open spec fn simple_kvp_diag(t: Seq<u8>, op: KvpOperation, ident: Span, value: Span) -> DiagModel {
    if is_key_seq(t.subrange(ident.0 as int, ident.1 as int)) {
        spec_vpt(t, value)
    } else {
        match spec_comment_diag(t, ident) {
            DiagModel::Matched => DiagModel::Matched,
            DiagModel::NoOpinion => DiagModel::Reported(
                seq![(KindModel::InvalidIdent, ident)] + vpt_errs(t, value),
            ),
            DiagModel::Reported(es) => DiagModel::Reported(es + vpt_errs(t, value)),
        }
    }
}

/// The default rule for unclassified lines: a `;` comment is fine; a `//`
/// comment and a stray bracketed header are reported; a line that matches
/// neither is reported as an unrecognized directive.
pub open spec fn simple_unknown_diag(t: Seq<u8>, span: Span) -> DiagModel {
    let cd = spec_comment_diag(t, span);
    if cd is Matched {
        DiagModel::Matched
    } else {
        let ce = match cd {
            DiagModel::Reported(es) => es,
            _ => Seq::empty(),
        };
        let sd = spec_section_diag(t, span);
        if sd is Matched {
            DiagModel::Matched
        } else {
            let se = match sd {
                DiagModel::Reported(es) => es,
                _ => Seq::empty(),
            };
            if ce.len() + se.len() == 0 {
                DiagModel::Reported(seq![(KindModel::Other, span)])
            } else {
                DiagModel::Reported(ce + se)
            }
        }
    }
}

impl Validator for SimpleSyntaxValidator {
    open spec fn section_header_diag(&self, t: Seq<u8>, obj_name: Span) -> DiagModel {
        simple_header_diag(t, obj_name)
    }

    open spec fn kvp_diag(&self, t: Seq<u8>, op: KvpOperation, ident: Span, value: Span) -> DiagModel {
        simple_kvp_diag(t, op, ident, value)
    }

    open spec fn unknown_diag(&self, t: Seq<u8>, span: Span) -> DiagModel {
        simple_unknown_diag(t, span)
    }

    fn visit_section_header(&self, text: &str, span: &Span) -> (r: DiagResult) {
        let b = text.as_bytes();
        if object_in_range(b, span.0, span.1) {
            DiagResult::Matched
        } else {
            let es = report_one(ErrorKind::InvalidIdent, *span);
            assert(errs_model(es@, seq![(KindModel::InvalidIdent, *span)]));
            DiagResult::Reported(es)
        }
    }

    fn visit_kvp(&self, op: KvpOperation, text: &str, ident: &Span, value: &Span) -> (r:
        DiagResult) {
        let ghost t = text.spec_bytes();
        let b = text.as_bytes();
        let mut errs: Vec<ReportedError> = Vec::new();
        let ghost mut ms: Seq<(KindModel, Span)> = Seq::empty();
        if !key_in_range(b, ident.0, ident.1) {
            match try_report_comment(text, ident) {
                DiagResult::Matched => {
                    return DiagResult::Matched;
                },
                DiagResult::NoOpinion => {
                    let mut e1 = report_one(ErrorKind::InvalidIdent, *ident);
                    errs.append(&mut e1);
                    proof {
                        ms = seq![(KindModel::InvalidIdent, *ident)];
                        assert(errs_model(errs@, ms));
                    }
                },
                DiagResult::Reported(mut es) => {
                    proof {
                        ms = spec_comment_diag(t, *ident)->Reported_0;
                    }
                    errs.append(&mut es);
                },
            }
        }
        let vr = validate_property_text(text, value);
        let mut matched: Option<bool> = None;
        match vr {
            DiagResult::Reported(mut es) => {
                let ghost vm = vpt_errs(t, *value);
                proof {
                    lemma_errs_model_app(errs@, ms, es@, vm);
                    ms = ms + vm;
                }
                errs.append(&mut es);
            },
            DiagResult::Matched => {
                matched = Some(true);
            },
            DiagResult::NoOpinion => {
                matched = Some(false);
            },
        }
        if errs.len() > 0 {
            DiagResult::Reported(errs)
        } else {
            match matched {
                Some(true) => DiagResult::Matched,
                Some(false) => DiagResult::NoOpinion,
                None => DiagResult::Matched,
            }
        }
    }

    fn visit_unknown(&self, text: &str, span: &Span) -> (r: DiagResult) {
        let ghost t = text.spec_bytes();
        let mut errs: Vec<ReportedError> = Vec::new();
        let ghost mut ms: Seq<(KindModel, Span)> = Seq::empty();
        match try_report_comment(text, span) {
            DiagResult::Matched => {
                return DiagResult::Matched;
            },
            DiagResult::NoOpinion => {},
            DiagResult::Reported(mut es) => {
                proof {
                    ms = spec_comment_diag(t, *span)->Reported_0;
                }
                errs.append(&mut es);
            },
        }
        match try_report_section_error(text, span) {
            DiagResult::Matched => {
                return DiagResult::Matched;
            },
            DiagResult::NoOpinion => {},
            DiagResult::Reported(mut es) => {
                let ghost sm = spec_section_diag(t, *span)->Reported_0;
                proof {
                    lemma_errs_model_app(errs@, ms, es@, sm);
                    ms = ms + sm;
                }
                errs.append(&mut es);
            },
        }
        if errs.len() == 0 {
            let es = report_one(ErrorKind::Other, *span);
            assert(errs_model(es@, seq![(KindModel::Other, *span)]));
            DiagResult::Reported(es)
        } else {
            DiagResult::Reported(errs)
        }
    }
}

// ------------------------------------------------------------------
// The validation driver
// ------------------------------------------------------------------

/// The start of the last line inside `[a, b)`: the position after the last
/// terminator byte, or `a` when the range has none.
pub open spec fn last_line_start(t: Seq<u8>, a: int, b: int) -> int
    decreases b - a,
{
    if b <= a || b > t.len() || a < 0 {
        a
    } else if is_eol(t[b - 1]) {
        b
    } else {
        last_line_start(t, a, b - 1)
    }
}

/// Finds the start of the last line inside `[a, b)`.
fn scan_last_line_start(b: &[u8], a: usize, e: usize) -> (r: usize)
    requires
        a <= e <= b@.len(),
    ensures
        r == last_line_start(b@, a as int, e as int),
        a <= r <= e,
{
    let mut k = e;
    while k > a && !(b[k - 1] == 10 || b[k - 1] == 13)
        invariant
            a <= k <= e <= b@.len(),
            last_line_start(b@, a as int, e as int) == last_line_start(b@, a as int, k as int),
        decreases k,
    {
        k = k - 1;
    }
    if k == a {
        a
    } else {
        k
    }
}

/// The start of the last `\\` pair inside `[a, b)`, or `a - 1` if none.
pub open spec fn rfind_backslashes(t: Seq<u8>, a: int, b: int) -> int
    decreases b - a,
{
    if !(0 <= a && a + 2 <= b && b <= t.len()) {
        a - 1
    } else if t[b - 2] == 92 && t[b - 1] == 92 {
        b - 2
    } else {
        rfind_backslashes(t, a, b - 1)
    }
}

/// Finds the start of the last `\\` pair inside `[a, e)`.
fn scan_rfind_backslashes(b: &[u8], a: usize, e: usize) -> (r: Option<usize>)
    requires
        a <= e <= b@.len(),
    ensures
        match r {
            Some(j) => j == rfind_backslashes(b@, a as int, e as int) && a <= j && j + 2 <= e,
            None => rfind_backslashes(b@, a as int, e as int) < a,
        },
{
    let mut k = e;
    while k - a >= 2 && !(b[k - 2] == 92 && b[k - 1] == 92)
        invariant
            a <= k <= e <= b@.len(),
            rfind_backslashes(b@, a as int, e as int) == rfind_backslashes(b@, a as int, k as int),
        decreases k,
    {
        k = k - 1;
    }
    if k - a >= 2 {
        Some(k - 2)
    } else {
        None
    }
}

/// The dangling-continuation diagnostic for a key-value pair's value: when
/// the value's raw text still ends with `\\`, no further line followed it,
/// and the last line of the value is reported.
pub open spec fn trailing_errs(t: Seq<u8>, value: Span) -> Seq<(KindModel, Span)> {
    if ends_backslashes(t, value) {
        seq![
            (
                KindModel::Custom("Trailing \\\\ without following line"@),
                sp(last_line_start(t, value.0 as int, value.1 as int), value.1 as int),
            ),
        ]
    } else {
        Seq::empty()
    }
}

/// The broken-continuation diagnostic for an unclassified line: when the
/// preceding raw line does not end with `\\` but still contains a `\\`
/// after right-trimming, the span from that pair to the end of the line is
/// reported.
pub open spec fn space_after_errs(t: Seq<u8>, u: Unknown) -> Seq<(KindModel, Span)> {
    match u.prev_span {
        Option::None => Seq::empty(),
        Option::Some(ps) => {
            if !ends_backslashes(t, ps) {
                let te = rtrim_sp_tab(t, ps.0 as int, ps.1 as int);
                let j = rfind_backslashes(t, ps.0 as int, te);
                if j >= ps.0 {
                    seq![(KindModel::SpaceAfterMultiline, sp(j, u.span.1 as int))]
                } else {
                    Seq::empty()
                }
            } else {
                Seq::empty()
            }
        },
    }
}

/// The diagnostics one directive contributes under a validator.
pub open spec fn dir_errs<V: Validator>(v: V, t: Seq<u8>, d: Directive) -> Seq<(KindModel, Span)> {
    match d {
        Directive::SectionHeader(h) => match v.section_header_diag(t, h.obj_name) {
            DiagModel::Reported(es) => es,
            _ => Seq::empty(),
        },
        Directive::Kvp(k) => (match v.kvp_diag(t, k.op, k.ident, k.value) {
            DiagModel::Reported(es) => es,
            _ => Seq::empty(),
        }) + trailing_errs(t, k.value),
        Directive::Unknown(u) => match v.unknown_diag(t, u.span) {
            DiagModel::Reported(es) => es + space_after_errs(t, u),
            _ => Seq::empty(),
        },
    }
}

/// The diagnostics of a whole pass, from directive `i` on, in directive
/// order.
pub open spec fn spec_validate<V: Validator>(v: V, t: Seq<u8>, ds: Seq<Directive>, i: int) -> Seq<
    (KindModel, Span),
>
    decreases ds.len() - i,
{
    if i < 0 || i >= ds.len() {
        Seq::empty()
    } else {
        dir_errs(v, t, ds[i]) + spec_validate(v, t, ds, i + 1)
    }
}

/// Computes one directive's diagnostics under a validator.
fn directive_errors<V: Validator>(checker: &V, text: &str, d: &Directive) -> (r: Vec<
    ReportedError,
>)
    requires
        crate::parse::directive_wf(text.spec_bytes(), *d),
    ensures
        errs_model(r@, dir_errs(*checker, text.spec_bytes(), *d)),
        errs_spans_wf(r@, text.spec_bytes().len() as int),
{
    let ghost t = text.spec_bytes();
    let b = text.as_bytes();
    let mut errs: Vec<ReportedError> = Vec::new();
    let ghost mut ms: Seq<(KindModel, Span)> = Seq::empty();
    match d {
        Directive::SectionHeader(h) => {
            match checker.visit_section_header(text, &h.obj_name) {
                DiagResult::Reported(mut es) => {
                    proof {
                        ms = checker.section_header_diag(t, h.obj_name)->Reported_0;
                    }
                    errs.append(&mut es);
                },
                _ => {},
            }
        },
        Directive::Kvp(k) => {
            match checker.visit_kvp(k.op, text, &k.ident, &k.value) {
                DiagResult::Reported(mut es) => {
                    proof {
                        ms = checker.kvp_diag(t, k.op, k.ident, k.value)->Reported_0;
                    }
                    errs.append(&mut es);
                },
                _ => {},
            }
            if crate::parse::line_ends_backslashes(b, k.value) {
                let ls = scan_last_line_start(b, k.value.0, k.value.1);
                let mut e2 = report_one(
                    ErrorKind::Custom("Trailing \\\\ without following line".to_owned()),
                    Span(ls, k.value.1),
                );
                proof {
                    lemma_errs_model_app(errs@, ms, e2@, trailing_errs(t, k.value));
                    ms = ms + trailing_errs(t, k.value);
                }
                errs.append(&mut e2);
            }
        },
        Directive::Unknown(u) => {
            match checker.visit_unknown(text, &u.span) {
                DiagResult::Reported(mut es) => {
                    proof {
                        ms = checker.unknown_diag(t, u.span)->Reported_0;
                    }
                    errs.append(&mut es);
                    match u.prev_span {
                        Option::Some(ps) => {
                            if !crate::parse::line_ends_backslashes(b, ps) {
                                let te = scan_rtrim(b, ps.0, ps.1);
                                match scan_rfind_backslashes(b, ps.0, te) {
                                    Option::Some(j) => {
                                        let mut e3 = report_one(
                                            ErrorKind::SpaceAfterMultiline,
                                            Span(j, u.span.1),
                                        );
                                        proof {
                                            lemma_errs_model_app(
                                                errs@,
                                                ms,
                                                e3@,
                                                space_after_errs(t, *u),
                                            );
                                            ms = ms + space_after_errs(t, *u);
                                        }
                                        errs.append(&mut e3);
                                    },
                                    Option::None => {},
                                }
                            }
                        },
                        Option::None => {},
                    }
                },
                _ => {},
            }
        },
    }
    proof {
        assert(ms =~= dir_errs(*checker, t, *d));
    }
    errs
}

impl<'a> Directives<'a> {
    /// Walks the directives in source order and collects every diagnostic
    /// the validator reports, in the order detected. A pure function of
    /// the text, the directives and the validator's rules: repeated passes
    /// yield identical diagnostics.
    pub fn validate<V: Validator>(&self, checker: &V) -> (errs: Vec<ReportedError>)
        requires
            forall|k: int|
                0 <= k < self.directives@.len() ==> crate::parse::directive_wf(
                    self.text.spec_bytes(),
                    #[trigger] self.directives@[k],
                ),
        ensures
            errs_model(
                errs@,
                spec_validate(*checker, self.text.spec_bytes(), self.directives@, 0),
            ),
            errs_spans_wf(errs@, self.text.spec_bytes().len() as int),
    {
        let ghost t = self.text.spec_bytes();
        let mut errs: Vec<ReportedError> = Vec::new();
        let ghost mut ms: Seq<(KindModel, Span)> = Seq::empty();
        let nd = self.directives.len();
        let mut i: usize = 0;
        while i < nd
            invariant
                i <= nd,
                nd == self.directives@.len(),
                t == self.text.spec_bytes(),
                forall|k: int|
                    0 <= k < self.directives@.len() ==> crate::parse::directive_wf(
                        self.text.spec_bytes(),
                        #[trigger] self.directives@[k],
                    ),
                errs_model(errs@, ms),
                errs_spans_wf(errs@, t.len() as int),
                spec_validate(*checker, t, self.directives@, 0) == ms + spec_validate(
                    *checker,
                    t,
                    self.directives@,
                    i as int,
                ),
            decreases nd - i,
        {
            let d = self.directives[i];
            assert(d == self.directives@[i as int]);
            let mut es = directive_errors(checker, self.text, &d);
            proof {
                lemma_errs_model_app(errs@, ms, es@, dir_errs(*checker, t, d));
                let old_ms = ms;
                ms = ms + dir_errs(*checker, t, d);
                assert(spec_validate(*checker, t, self.directives@, i as int) == dir_errs(
                    *checker,
                    t,
                    self.directives@[i as int],
                ) + spec_validate(*checker, t, self.directives@, i + 1));
                assert(old_ms + spec_validate(*checker, t, self.directives@, i as int) =~= ms
                    + spec_validate(*checker, t, self.directives@, i + 1));
            }
            errs.append(&mut es);
            i = i + 1;
        }
        errs
    }
}

// ------------------------------------------------------------------
// Determinism
// ------------------------------------------------------------------

/// Two diagnostic kinds agree: same category, and for dynamically built
/// messages, the same characters.
pub open spec fn kinds_agree(k1: ErrorKind, k2: ErrorKind) -> bool {
    match (k1, k2) {
        (ErrorKind::InvalidIdent, ErrorKind::InvalidIdent) => true,
        (ErrorKind::MalformedHeader, ErrorKind::MalformedHeader) => true,
        (ErrorKind::SpaceAfterMultiline, ErrorKind::SpaceAfterMultiline) => true,
        (ErrorKind::SlashSlashComment, ErrorKind::SlashSlashComment) => true,
        (ErrorKind::BadValue, ErrorKind::BadValue) => true,
        (ErrorKind::Custom(s1), ErrorKind::Custom(s2)) => s1@ == s2@,
        (ErrorKind::Other, ErrorKind::Other) => true,
        _ => false,
    }
}

/// Validation is deterministic and order-preserving: any two passes over
/// the same text and directives yield diagnostic lists of the same length
/// whose entries agree pairwise in kind, message bytes, and span.
pub proof fn lemma_validate_deterministic(
    e1: Seq<ReportedError>,
    e2: Seq<ReportedError>,
    ms: Seq<(KindModel, Span)>,
)
    requires
        errs_model(e1, ms),
        errs_model(e2, ms),
    ensures
        e1.len() == e2.len(),
        forall|i: int|
            0 <= i < e1.len() ==> (#[trigger] e1[i]).span == e2[i].span && kinds_agree(
                e1[i].kind,
                e2[i].kind,
            ),
{
    assert forall|i: int|
        0 <= i < e1.len() implies (#[trigger] e1[i]).span == e2[i].span && kinds_agree(
        e1[i].kind,
        e2[i].kind,
    ) by {
        assert(kind_models(e1[i].kind, ms[i].0));
        assert(kind_models(e2[i].kind, ms[i].0));
    }
}

} // verus!
