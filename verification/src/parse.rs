//! The directive layer: byte-range spans, the directive data model, and the
//! line-oriented recognizer that splits source text into directives.
//!
//! Every structural record references the input text by byte-range span only;
//! nothing is copied. The recognizer is tolerant: malformed input yields
//! `Unknown` directives, never an error.

use vstd::prelude::*;
use vstd::string::StringSliceAdditionalSpecFns;

verus! {

/// A half-open byte range into the source text.
#[derive(Clone, Copy, Debug, PartialEq, Eq, Structural)]
pub struct Span(pub usize, pub usize);

impl Span {
    /// The range lies within a text of `n` bytes and does not run backwards.
    pub open spec fn wf(self, n: int) -> bool {
        self.0 <= self.1 <= n
    }
}

/// Builds a span from unbounded offsets; lossless when both fit in `usize`.
pub open spec fn sp(a: int, b: int) -> Span {
    Span(a as usize, b as usize)
}

/// A bare identifier, as a span over the source text.
#[derive(Clone, Copy, Debug, PartialEq, Eq, Structural)]
pub struct Identifier {
    pub span: Span,
}

/// A section header line: the full line, plus the interior between the
/// brackets (excluding exactly one leading `[` and one trailing `]`).
#[derive(Clone, Copy, Debug, PartialEq, Eq, Structural)]
pub struct SectionHeader {
    pub span: Span,
    pub obj_name: Span,
}

/// The operation a key-value pair applies, selected by the leading sigil
/// byte of the line: `+` inserts if not present, `.` inserts, `-` removes,
/// `!` clears, and anything else sets.
#[derive(Clone, Copy, Debug, PartialEq, Eq, Structural)]
pub enum KvpOperation {
    Assign,
    Insert,
    InsertUnique,
    Remove,
    Clear,
}

/// The operation selected by a leading byte.
pub open spec fn op_of(b: u8) -> KvpOperation {
    if b == 43 {
        KvpOperation::InsertUnique  // '+'
    } else if b == 46 {
        KvpOperation::Insert  // '.'
    } else if b == 45 {
        KvpOperation::Remove  // '-'
    } else if b == 33 {
        KvpOperation::Clear  // '!'
    } else {
        KvpOperation::Assign
    }
}

/// The sigil byte that selects an operation other than plain assignment.
pub open spec fn sigil_of(op: KvpOperation) -> u8 {
    match op {
        KvpOperation::InsertUnique => 43,
        KvpOperation::Insert => 46,
        KvpOperation::Remove => 45,
        KvpOperation::Clear => 33,
        KvpOperation::Assign => 0,
    }
}

impl From<u8> for KvpOperation {
    fn from(value: u8) -> (r: Self) {
        if value == 43 {
            KvpOperation::InsertUnique
        } else if value == 46 {
            KvpOperation::Insert
        } else if value == 45 {
            KvpOperation::Remove
        } else if value == 33 {
            KvpOperation::Clear
        } else {
            KvpOperation::Assign
        }
    }
}

impl vstd::std_specs::convert::FromSpecImpl<u8> for KvpOperation {
    open spec fn obeys_from_spec() -> bool {
        true
    }

    open spec fn from_spec(value: u8) -> Self {
        op_of(value)
    }
}

/// A key-value pair: optional sigil, identifier, `=`, and a value that may
/// be continued across lines by a trailing `\\`.
#[derive(Clone, Copy, Debug, PartialEq, Eq)]
pub struct Kvp {
    pub span: Span,
    pub ident: Span,
    pub value: Span,
    pub op: KvpOperation,
}

/// A line the recognizer could not classify, plus the span of the raw line
/// immediately before it, if any.
#[derive(Clone, Copy, Debug, PartialEq, Eq)]
pub struct Unknown {
    pub span: Span,
    pub prev_span: Option<Span>,
}

/// One recognized top-level construct.
#[derive(Clone, Copy, Debug, PartialEq, Eq)]
pub enum Directive {
    SectionHeader(SectionHeader),
    Kvp(Kvp),
    Unknown(Unknown),
}

/// The source text together with its directives, in source order.
#[derive(Clone, Debug)]
pub struct Directives<'a> {
    pub text: &'a str,
    pub directives: Vec<Directive>,
}

// ------------------------------------------------------------------
// Byte classes
// ------------------------------------------------------------------

/// A line terminator byte: `\n` or `\r`.
pub open spec fn is_eol(b: u8) -> bool {
    b == 10 || b == 13
}

/// A space or tab.
pub open spec fn is_sp_tab(b: u8) -> bool {
    b == 32 || b == 9
}

/// A byte that may appear in a blank (skipped) line.
pub open spec fn is_blank_byte(b: u8) -> bool {
    is_eol(b) || is_sp_tab(b)
}

// ------------------------------------------------------------------
// The line splitter, as a specification
// ------------------------------------------------------------------

/// The first line-terminator position at or after `i`, or the text length.
pub open spec fn next_eol(t: Seq<u8>, i: int) -> int
    decreases t.len() - i,
{
    if i < 0 || i >= t.len() {
        t.len() as int
    } else if is_eol(t[i]) {
        i
    } else {
        next_eol(t, i + 1)
    }
}

/// The first non-terminator position at or after `i`, or the text length.
pub open spec fn skip_eols(t: Seq<u8>, i: int) -> int
    decreases t.len() - i,
{
    if i < 0 || i >= t.len() {
        t.len() as int
    } else if is_eol(t[i]) {
        skip_eols(t, i + 1)
    } else {
        i
    }
}

/// The line spans of the text from offset `i` on. A line ends at the first
/// terminator; after it, the whole run of consecutive terminator bytes is
/// one separator. No line is produced after a final terminator.
pub open spec fn line_spans_from(t: Seq<u8>, i: int) -> Seq<Span>
    decreases t.len() - i,
    via line_spans_from_decreases
{
    if i < 0 || i >= t.len() {
        Seq::empty()
    } else {
        let e = next_eol(t, i);
        if e >= t.len() {
            seq![sp(i, t.len() as int)]
        } else {
            seq![sp(i, e)] + line_spans_from(t, skip_eols(t, e))
        }
    }
}

#[via_fn]
proof fn line_spans_from_decreases(t: Seq<u8>, i: int) {
    if 0 <= i && i < t.len() {
        let e = next_eol(t, i);
        lemma_next_eol(t, i);
        if e < t.len() {
            lemma_skip_eols(t, e + 1);
            assert(skip_eols(t, e) == skip_eols(t, e + 1));
        }
    }
}

/// The line spans of the whole text.
pub open spec fn line_spans(t: Seq<u8>) -> Seq<Span> {
    line_spans_from(t, 0)
}

// ------------------------------------------------------------------
// The directive recognizer, as a specification
// ------------------------------------------------------------------

/// The first position in `[i, end)` holding neither space nor tab, or `end`.
pub open spec fn skip_sp_tab(t: Seq<u8>, i: int, end: int) -> int
    decreases end - i,
{
    if i < 0 || i >= end || end > t.len() {
        end
    } else if is_sp_tab(t[i]) {
        skip_sp_tab(t, i + 1, end)
    } else {
        i
    }
}

/// The first `=` position in `[i, end)`, or `end` if there is none.
pub open spec fn find_eq(t: Seq<u8>, i: int, end: int) -> int
    decreases end - i,
{
    if i < 0 || i >= end || end > t.len() {
        end
    } else if t[i] == 61 {
        i
    } else {
        find_eq(t, i + 1, end)
    }
}

/// The end of `[start, end)` after dropping trailing spaces and tabs,
/// never below `start`.
pub open spec fn rtrim_sp_tab(t: Seq<u8>, start: int, end: int) -> int
    decreases end - start,
{
    if end <= start || end > t.len() || start < 0 {
        end
    } else if is_sp_tab(t[end - 1]) {
        rtrim_sp_tab(t, start, end - 1)
    } else {
        end
    }
}

/// The raw line begins with `[` and ends with `]`.
pub open spec fn is_raw_header(t: Seq<u8>, s: Span) -> bool {
    s.0 < s.1 <= t.len() && t[s.0 as int] == 91 && t[s.1 - 1] == 93
}

/// The raw line ends with the two-byte sequence `\\`.
pub open spec fn ends_backslashes(t: Seq<u8>, s: Span) -> bool {
    s.1 <= t.len() && s.0 + 2 <= s.1 && t[s.1 - 1] == 92 && t[s.1 - 2] == 92
}

/// The raw line consists only of whitespace bytes.
pub open spec fn line_blank(t: Seq<u8>, s: Span) -> bool {
    forall|j: int| s.0 <= j < s.1 && j < t.len() ==> is_blank_byte(#[trigger] t[j])
}

/// The index of the last line absorbed by a continuation starting at line
/// `i`: while the current line ends with `\\` and a next line exists, the
/// next line is absorbed.
pub open spec fn absorb(t: Seq<u8>, lines: Seq<Span>, i: int) -> int
    decreases lines.len() - i,
{
    if 0 <= i && i + 1 < lines.len() && ends_backslashes(t, lines[i]) {
        absorb(t, lines, i + 1)
    } else {
        i
    }
}

/// The key-value pair recognized at line `i`, whose trimmed form contains
/// `=` at absolute position `p`.
pub open spec fn kvp_at(t: Seq<u8>, lines: Seq<Span>, i: int, ts: int, p: int) -> Kvp {
    let s = lines[i];
    let pe = rtrim_sp_tab(t, ts, p);
    let op = op_of(t[ts]);
    let j = absorb(t, lines, i);
    let vend = lines[j].1 as int;
    let i0 = if op == KvpOperation::Assign {
        ts
    } else {
        ts + 1
    };
    Kvp { span: sp(i0, vend), ident: sp(i0, pe), value: sp(p + 1, vend), op }
}

/// The directives recognized from line `i` on.
pub open spec fn directives_from(t: Seq<u8>, lines: Seq<Span>, i: int) -> Seq<Directive>
    decreases lines.len() - i,
    via directives_from_decreases
{
    if i < 0 || i >= lines.len() {
        Seq::empty()
    } else {
        let s = lines[i];
        if is_raw_header(t, s) {
            seq![
                Directive::SectionHeader(
                    SectionHeader { span: s, obj_name: sp(s.0 + 1, s.1 - 1) },
                ),
            ] + directives_from(t, lines, i + 1)
        } else {
            let ts = skip_sp_tab(t, s.0 as int, s.1 as int);
            let p = find_eq(t, ts, s.1 as int);
            if p < s.1 {
                let j = absorb(t, lines, i);
                seq![Directive::Kvp(kvp_at(t, lines, i, ts, p))] + directives_from(
                    t,
                    lines,
                    j + 1,
                )
            } else if !line_blank(t, s) {
                seq![
                    Directive::Unknown(
                        Unknown {
                            span: s,
                            prev_span: if i > 0 {
                                Some(lines[i - 1])
                            } else {
                                None
                            },
                        },
                    ),
                ] + directives_from(t, lines, i + 1)
            } else {
                directives_from(t, lines, i + 1)
            }
        }
    }
}

#[via_fn]
proof fn directives_from_decreases(t: Seq<u8>, lines: Seq<Span>, i: int) {
    if 0 <= i < lines.len() {
        lemma_absorb_bounds(t, lines, i);
    }
}

/// A continuation never walks backwards nor past the last line.
pub proof fn lemma_absorb_bounds(t: Seq<u8>, lines: Seq<Span>, i: int)
    requires
        0 <= i < lines.len(),
    ensures
        i <= absorb(t, lines, i) < lines.len(),
    decreases lines.len() - i,
{
    if i + 1 < lines.len() && ends_backslashes(t, lines[i]) {
        lemma_absorb_bounds(t, lines, i + 1);
    }
}

/// The directives recognized in the whole text.
pub open spec fn spec_directives(t: Seq<u8>) -> Seq<Directive> {
    directives_from(t, line_spans(t), 0)
}

// ------------------------------------------------------------------
// Executable scanning helpers
// ------------------------------------------------------------------

/// Finds the first line terminator at or after `i`.
pub(crate) fn scan_eol(b: &[u8], i: usize) -> (r: usize)
    requires
        i <= b@.len(),
    ensures
        r == next_eol(b@, i as int),
        i <= r <= b@.len(),
{
    let n = b.len();
    let mut k = i;
    while k < n && !(b[k] == 10 || b[k] == 13)
        invariant
            i <= k <= n,
            n == b@.len(),
            next_eol(b@, i as int) == next_eol(b@, k as int),
        decreases n - k,
    {
        k = k + 1;
    }
    k
}

/// Finds the first non-terminator byte at or after `i`.
fn scan_skip_eols(b: &[u8], i: usize) -> (r: usize)
    requires
        i <= b@.len(),
    ensures
        r == skip_eols(b@, i as int),
        i <= r <= b@.len(),
{
    let n = b.len();
    let mut k = i;
    while k < n && (b[k] == 10 || b[k] == 13)
        invariant
            i <= k <= n,
            n == b@.len(),
            skip_eols(b@, i as int) == skip_eols(b@, k as int),
        decreases n - k,
    {
        k = k + 1;
    }
    k
}

/// Finds the first byte in `[i, end)` that is neither space nor tab.
pub(crate) fn scan_skip_sp_tab(b: &[u8], i: usize, end: usize) -> (r: usize)
    requires
        i <= end <= b@.len(),
    ensures
        r == skip_sp_tab(b@, i as int, end as int),
        i <= r <= end,
{
    let mut k = i;
    while k < end && (b[k] == 32 || b[k] == 9)
        invariant
            i <= k <= end <= b@.len(),
            skip_sp_tab(b@, i as int, end as int) == skip_sp_tab(b@, k as int, end as int),
        decreases end - k,
    {
        k = k + 1;
    }
    k
}

/// Finds the first `=` in `[i, end)`; returns `end` if there is none.
fn scan_find_eq(b: &[u8], i: usize, end: usize) -> (r: usize)
    requires
        i <= end <= b@.len(),
    ensures
        r == find_eq(b@, i as int, end as int),
        i <= r <= end,
{
    let mut k = i;
    while k < end && b[k] != 61
        invariant
            i <= k <= end <= b@.len(),
            find_eq(b@, i as int, end as int) == find_eq(b@, k as int, end as int),
        decreases end - k,
    {
        k = k + 1;
    }
    k
}

/// Drops trailing spaces and tabs from `[start, end)`, never below `start`.
pub(crate) fn scan_rtrim(b: &[u8], start: usize, end: usize) -> (r: usize)
    requires
        start <= end <= b@.len(),
    ensures
        r == rtrim_sp_tab(b@, start as int, end as int),
        start <= r <= end,
{
    let mut k = end;
    while k > start && (b[k - 1] == 32 || b[k - 1] == 9)
        invariant
            start <= k <= end <= b@.len(),
            rtrim_sp_tab(b@, start as int, end as int) == rtrim_sp_tab(b@, start as int, k as int),
        decreases k,
    {
        k = k - 1;
    }
    k
}

/// Decides whether the raw line consists only of whitespace bytes.
fn scan_line_blank(b: &[u8], s: Span) -> (r: bool)
    requires
        s.0 <= s.1 <= b@.len(),
    ensures
        r == line_blank(b@, s),
{
    let mut k = s.0;
    while k < s.1
        invariant
            s.0 <= k <= s.1 <= b@.len(),
            forall|j: int| s.0 <= j < k ==> is_blank_byte(#[trigger] b@[j]),
        decreases s.1 - k,
    {
        let c = b[k];
        if !(c == 10 || c == 13 || c == 32 || c == 9) {
            assert(!is_blank_byte(b@[k as int]));
            return false;
        }
        k = k + 1;
    }
    true
}

/// Decides whether the raw line ends with the two-byte sequence `\\`.
pub(crate) fn line_ends_backslashes(b: &[u8], s: Span) -> (r: bool)
    requires
        s.0 <= s.1 <= b@.len(),
    ensures
        r == ends_backslashes(b@, s),
{
    s.1 - s.0 >= 2 && b[s.1 - 1] == 92 && b[s.1 - 2] == 92
}

// ------------------------------------------------------------------
// The recognizer
// ------------------------------------------------------------------

/// Splits the text into line spans.
fn split_lines(b: &[u8]) -> (lines: Vec<Span>)
    ensures
        lines@ == line_spans(b@),
{
    let n = b.len();
    let mut lines: Vec<Span> = Vec::new();
    let mut off: usize = 0;
    while off < n
        invariant
            off <= n,
            n == b@.len(),
            line_spans(b@) == lines@ + line_spans_from(b@, off as int),
        decreases n - off,
    {
        let e = scan_eol(b, off);
        if e == n {
            lines.push(Span(off, n));
            off = n;
        } else {
            lines.push(Span(off, e));
            off = scan_skip_eols(b, e);
        }
    }
    lines
}

/// Recognizes the directive sequence over the given line spans.
#[verifier::rlimit(50)]
fn build_directives(b: &[u8], lines: &Vec<Span>) -> (dirs: Vec<Directive>)
    requires
        lines@ == line_spans(b@),
    ensures
        dirs@ == spec_directives(b@),
{
    let n = b.len();
    proof {
        lemma_line_spans_wf(b@);
    }
    let ghost t = b@;
    let mut dirs: Vec<Directive> = Vec::new();
    let mut i: usize = 0;
    while i < lines.len()
        invariant
            lines@ == line_spans(b@),
            i <= lines@.len(),
            lines_wf(b@, lines@),
            spec_directives(b@) == dirs@ + directives_from(b@, lines@, i as int),
            t == b@,
        decreases lines@.len() - i,
    {
        let ghost i0 = i as int;
        let ghost dirs0 = dirs@;
        proof {
            lemma_line_bounds(t, lines@, i as int);
        }
        let s = lines[i];
        assert(s.0 <= s.1 <= t.len());
        if s.1 > s.0 && b[s.0] == 91 && b[s.1 - 1] == 93 {
            let d = Directive::SectionHeader(
                SectionHeader { span: s, obj_name: Span(s.0 + 1, s.1 - 1) },
            );
            dirs.push(d);
            i = i + 1;
            proof {
                lemma_push_step(t, lines@, i0, dirs0, d, i as int);
            }
        } else {
            let ts = scan_skip_sp_tab(b, s.0, s.1);
            let p = scan_find_eq(b, ts, s.1);
            if p < s.1 {
                let (d, j) = recognize_kvp(b, lines, i, ts, p);
                dirs.push(Directive::Kvp(d));
                i = j + 1;
                proof {
                    lemma_push_step(t, lines@, i0, dirs0, Directive::Kvp(d), i as int);
                }
            } else if !scan_line_blank(b, s) {
                let prev = if i > 0 {
                    Some(lines[i - 1])
                } else {
                    None
                };
                let d = Directive::Unknown(Unknown { span: s, prev_span: prev });
                dirs.push(d);
                i = i + 1;
                proof {
                    lemma_push_step(t, lines@, i0, dirs0, d, i as int);
                }
            } else {
                i = i + 1;
            }
        }
    }
    dirs
}

/// One step of the recognizer: if the directives at line `i` unfold to the
/// pushed directive followed by the directives at line `next`, then the
/// accumulated prefix plus the remaining suffix is unchanged.
proof fn lemma_push_step(
    t: Seq<u8>,
    lines: Seq<Span>,
    i: int,
    dirs0: Seq<Directive>,
    d: Directive,
    next: int,
)
    requires
        directives_from(t, lines, i) == seq![d] + directives_from(t, lines, next),
    ensures
        dirs0 + directives_from(t, lines, i) == (dirs0 + seq![d]) + directives_from(t, lines, next),
{
    assert(dirs0 + directives_from(t, lines, i) =~= (dirs0 + seq![d]) + directives_from(
        t,
        lines,
        next,
    ));
}

/// Recognizes the key-value pair at line `i`, whose left-trimmed form holds
/// `=` at position `p`; absorbs continuation lines and returns the pair and
/// the index of the last absorbed line.
#[verifier::rlimit(50)]
fn recognize_kvp(b: &[u8], lines: &Vec<Span>, i: usize, ts: usize, p: usize) -> (r: (Kvp, usize))
    requires
        lines_wf(b@, lines@),
        i < lines@.len(),
        ts == skip_sp_tab(b@, lines@[i as int].0 as int, lines@[i as int].1 as int),
        p == find_eq(b@, ts as int, lines@[i as int].1 as int),
        p < lines@[i as int].1,
    ensures
        r.0 == kvp_at(b@, lines@, i as int, ts as int, p as int),
        i <= r.1 < lines@.len(),
        r.1 == absorb(b@, lines@, i as int),
{
    let ghost t = b@;
    proof {
        lemma_line_bounds(t, lines@, i as int);
    }
    let s = lines[i];
    assert(s.0 <= s.1 <= t.len());
    proof {
        lemma_skip_sp_tab(t, s.0 as int, s.1 as int);
        lemma_find_eq(t, ts as int, s.1 as int);
    }
    let pe = scan_rtrim(b, ts, p);
    let op = KvpOperation::from(b[ts]);
    assert(op == op_of(t[ts as int]));
    let mut j = i;
    while j < lines.len() - 1 && line_ends_backslashes(b, lines[j])
        invariant
            i <= j < lines@.len(),
            lines_wf(b@, lines@),
            t == b@,
            lines@[j as int].wf(t.len() as int),
            absorb(b@, lines@, i as int) == absorb(b@, lines@, j as int),
        decreases lines@.len() - j,
    {
        j = j + 1;
        proof {
            lemma_line_bounds(t, lines@, j as int);
        }
    }
    assert(absorb(t, lines@, i as int) == j);
    let vend = lines[j].1;
    proof {
        lemma_lines_ordered(t, lines@, i as int, j as int);
    }
    let i0 = if matches!(op, KvpOperation::Assign) {
        ts
    } else {
        ts + 1
    };
    assert(op != KvpOperation::Assign ==> pe > ts) by {
        if op != KvpOperation::Assign {
            assert(t[ts as int] != 61);
            assert(p > ts);
            lemma_rtrim_above(t, ts as int, p as int);
        }
    }
    let d = Kvp { span: Span(i0, vend), ident: Span(i0, pe), value: Span(p + 1, vend), op };
    assert(d == kvp_at(t, lines@, i as int, ts as int, p as int));
    (d, j)
}

impl<'a> Directives<'a> {
    /// Splits the source text into directives. Infallible: malformed input
    /// yields `Unknown` directives, and blank lines are skipped.
    pub fn from_text(text: &'a str) -> (r: Directives<'a>)
        ensures
            r.text == text,
            r.directives@ == spec_directives(text.spec_bytes()),
    {
        let b = text.as_bytes();
        let lines = split_lines(b);
        let directives = build_directives(b, &lines);
        Directives { text, directives }
    }
}

// ------------------------------------------------------------------
// Facts about lines
// ------------------------------------------------------------------

/// No line terminator occurs inside the span.
pub open spec fn no_eol_in(t: Seq<u8>, s: Span) -> bool {
    forall|j: int| s.0 <= j < s.1 ==> !is_eol(#[trigger] t[j])
}

/// Every byte in `[a, b)` is a line terminator.
pub open spec fn all_eol_in(t: Seq<u8>, a: int, b: int) -> bool {
    forall|j: int| a <= j < b ==> is_eol(#[trigger] t[j])
}

/// Well-formedness of a line decomposition: every line is an in-bounds range
/// free of terminators, lines are ordered and separated by terminator bytes
/// only, the first line starts at the first byte, and the bytes after the
/// last line are terminators. Opaque: use the extraction lemmas below.
#[verifier::opaque]
pub open spec fn lines_wf(t: Seq<u8>, lines: Seq<Span>) -> bool {
    lines_wf_at(t, lines, 0)
}

/// Extracts the in-bounds and terminator-free facts for one line.
pub proof fn lemma_line_bounds(t: Seq<u8>, lines: Seq<Span>, k: int)
    requires
        lines_wf(t, lines),
        0 <= k < lines.len(),
    ensures
        lines[k].wf(t.len() as int),
        no_eol_in(t, lines[k]),
        lines[k].1 < t.len() ==> is_eol(t[lines[k].1 as int]),
{
    reveal(lines_wf);
}

/// Lines of consecutive index are ordered; more generally the end of any
/// earlier line is at most the end of any later one.
pub proof fn lemma_lines_ordered(t: Seq<u8>, lines: Seq<Span>, i: int, j: int)
    requires
        lines_wf(t, lines),
        0 <= i <= j < lines.len(),
    ensures
        lines[i].1 <= lines[j].1,
        lines[i].0 <= lines[j].0,
    decreases j - i,
{
    reveal(lines_wf);
    if i < j {
        lemma_lines_ordered(t, lines, i + 1, j);
        assert(lines[i].1 < lines[i + 1].0);
        assert(lines[i + 1].0 <= lines[i + 1].1);
    }
}

/// Right-trimming a range whose first byte is not space or tab keeps at
/// least that byte when the range is non-empty.
pub proof fn lemma_rtrim_above(t: Seq<u8>, start: int, end: int)
    requires
        0 <= start < end <= t.len(),
        !is_sp_tab(t[start]),
    ensures
        start < rtrim_sp_tab(t, start, end) <= end,
    decreases end - start,
{
    if end > start + 1 && is_sp_tab(t[end - 1]) {
        lemma_rtrim_above(t, start, end - 1);
    }
}

/// Extracts the separation facts around line `k`: the bytes between it and
/// the following line (or the end of the text) are all terminators.
pub proof fn lemma_lines_gap(t: Seq<u8>, lines: Seq<Span>, k: int)
    requires
        lines_wf(t, lines),
        0 <= k < lines.len(),
    ensures
        k + 1 < lines.len() ==> lines[k].1 < lines[k + 1].0 && all_eol_in(
            t,
            lines[k].1 as int,
            lines[k + 1].0 as int,
        ),
        k + 1 == lines.len() ==> all_eol_in(t, lines[k].1 as int, t.len() as int),
{
    reveal(lines_wf);
}

/// `rtrim_sp_tab` stays within the range it trims.
pub proof fn lemma_rtrim_bounds(t: Seq<u8>, start: int, end: int)
    requires
        0 <= start <= end <= t.len(),
    ensures
        start <= rtrim_sp_tab(t, start, end) <= end,
    decreases end - start,
{
    if start < end && is_sp_tab(t[end - 1]) {
        lemma_rtrim_bounds(t, start, end - 1);
    }
}

/// `lines_wf`, relativized to a decomposition that starts at offset `i`.
pub open spec fn lines_wf_at(t: Seq<u8>, lines: Seq<Span>, i: int) -> bool {
    &&& forall|k: int| 0 <= k < lines.len() ==> (#[trigger] lines[k]).wf(t.len() as int)
    &&& forall|k: int| 0 <= k < lines.len() ==> no_eol_in(t, #[trigger] lines[k])
    &&& forall|k: int|
        0 <= k < lines.len() && lines[k].1 < t.len() ==> is_eol(t[(#[trigger] lines[k]).1 as int])
    &&& forall|k: int| 0 <= k && k + 1 < lines.len() ==> (#[trigger] lines[k]).1 < lines[k + 1].0
    &&& forall|k: int|
        0 <= k && k + 1 < lines.len() ==> all_eol_in(
            t,
            (#[trigger] lines[k]).1 as int,
            lines[k + 1].0 as int,
        )
    &&& (i < t.len() ==> lines.len() > 0 && lines[0].0 == i)
    &&& (lines.len() > 0 ==> all_eol_in(t, lines[lines.len() - 1].1 as int, t.len() as int))
    &&& (i >= t.len() ==> lines.len() == 0)
}

/// `find_eq` finds the first `=`: nothing before it is one, and the found
/// position (if inside the range) is one.
pub proof fn lemma_find_eq(t: Seq<u8>, i: int, end: int)
    requires
        0 <= i <= end <= t.len(),
    ensures
        i <= find_eq(t, i, end) <= end,
        forall|j: int| i <= j < find_eq(t, i, end) ==> t[j] != 61,
        find_eq(t, i, end) < end ==> t[find_eq(t, i, end)] == 61,
    decreases end - i,
{
    if i < end && t[i] != 61 {
        lemma_find_eq(t, i + 1, end);
    }
}

/// `skip_sp_tab` skips exactly the run of spaces and tabs: everything
/// before the result is one, and the result (if inside the range) is not.
pub proof fn lemma_skip_sp_tab(t: Seq<u8>, i: int, end: int)
    requires
        0 <= i <= end <= t.len(),
    ensures
        i <= skip_sp_tab(t, i, end) <= end,
        forall|j: int| i <= j < skip_sp_tab(t, i, end) ==> is_sp_tab(#[trigger] t[j]),
        skip_sp_tab(t, i, end) < end ==> !is_sp_tab(t[skip_sp_tab(t, i, end)]),
    decreases end - i,
{
    if i < end && is_sp_tab(t[i]) {
        lemma_skip_sp_tab(t, i + 1, end);
    }
}

/// `next_eol` finds the first terminator: nothing before it is one, and the
/// found position (if inside the text) is one.
pub proof fn lemma_next_eol(t: Seq<u8>, i: int)
    requires
        0 <= i <= t.len(),
    ensures
        i <= next_eol(t, i) <= t.len(),
        forall|j: int| i <= j < next_eol(t, i) ==> !is_eol(#[trigger] t[j]),
        next_eol(t, i) < t.len() ==> is_eol(t[next_eol(t, i)]),
    decreases t.len() - i,
{
    if i < t.len() && !is_eol(t[i]) {
        lemma_next_eol(t, i + 1);
    }
}

/// `skip_eols` skips exactly the run of terminators: everything before the
/// result is a terminator, and the result (if inside the text) is not.
pub proof fn lemma_skip_eols(t: Seq<u8>, i: int)
    requires
        0 <= i <= t.len(),
    ensures
        i <= skip_eols(t, i) <= t.len(),
        forall|j: int| i <= j < skip_eols(t, i) ==> is_eol(#[trigger] t[j]),
        skip_eols(t, i) < t.len() ==> !is_eol(t[skip_eols(t, i)]),
    decreases t.len() - i,
{
    if i < t.len() && is_eol(t[i]) {
        lemma_skip_eols(t, i + 1);
    }
}

/// The full line decomposition of a text is well formed.
pub proof fn lemma_line_spans_wf(t: Seq<u8>)
    requires
        t.len() <= usize::MAX,
    ensures
        lines_wf(t, line_spans(t)),
{
    reveal(lines_wf);
    lemma_line_spans_wf_from(t, 0);
}

/// Well-formedness of the decomposition from offset `i` on; the offset is at
/// a line start (not mid-separator).
proof fn lemma_line_spans_wf_from(t: Seq<u8>, i: int)
    requires
        0 <= i <= t.len() <= usize::MAX,
    ensures
        lines_wf_at(t, line_spans_from(t, i), i),
    decreases t.len() - i,
{
    let lines = line_spans_from(t, i);
    if i < t.len() {
        let e = next_eol(t, i);
        lemma_next_eol(t, i);
        let first = sp(i, if e >= t.len() { t.len() as int } else { e });
        assert(no_eol_in(t, first));
        if e >= t.len() {
            assert(lines == seq![sp(i, t.len() as int)]);
            assert(all_eol_in(t, t.len() as int, t.len() as int));
        } else {
            let nx = skip_eols(t, e);
            lemma_skip_eols(t, e);
            lemma_line_spans_wf_from(t, nx);
            let rest = line_spans_from(t, nx);
            assert(lines == seq![sp(i, e)] + rest);
            assert(lines[0] == sp(i, e));
            assert(lines.len() == 1 + rest.len());
            assert(all_eol_in(t, e, nx));
            assert forall|k: int| 1 <= k < lines.len() implies lines[k] == rest[k - 1] by {}
            if rest.len() == 0 {
                assert(nx == t.len() as int);
                assert(all_eol_in(t, lines[lines.len() - 1].1 as int, t.len() as int));
            } else {
                assert(nx < t.len());
                assert(rest[0].0 == nx);
                assert(lines[0].1 == e < nx);
                assert forall|k: int| 0 <= k && k + 1 < lines.len() implies (#[trigger] lines[k]).1
                    < lines[k + 1].0 by {
                    if k == 0 {
                        assert(lines[1] == rest[0]);
                    } else {
                        assert(lines[k] == rest[k - 1] && lines[k + 1] == rest[k]);
                    }
                }
                assert forall|k: int| 0 <= k && k + 1 < lines.len() implies all_eol_in(
                    t,
                    (#[trigger] lines[k]).1 as int,
                    lines[k + 1].0 as int,
                ) by {
                    if k == 0 {
                        assert(lines[1] == rest[0]);
                    } else {
                        assert(lines[k] == rest[k - 1] && lines[k + 1] == rest[k]);
                    }
                }
                assert(lines[lines.len() - 1] == rest[rest.len() - 1]);
            }
            assert forall|k: int| 0 <= k < lines.len() implies (#[trigger] lines[k]).wf(
                t.len() as int,
            ) by {
                if k >= 1 {
                    assert(lines[k] == rest[k - 1]);
                }
            }
            assert forall|k: int| 0 <= k < lines.len() implies no_eol_in(t, #[trigger] lines[k]) by {
                if k >= 1 {
                    assert(lines[k] == rest[k - 1]);
                }
            }
            assert forall|k: int| 0 <= k < lines.len() && lines[k].1 < t.len() implies is_eol(
                t[(#[trigger] lines[k]).1 as int],
            ) by {
                if k >= 1 {
                    assert(lines[k] == rest[k - 1]);
                }
            }
        }
    }
}

// ------------------------------------------------------------------
// Facts about directives
// ------------------------------------------------------------------

/// The top-level span of a directive.
pub open spec fn directive_span(d: Directive) -> Span {
    match d {
        Directive::SectionHeader(h) => h.span,
        Directive::Kvp(k) => k.span,
        Directive::Unknown(u) => u.span,
    }
}

/// Well-formedness of one recognized directive over the text: every span is
/// in bounds; a header keeps its brackets and its interior span; a key-value
/// pair nests its identifier and value inside its own span, and when its
/// operation is not `Assign` the byte just before the identifier is the
/// matching sigil.
pub open spec fn directive_wf(t: Seq<u8>, d: Directive) -> bool {
    match d {
        Directive::SectionHeader(h) => {
            &&& h.span.wf(t.len() as int)
            &&& h.span.0 < h.span.1
            &&& t[h.span.0 as int] == 91
            &&& t[h.span.1 - 1] == 93
            &&& no_eol_in(t, h.span)
            &&& h.obj_name.0 == h.span.0 + 1
            &&& h.obj_name.1 + 1 == h.span.1
        },
        Directive::Kvp(k) => {
            &&& k.span.wf(t.len() as int)
            &&& k.ident.wf(t.len() as int)
            &&& k.value.wf(t.len() as int)
            &&& k.span.0 == k.ident.0
            &&& k.span.1 == k.value.1
            &&& k.ident.1 < k.value.0
            &&& t[k.value.0 - 1] == 61
            &&& (k.op != KvpOperation::Assign ==> k.ident.0 >= 1 && t[k.ident.0 - 1] == sigil_of(
                k.op,
            ))
        },
        Directive::Unknown(u) => {
            &&& u.span.wf(t.len() as int)
            &&& no_eol_in(t, u.span)
            &&& match u.prev_span {
                Some(p) => p.wf(t.len() as int) && p.1 < u.span.0,
                None => true,
            }
        },
    }
}

/// Some directive's span covers byte `j`.
pub open spec fn covered_in(ds: Seq<Directive>, j: int) -> bool {
    exists|k: int|
        0 <= k < ds.len() && (#[trigger] directive_span(ds[k])).0 <= j < directive_span(ds[k]).1
}

/// The directive is a key-value pair whose consumed sigil sits at byte `j`.
pub open spec fn consumed_sigil(d: Directive, j: int) -> bool {
    d matches Directive::Kvp(kv) && kv.op != KvpOperation::Assign && kv.span.0 == j + 1
}

/// Byte `j` is the consumed sigil of some recognized key-value pair.
pub open spec fn sigil_at(ds: Seq<Directive>, j: int) -> bool {
    exists|k: int| 0 <= k < ds.len() && consumed_sigil(#[trigger] ds[k], j)
}

/// The start offset of the suffix of the recognition that begins at line `i`.
pub open spec fn dir_lo(t: Seq<u8>, lines: Seq<Span>, i: int) -> int {
    if i < lines.len() {
        lines[i].0 as int
    } else {
        t.len() as int
    }
}

/// Prepending one directive to a recognized suffix: how coverage and sigil
/// positions decompose.
proof fn lemma_cover_shift(d: Directive, rest: Seq<Directive>, j: int)
    ensures
        covered_in(seq![d] + rest, j) <==> ((directive_span(d).0 <= j < directive_span(d).1)
            || covered_in(rest, j)),
        sigil_at(seq![d] + rest, j) <==> (consumed_sigil(d, j) || sigil_at(rest, j)),
{
    let ds = seq![d] + rest;
    assert(ds[0] == d);
    assert(forall|k: int| 0 <= k < rest.len() ==> ds[k + 1] == #[trigger] rest[k]);
    if covered_in(ds, j) {
        let k = choose|k: int|
            0 <= k < ds.len() && (#[trigger] directive_span(ds[k])).0 <= j < directive_span(
                ds[k],
            ).1;
        if k > 0 {
            assert(rest[k - 1] == ds[k]);
            assert(covered_in(rest, j));
        }
    }
    if covered_in(rest, j) {
        let k = choose|k: int|
            0 <= k < rest.len() && (#[trigger] directive_span(rest[k])).0 <= j < directive_span(
                rest[k],
            ).1;
        assert(directive_span(ds[k + 1]).0 <= j < directive_span(ds[k + 1]).1);
        assert(covered_in(ds, j));
    }
    if sigil_at(ds, j) {
        let k = choose|k: int| 0 <= k < ds.len() && consumed_sigil(#[trigger] ds[k], j);
        if k > 0 {
            assert(rest[k - 1] == ds[k]);
            assert(sigil_at(rest, j));
        }
    }
    if sigil_at(rest, j) {
        let k = choose|k: int| 0 <= k < rest.len() && consumed_sigil(#[trigger] rest[k], j);
        assert(consumed_sigil(ds[k + 1], j));
        assert(sigil_at(ds, j));
    }
}

/// The combined well-formedness, ordering and coverage facts for the
/// directives recognized from line `i` on.
proof fn lemma_directives_from_props(t: Seq<u8>, lines: Seq<Span>, i: int)
    requires
        t.len() <= usize::MAX,
        lines_wf(t, lines),
        0 <= i <= lines.len(),
    ensures
        forall|k: int|
            0 <= k < directives_from(t, lines, i).len() ==> directive_wf(
                t,
                #[trigger] directives_from(t, lines, i)[k],
            ),
        forall|k: int|
            0 <= k < directives_from(t, lines, i).len() ==> dir_lo(t, lines, i) <= directive_span(
                #[trigger] directives_from(t, lines, i)[k],
            ).0,
        forall|k1: int, k2: int|
            0 <= k1 < k2 < directives_from(t, lines, i).len() ==> directive_span(
                #[trigger] directives_from(t, lines, i)[k1],
            ).1 <= directive_span(#[trigger] directives_from(t, lines, i)[k2]).0,
        forall|j: int|
            dir_lo(t, lines, i) <= j < t.len() && !covered_in(directives_from(t, lines, i), j)
                ==> is_blank_byte(#[trigger] t[j]) || sigil_at(directives_from(t, lines, i), j),
    decreases lines.len() - i,
{
    if i >= lines.len() {
        return ;
    }
    let ds = directives_from(t, lines, i);
    let s = lines[i];
    let lo = dir_lo(t, lines, i);
    lemma_line_bounds(t, lines, i);
    if is_raw_header(t, s) {
        let d = Directive::SectionHeader(SectionHeader { span: s, obj_name: sp(s.0 + 1, s.1 - 1) });
        let rest = directives_from(t, lines, i + 1);
        assert(ds == seq![d] + rest);
        lemma_directives_from_props(t, lines, i + 1);
        lemma_lines_gap(t, lines, i);
        lemma_prepend_props(t, lines, i, d, i + 1);
    } else {
        let ts = skip_sp_tab(t, s.0 as int, s.1 as int);
        let p = find_eq(t, ts, s.1 as int);
        lemma_skip_sp_tab(t, s.0 as int, s.1 as int);
        lemma_find_eq(t, ts, s.1 as int);
        if p < s.1 {
            let j0 = absorb(t, lines, i);
            lemma_absorb_bounds(t, lines, i);
            lemma_lines_ordered(t, lines, i, j0);
            lemma_line_bounds(t, lines, j0);
            lemma_rtrim_bounds(t, ts, p);
            let kv = kvp_at(t, lines, i, ts, p);
            let d = Directive::Kvp(kv);
            let rest = directives_from(t, lines, j0 + 1);
            assert(ds == seq![d] + rest);
            lemma_directives_from_props(t, lines, j0 + 1);
            lemma_lines_gap(t, lines, j0);
            assert(directive_wf(t, d)) by {
                if kv.op != KvpOperation::Assign {
                    assert(t[ts] != 61);
                    assert(p > ts);
                    lemma_rtrim_above(t, ts, p);
                }
            }
            lemma_prepend_props(t, lines, i, d, j0 + 1);
            assert forall|j: int| lo <= j < t.len() && !covered_in(ds, j) implies is_blank_byte(
                #[trigger] t[j],
            ) || sigil_at(ds, j) by {
                lemma_cover_shift(d, rest, j);
                if j < kv.span.0 {
                    if kv.op != KvpOperation::Assign && j == ts {
                        assert(sigil_at(ds, j)) by {
                            assert(ds[0] == d);
                        }
                    } else {
                        assert(is_sp_tab(t[j]));
                    }
                }
            }
        } else if !line_blank(t, s) {
            let d = Directive::Unknown(
                Unknown {
                    span: s,
                    prev_span: if i > 0 {
                        Some(lines[i - 1])
                    } else {
                        None
                    },
                },
            );
            let rest = directives_from(t, lines, i + 1);
            assert(ds == seq![d] + rest);
            lemma_directives_from_props(t, lines, i + 1);
            lemma_lines_gap(t, lines, i);
            assert(directive_wf(t, d)) by {
                if i > 0 {
                    lemma_line_bounds(t, lines, i - 1);
                    lemma_lines_gap(t, lines, i - 1);
                }
            }
            lemma_prepend_props(t, lines, i, d, i + 1);
        } else {
            assert(ds == directives_from(t, lines, i + 1));
            lemma_directives_from_props(t, lines, i + 1);
            lemma_lines_gap(t, lines, i);
            assert forall|j: int| lo <= j < t.len() && !covered_in(ds, j) implies is_blank_byte(
                #[trigger] t[j],
            ) || sigil_at(ds, j) by {
                if j < s.1 {
                    assert(is_blank_byte(t[j]));
                } else if j < dir_lo(t, lines, i + 1) {
                    assert(is_eol(t[j]));
                }
            }
        }
    }
}

/// Shared step for the three directive-producing branches: given the head
/// directive's own facts and the suffix facts, establishes ordering, span
/// lower bounds and coverage for the combined sequence. The head's span must
/// reach from its own line to just before the suffix, with only whitespace
/// or the head's sigil byte uncovered in between.
proof fn lemma_prepend_props(t: Seq<u8>, lines: Seq<Span>, i: int, d: Directive, next: int)
    requires
        t.len() <= usize::MAX,
        lines_wf(t, lines),
        0 <= i < lines.len(),
        i < next <= lines.len(),
        directives_from(t, lines, i) == seq![d] + directives_from(t, lines, next),
        directive_wf(t, d),
        directive_span(d).1 <= dir_lo(t, lines, next),
        lines[i].0 <= directive_span(d).0,
        forall|j: int|
            lines[i].0 <= j < directive_span(d).0 ==> is_sp_tab(#[trigger] t[j]) || consumed_sigil(
                d,
                j,
            ),
        all_eol_in(t, directive_span(d).1 as int, dir_lo(t, lines, next)),
        forall|k: int|
            0 <= k < directives_from(t, lines, next).len() ==> directive_wf(
                t,
                #[trigger] directives_from(t, lines, next)[k],
            ),
        forall|k: int|
            0 <= k < directives_from(t, lines, next).len() ==> dir_lo(t, lines, next)
                <= directive_span(#[trigger] directives_from(t, lines, next)[k]).0,
        forall|k1: int, k2: int|
            0 <= k1 < k2 < directives_from(t, lines, next).len() ==> directive_span(
                #[trigger] directives_from(t, lines, next)[k1],
            ).1 <= directive_span(#[trigger] directives_from(t, lines, next)[k2]).0,
        forall|j: int|
            dir_lo(t, lines, next) <= j < t.len() && !covered_in(
                directives_from(t, lines, next),
                j,
            ) ==> is_blank_byte(#[trigger] t[j]) || sigil_at(directives_from(t, lines, next), j),
    ensures
        forall|k: int|
            0 <= k < directives_from(t, lines, i).len() ==> directive_wf(
                t,
                #[trigger] directives_from(t, lines, i)[k],
            ),
        forall|k: int|
            0 <= k < directives_from(t, lines, i).len() ==> dir_lo(t, lines, i) <= directive_span(
                #[trigger] directives_from(t, lines, i)[k],
            ).0,
        forall|k1: int, k2: int|
            0 <= k1 < k2 < directives_from(t, lines, i).len() ==> directive_span(
                #[trigger] directives_from(t, lines, i)[k1],
            ).1 <= directive_span(#[trigger] directives_from(t, lines, i)[k2]).0,
        forall|j: int|
            dir_lo(t, lines, i) <= j < t.len() && !covered_in(directives_from(t, lines, i), j)
                ==> is_blank_byte(#[trigger] t[j]) || sigil_at(directives_from(t, lines, i), j),
{
    let ds = directives_from(t, lines, i);
    let rest = directives_from(t, lines, next);
    let lo = dir_lo(t, lines, i);
    let lo2 = dir_lo(t, lines, next);
    assert(ds[0] == d);
    assert(forall|k: int| 0 <= k < rest.len() ==> ds[k + 1] == #[trigger] rest[k]);
    assert forall|k1: int, k2: int| 0 <= k1 < k2 < ds.len() implies directive_span(
        #[trigger] ds[k1],
    ).1 <= directive_span(#[trigger] ds[k2]).0 by {
        if k1 == 0 {
            assert(ds[k2] == rest[k2 - 1]);
        } else {
            assert(ds[k1] == rest[k1 - 1] && ds[k2] == rest[k2 - 1]);
        }
    }
    assert forall|j: int| lo <= j < t.len() && !covered_in(ds, j) implies is_blank_byte(
        #[trigger] t[j],
    ) || sigil_at(ds, j) by {
        lemma_cover_shift(d, rest, j);
        if j < directive_span(d).0 {
            if !is_sp_tab(t[j]) {
                assert(sigil_at(ds, j)) by {
                    assert(ds[0] == d);
                }
            }
        } else if j < directive_span(d).1 {
            assert(covered_in(ds, j));
        } else if j < lo2 {
            assert(is_eol(t[j]));
        }
    }
}

/// Every directive recognized in a text is well formed: all spans lie
/// within the text, sub-spans nest inside their directive's span, and the
/// byte before a non-`Assign` key-value identifier is its sigil.
pub proof fn lemma_directives_wf(t: Seq<u8>)
    requires
        t.len() <= usize::MAX,
    ensures
        forall|k: int|
            0 <= k < spec_directives(t).len() ==> directive_wf(
                t,
                #[trigger] spec_directives(t)[k],
            ),
{
    lemma_line_spans_wf(t);
    lemma_directives_from_props(t, line_spans(t), 0);
}

/// The directives of a text claim pairwise disjoint, ordered spans, and
/// every byte outside all directive spans is either whitespace or the
/// consumed sigil immediately before a key-value pair: interleaving the
/// directive slices with the skipped bytes reconstructs the text.
pub proof fn lemma_directive_coverage(t: Seq<u8>)
    requires
        t.len() <= usize::MAX,
    ensures
        forall|k1: int, k2: int|
            0 <= k1 < k2 < spec_directives(t).len() ==> directive_span(
                #[trigger] spec_directives(t)[k1],
            ).1 <= directive_span(#[trigger] spec_directives(t)[k2]).0,
        forall|j: int|
            0 <= j < t.len() && !covered_in(spec_directives(t), j) ==> is_blank_byte(
                #[trigger] t[j],
            ) || sigil_at(spec_directives(t), j),
{
    lemma_line_spans_wf(t);
    lemma_directives_from_props(t, line_spans(t), 0);
    if t.len() > 0 {
        assert(dir_lo(t, line_spans(t), 0) == 0) by {
            reveal(lines_wf);
        }
    }
}

/// Re-parsing the span slice of a section header yields exactly one section
/// header again, spanning the whole slice, and its interior bytes equal the
/// original interior bytes.
pub proof fn lemma_header_reparse(t: Seq<u8>, k: int)
    requires
        t.len() <= usize::MAX,
        0 <= k < spec_directives(t).len(),
        spec_directives(t)[k] is SectionHeader,
    ensures
        ({
            let h = spec_directives(t)[k]->SectionHeader_0;
            let u = t.subrange(h.span.0 as int, h.span.1 as int);
            &&& spec_directives(u) == seq![
                Directive::SectionHeader(
                    SectionHeader { span: sp(0, u.len() as int), obj_name: sp(1, u.len() - 1) },
                ),
            ]
            &&& u.subrange(1, u.len() - 1) == t.subrange(
                h.obj_name.0 as int,
                h.obj_name.1 as int,
            )
        }),
{
    lemma_directives_wf(t);
    let h = spec_directives(t)[k]->SectionHeader_0;
    let u = t.subrange(h.span.0 as int, h.span.1 as int);
    assert(directive_wf(t, spec_directives(t)[k]));
    assert(u.len() >= 2);
    lemma_next_eol(u, 0);
    let e = next_eol(u, 0);
    assert(e == u.len()) by {
        if e < u.len() {
            assert(is_eol(u[e]));
            assert(u[e] == t[h.span.0 + e]);
        }
    }
    assert(line_spans(u) == seq![sp(0, u.len() as int)]);
    let s0 = sp(0, u.len() as int);
    assert(is_raw_header(u, s0)) by {
        assert(u[0] == t[h.span.0 as int]);
        assert(u[u.len() - 1] == t[h.span.1 - 1]);
    }
    assert(directives_from(u, line_spans(u), 1) == Seq::<Directive>::empty());
    assert(spec_directives(u) =~= seq![
        Directive::SectionHeader(
            SectionHeader { span: s0, obj_name: sp(1, u.len() - 1) },
        ),
    ]);
    assert(u.subrange(1, u.len() - 1) =~= t.subrange(h.obj_name.0 as int, h.obj_name.1 as int));
}

} // verus!
