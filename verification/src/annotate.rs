//! The editor adapter's core: runs the default validator over a source
//! string and resolves each diagnostic to 1-based line/column coordinates
//! with a human-readable message.

use crate::check::{
    spec_validate, ErrorKind, KindModel, ReportedError, SimpleSyntaxValidator,
};
use crate::parse::{spec_directives, Directives};
use vstd::prelude::*;
use vstd::string::StringSliceAdditionalSpecFns;

verus! {

/// One diagnostic resolved for display: the message, and the 1-based
/// line/column coordinates of both span endpoints.
#[derive(Clone, Debug, PartialEq, Eq)]
pub struct Annotation {
    pub err: String,
    pub line: u32,
    pub col: u32,
    pub eline: u32,
    pub ecol: u32,
}

/// The annotations of one source text, in diagnostic order.
#[derive(Debug, PartialEq, Eq)]
pub struct Annotations {
    pub annots: Vec<Annotation>,
}

/// The display message of a diagnostic kind.
pub open spec fn message_of(k: ErrorKind) -> Seq<char> {
    match k {
        ErrorKind::InvalidIdent => "Invalid identifier"@,
        ErrorKind::MalformedHeader => "Invalid header. The first character of a header line must be `[` and the last must be `]`."@,
        ErrorKind::SpaceAfterMultiline => "Unrecognized directive (space after backslashes)"@,
        ErrorKind::SlashSlashComment => "UnrealScript-style comment (please use `;`)"@,
        ErrorKind::BadValue => "Bad Value"@,
        ErrorKind::Custom(s) => s@,
        ErrorKind::Other => "Invalid config directive"@,
    }
}

/// The display message of a diagnostic kind's model.
pub open spec fn model_message_of(m: KindModel) -> Seq<char> {
    match m {
        KindModel::InvalidIdent => "Invalid identifier"@,
        KindModel::MalformedHeader => "Invalid header. The first character of a header line must be `[` and the last must be `]`."@,
        KindModel::SpaceAfterMultiline => "Unrecognized directive (space after backslashes)"@,
        KindModel::SlashSlashComment => "UnrealScript-style comment (please use `;`)"@,
        KindModel::BadValue => "Bad Value"@,
        KindModel::Custom(s) => s,
        KindModel::Other => "Invalid config directive"@,
    }
}

/// Chooses the display message for a diagnostic kind.
pub fn error_message(kind: &ErrorKind) -> (r: String)
    ensures
        r@ == message_of(*kind),
{
    match kind {
        ErrorKind::InvalidIdent => "Invalid identifier".to_owned(),
        ErrorKind::MalformedHeader => "Invalid header. The first character of a header line must be `[` and the last must be `]`.".to_owned(),
        ErrorKind::SpaceAfterMultiline => "Unrecognized directive (space after backslashes)".to_owned(),
        ErrorKind::SlashSlashComment => "UnrealScript-style comment (please use `;`)".to_owned(),
        ErrorKind::BadValue => "Bad Value".to_owned(),
        ErrorKind::Custom(s) => s.clone(),
        ErrorKind::Other => "Invalid config directive".to_owned(),
    }
}

/// The number of `\n` bytes strictly before position `i`.
pub open spec fn newlines_before(t: Seq<u8>, i: int) -> int
    decreases i,
{
    if i <= 0 || i > t.len() {
        0
    } else {
        newlines_before(t, i - 1) + if t[i - 1] == 10 {
            1int
        } else {
            0int
        }
    }
}

/// The 1-based column of byte position `i`, counted in grapheme clusters
/// from the start of its line. The result is a function of the text and
/// the position alone.
pub uninterp spec fn cluster_col(s: Seq<char>, i: int) -> nat;

/// Relies on line_col::LineColLookup: `get_by_cluster` returns the 1-based
/// line of the byte index (lines split at `\n`) and the 1-based
/// grapheme-cluster column within that line; it depends on the text and
/// index alone. It panics on an index past the end of the text, and it
/// slices the text at the index, which panics when the index is not a
/// character boundary; both are required away.
#[verifier::external_body]
fn lookup_line_col(text: &str, index: usize) -> (r: (usize, usize))
    requires
        index <= text.spec_bytes().len(),
        vstd::utf8::is_char_boundary(text.spec_bytes(), index as int),
    ensures
        r.0 as int == 1 + newlines_before(text.spec_bytes(), index as int),
        r.1 as nat == cluster_col(text@, index as int),
        r.1 >= 1,
{
    line_col::LineColLookup::new(text).get_by_cluster(index)
}

/// The largest character boundary at or below `i`: position 0 when no
/// later boundary reaches down to `i`.
pub open spec fn boundary_floor(t: Seq<u8>, i: int) -> int
    decreases i,
{
    if i <= 0 {
        0
    } else if vstd::utf8::is_char_boundary(t, i) {
        i
    } else {
        boundary_floor(t, i - 1)
    }
}

/// Aligns a byte position down to the nearest character boundary. A
/// diagnostic span endpoint can fall inside a multi-byte character when
/// the value sub-grammar reports an offset into collapsed text; the
/// line/column lookup must not be asked for such a position.
fn floor_char_boundary(text: &str, i: usize) -> (r: usize)
    requires
        i <= text.spec_bytes().len(),
    ensures
        r as int == boundary_floor(text.spec_bytes(), i as int),
        r <= i,
        vstd::utf8::is_char_boundary(text.spec_bytes(), r as int),
{
    let ghost t = text.spec_bytes();
    proof {
        broadcast use vstd::utf8::encode_utf8_valid_utf8;
    }
    let mut k = i;
    while k > 0 && !text.is_char_boundary(k)
        invariant
            k <= i <= t.len(),
            t == text.spec_bytes(),
            boundary_floor(t, i as int) == boundary_floor(t, k as int),
        decreases k,
    {
        k = k - 1;
    }
    if k == 0 {
        proof {
            broadcast use vstd::utf8::encode_utf8_valid_utf8;

            assert(vstd::utf8::is_char_boundary(t, 0));
        }
    }
    k
}

/// One resolved annotation corresponds to one diagnostic of the model:
/// the message of its kind, and the line/column coordinates of each span
/// endpoint, aligned down to a character boundary.
pub open spec fn annot_models(
    a: Annotation,
    t: Seq<u8>,
    chars: Seq<char>,
    m: (KindModel, crate::parse::Span),
) -> bool {
    let lo = boundary_floor(t, m.1.0 as int);
    let hi = boundary_floor(t, m.1.1 as int);
    &&& a.err@ == model_message_of(m.0)
    &&& a.line == (1 + newlines_before(t, lo)) as u32
    &&& a.col == cluster_col(chars, lo) as u32
    &&& a.eline == (1 + newlines_before(t, hi)) as u32
    &&& a.ecol == cluster_col(chars, hi) as u32
}

/// Parses the input, runs the default validator, and resolves every
/// diagnostic to line/column coordinates with its display message, in
/// diagnostic order.
pub fn check_inner(input: &str) -> (r: Annotations)
    ensures
        ({
            let t = input.spec_bytes();
            let ms = spec_validate(SimpleSyntaxValidator, t, spec_directives(t), 0);
            &&& r.annots@.len() == ms.len()
            &&& forall|i: int|
                0 <= i < ms.len() ==> annot_models(#[trigger] r.annots@[i], t, input@, ms[i])
        }),
{
    let ghost t = input.spec_bytes();
    let b = input.as_bytes();
    let n = b.len();
    let directives = Directives::from_text(input);
    proof {
        crate::parse::lemma_directives_wf(t);
    }
    let errors = directives.validate(&SimpleSyntaxValidator);
    let ghost ms = spec_validate(SimpleSyntaxValidator, t, spec_directives(t), 0);
    let mut annots: Vec<Annotation> = Vec::new();
    let ne = errors.len();
    let mut i: usize = 0;
    while i < ne
        invariant
            i <= ne,
            ne == errors@.len(),
            t == input.spec_bytes(),
            ms == spec_validate(SimpleSyntaxValidator, t, spec_directives(t), 0),
            crate::check::errs_model(errors@, ms),
            crate::check::errs_spans_wf(errors@, t.len() as int),
            annots@.len() == i,
            forall|k: int| 0 <= k < i ==> annot_models(#[trigger] annots@[k], t, input@, ms[k]),
        decreases ne - i,
    {
        let e = &errors[i];
        assert(e.span == ms[i as int].1);
        let lo = floor_char_boundary(input, e.span.0);
        let hi = floor_char_boundary(input, e.span.1);
        let (line, col) = lookup_line_col(input, lo);
        let (eline, ecol) = lookup_line_col(input, hi);
        let err = error_message(&e.kind);
        assert(err@ == model_message_of(ms[i as int].0)) by {
            assert(crate::check::kind_models(e.kind, ms[i as int].0));
        }
        annots.push(
            Annotation {
                err,
                line: #[verifier::truncate] (line as u32),
                col: #[verifier::truncate] (col as u32),
                eline: #[verifier::truncate] (eline as u32),
                ecol: #[verifier::truncate] (ecol as u32),
            },
        );
        i = i + 1;
    }
    Annotations { annots }
}

} // verus!