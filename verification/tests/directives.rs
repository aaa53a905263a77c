use ue3_config_parser::check::{ErrorKind, ReportedError, SimpleSyntaxValidator};
use ue3_config_parser::parse::{Directive, Directives, KvpOperation, Span};
use ue3_config_parser::shapes::{matches_key, matches_object};

#[test]
fn check_regex_key() {
    assert!(matches_key("MyProperty"));
    assert!(matches_key("My_Property"));
    assert!(matches_key("My_Property[0]"));
    assert!(matches_key("My_Property[10]"));
    assert!(matches_key("My_Property01"));
    assert!(matches_key("My_Property(1)"));

    assert!(!matches_key("My_Property[01]"));
    assert!(!matches_key("My-Property[01]"));
    assert!(!matches_key("01My_Property"));
    assert!(!matches_key("My_Property[1]a"));
    assert!(!matches_key("My_Property{1}"));
}

#[test]
fn check_regex_object() {
    assert!(matches_object("MyHeader"));
    assert!(matches_object("My_Header_1234"));
    assert!(matches_object("MyPackage.MyHeader"));
    assert!(matches_object("My_Name My_Object"));
    assert!(matches_object("MyPackage345.MyClass678"));

    assert!(!matches_object(" MyHeader"));
    assert!(!matches_object("MyHeader "));
    assert!(!matches_object("01NotAPackage"));
    assert!(!matches_object("Not-A-Package"));
}

#[test]
fn lib_regex_key() {
    assert!(matches_key("MyProperty"));
    assert!(matches_key("My_Property"));
    assert!(matches_key("My_Property[0]"));
    assert!(matches_key("My_Property[10]"));
    assert!(matches_key("My_Property01"));
    assert!(matches_key("My_Property(1)"));

    assert!(!matches_key("My_Property[01]"));
    assert!(!matches_key("My-Property[01]"));
    assert!(!matches_key("01My_Property"));
    assert!(!matches_key("My_Property[1]a"));
    assert!(!matches_key("My_Property{1}"));
}

#[test]
fn lib_regex_object() {
    assert!(matches_object("MyHeader"));
    assert!(matches_object("My_Header_1234"));
    assert!(matches_object("MyPackage.MyHeader"));
    assert!(matches_object("My_Name My_Object"));
    assert!(matches_object("MyPackage345.MyClass678"));

    assert!(!matches_object(" MyHeader"));
    assert!(!matches_object("MyHeader "));
    assert!(!matches_object("01NotAPackage"));
    assert!(!matches_object("Not-A-Package"));
}

#[test]
fn check_buggy_section_header() {
    let header = "[MyPackage.MyClass] ";
    let dirs = Directives::from_text(header);
    assert_eq!(dirs.text, header);
    assert_eq!(dirs.directives.len(), 1);
    match &dirs.directives[0] {
        Directive::Unknown(u) => {
            assert_eq!(u.span, Span(0, 20));
            assert_eq!(u.prev_span, None);
        }
        other => panic!("expected Unknown, got {:?}", other),
    }

    let errs = dirs.validate(&SimpleSyntaxValidator);
    assert_eq!(
        errs,
        vec![ReportedError {
            kind: ErrorKind::MalformedHeader,
            span: Span(0, 20),
        }]
    );
}

#[test]
fn lib_buggy_section_header() {
    let header = "[MyPackage.MyClass] ";
    let dirs = Directives::from_text(header);
    assert_eq!(dirs.directives.len(), 1);
    match &dirs.directives[0] {
        Directive::Unknown(u) => {
            assert_eq!(u.span, Span(0, 20));
            assert_eq!(u.prev_span, None);
        }
        other => panic!("expected Unknown, got {:?}", other),
    }

    let errs = dirs.validate(&SimpleSyntaxValidator);
    assert_eq!(
        errs,
        vec![ReportedError {
            kind: ErrorKind::MalformedHeader,
            span: Span(0, 20),
        }]
    );
}

#[test]
fn check_buggy_backslashes() {
    let header = "\n+MyVariable=(Abc[0]=\"Def\", \\\\ \n    )";
    let dirs = Directives::from_text(header);
    assert_eq!(dirs.directives.len(), 2);
    match &dirs.directives[0] {
        Directive::Kvp(k) => {
            assert_eq!(k.span, Span(2, 31));
            assert_eq!(k.ident, Span(2, 12));
            assert_eq!(k.value, Span(13, 31));
            assert_eq!(k.op, KvpOperation::InsertUnique);
        }
        other => panic!("expected Kvp, got {:?}", other),
    }
    match &dirs.directives[1] {
        Directive::Unknown(u) => {
            assert_eq!(u.span, Span(32, 37));
            assert_eq!(u.prev_span, Some(Span(1, 31)));
        }
        other => panic!("expected Unknown, got {:?}", other),
    }

    let errs = dirs.validate(&SimpleSyntaxValidator);
    assert_eq!(
        errs,
        vec![
            ReportedError {
                kind: ErrorKind::Custom("Expected `=`".to_owned()),
                span: Span(30, 31),
            },
            ReportedError {
                kind: ErrorKind::Other,
                span: Span(32, 37),
            },
            ReportedError {
                kind: ErrorKind::SpaceAfterMultiline,
                span: Span(28, 37),
            },
        ]
    );
}

#[test]
fn check_correct_section_header() {
    let header = "[MyPackage.MyClass]";
    let dirs = Directives::from_text(header);
    assert_eq!(dirs.directives.len(), 1);
    match &dirs.directives[0] {
        Directive::SectionHeader(h) => {
            assert_eq!(h.span, Span(0, 19));
            assert_eq!(h.obj_name, Span(1, 18));
        }
        other => panic!("expected SectionHeader, got {:?}", other),
    }
    assert!(dirs.validate(&SimpleSyntaxValidator).is_empty());
}

#[test]
fn lib_correct_section_header() {
    let header = "[MyPackage.MyClass]";
    let dirs = Directives::from_text(header);
    assert_eq!(dirs.directives.len(), 1);
    match &dirs.directives[0] {
        Directive::SectionHeader(h) => {
            assert_eq!(h.span, Span(0, 19));
            assert_eq!(h.obj_name, Span(1, 18));
        }
        other => panic!("expected SectionHeader, got {:?}", other),
    }
}

#[test]
fn well_formed_continuation_has_no_diagnostics() {
    let input = "+SpawnDistributionLists=(ListID=\"DefaultLeaders\", \\\\\n    SpawnDistribution[0]=(Template=\"AdvWraithM1\", \t\tMinForceLevel=3, \tMaxForceLevel=7, \tMaxCharactersPerGroup=1, \tSpawnWeight=5), \\\\\n    )";
    let dirs = Directives::from_text(input);
    assert_eq!(dirs.directives.len(), 1);
    assert!(matches!(dirs.directives[0], Directive::Kvp(_)));
    let errs = dirs.validate(&SimpleSyntaxValidator);
    assert!(errs.is_empty(), "unexpected: {:?}", errs);
}

#[test]
fn trailing_backslashes_at_end_of_input() {
    let input = "[Package.CorrectHeader]\n+MyArray=(Entry[0]=\"Abc\", \\\\\n), \\\\\n), \\\\";
    let dirs = Directives::from_text(input);
    let errs = dirs.validate(&SimpleSyntaxValidator);
    assert_eq!(
        errs,
        vec![ReportedError {
            kind: ErrorKind::Custom("Trailing \\\\ without following line".to_owned()),
            span: Span(59, 64),
        }]
    );
}

#[test]
fn blank_lines_and_comments_are_skipped() {
    let input = "; a comment\n\n[Section.Name]\nKey=Value\n  \t\n";
    let dirs = Directives::from_text(input);
    // The comment line is an Unknown directive (suppressed by validation);
    // the blank lines produce no directive at all.
    assert_eq!(dirs.directives.len(), 3);
    assert!(matches!(dirs.directives[0], Directive::Unknown(_)));
    assert!(matches!(dirs.directives[1], Directive::SectionHeader(_)));
    assert!(matches!(dirs.directives[2], Directive::Kvp(_)));
    assert!(dirs.validate(&SimpleSyntaxValidator).is_empty());
}

#[test]
fn operations_follow_the_sigil() {
    let input = "A=1\n+B=2\n.C=3\n-D=4\n!E=\n";
    let dirs = Directives::from_text(input);
    let ops: Vec<KvpOperation> = dirs
        .directives
        .iter()
        .map(|d| match d {
            Directive::Kvp(k) => k.op,
            other => panic!("expected Kvp, got {:?}", other),
        })
        .collect();
    assert_eq!(
        ops,
        vec![
            KvpOperation::Assign,
            KvpOperation::InsertUnique,
            KvpOperation::Insert,
            KvpOperation::Remove,
            KvpOperation::Clear,
        ]
    );
    // The sigil byte sits immediately before each identifier.
    match &dirs.directives[1] {
        Directive::Kvp(k) => {
            assert_eq!(&input[k.ident.0..k.ident.1], "B");
            assert_eq!(input.as_bytes()[k.ident.0 - 1], b'+');
        }
        _ => unreachable!(),
    }
    assert!(dirs.validate(&SimpleSyntaxValidator).is_empty());
}

#[test]
fn slash_slash_comment_and_bad_value() {
    let input = "// wrong comment\nA=%\n";
    let dirs = Directives::from_text(input);
    let errs = dirs.validate(&SimpleSyntaxValidator);
    assert_eq!(
        errs,
        vec![
            ReportedError {
                kind: ErrorKind::SlashSlashComment,
                span: Span(0, 16),
            },
            ReportedError {
                kind: ErrorKind::BadValue,
                span: Span(19, 20),
            },
        ]
    );
}

#[test]
fn invalid_header_interior_and_key() {
    let input = "[Bad-Name]\n9Key=1\n";
    let dirs = Directives::from_text(input);
    let errs = dirs.validate(&SimpleSyntaxValidator);
    assert_eq!(
        errs,
        vec![
            ReportedError {
                kind: ErrorKind::InvalidIdent,
                span: Span(1, 9),
            },
            ReportedError {
                kind: ErrorKind::InvalidIdent,
                span: Span(11, 15),
            },
        ]
    );
}

#[test]
fn semicolon_key_suppresses_the_directive() {
    // A key-value pair whose identifier starts with `;` is treated as a
    // mid-line comment and produces no diagnostics at all.
    let input = ";Commented=Value=With=Equals\n";
    let dirs = Directives::from_text(input);
    assert_eq!(dirs.directives.len(), 1);
    assert!(matches!(dirs.directives[0], Directive::Kvp(_)));
    assert!(dirs.validate(&SimpleSyntaxValidator).is_empty());
}

#[test]
fn value_shapes_accepted() {
    let input = "A=\nB=true\nC=FALSE\nD=42\nE=-3.5\nF=+2e10\nG=SomeName\nH=\"anything goes ()[]\"\nI=(X=1)\n";
    let dirs = Directives::from_text(input);
    let errs = dirs.validate(&SimpleSyntaxValidator);
    assert!(errs.is_empty(), "unexpected: {:?}", errs);
}

#[test]
fn whitespace_only_value_is_a_bad_value() {
    let input = "A= \t";
    let dirs = Directives::from_text(input);
    let errs = dirs.validate(&SimpleSyntaxValidator);
    assert_eq!(
        errs,
        vec![ReportedError {
            kind: ErrorKind::BadValue,
            span: Span(2, 4),
        }]
    );
}

#[test]
fn validate_twice_gives_identical_results() {
    let input = "[Bad-Name]\nA=(X=1; Y=2)\n// note\nstray ]\n";
    let dirs = Directives::from_text(input);
    let first = dirs.validate(&SimpleSyntaxValidator);
    let second = dirs.validate(&SimpleSyntaxValidator);
    assert_eq!(first, second);
}

#[test]
fn reparsing_a_header_slice_yields_the_same_header() {
    let input = "Key=1\n[MyPackage.MyClass]\nOther=2\n";
    let dirs = Directives::from_text(input);
    let header = dirs
        .directives
        .iter()
        .find_map(|d| match d {
            Directive::SectionHeader(h) => Some(*h),
            _ => None,
        })
        .expect("one header");
    let slice = &input[header.span.0..header.span.1];
    let again = Directives::from_text(slice);
    assert_eq!(again.directives.len(), 1);
    match &again.directives[0] {
        Directive::SectionHeader(h2) => {
            assert_eq!(
                &slice[h2.obj_name.0..h2.obj_name.1],
                &input[header.obj_name.0..header.obj_name.1]
            );
        }
        other => panic!("expected SectionHeader, got {:?}", other),
    }
}

#[test]
fn directive_spans_cover_the_input() {
    let input = "\n[H.Dr]\n  +K=v \\\\\n more\nplain junk\n\n";
    let dirs = Directives::from_text(input);
    let mut last_end = 0usize;
    for d in &dirs.directives {
        let span = match d {
            Directive::SectionHeader(h) => h.span,
            Directive::Kvp(k) => k.span,
            Directive::Unknown(u) => u.span,
        };
        assert!(span.0 <= span.1 && span.1 <= input.len());
        assert!(last_end <= span.0, "directives overlap");
        // Every byte in the gap is whitespace or a consumed sigil.
        for j in last_end..span.0 {
            let c = input.as_bytes()[j];
            let sigil_before_kvp = j + 1 == span.0
                && matches!(d, Directive::Kvp(k) if k.op != KvpOperation::Assign);
            assert!(
                c == b' ' || c == b'\t' || c == b'\r' || c == b'\n' || sigil_before_kvp,
                "unexpected gap byte {:?} at {}",
                c as char,
                j
            );
        }
        last_end = span.1;
    }
    for j in last_end..input.len() {
        let c = input.as_bytes()[j];
        assert!(c == b' ' || c == b'\t' || c == b'\r' || c == b'\n');
    }
}

#[test]
fn empty_input_has_no_directives() {
    let dirs = Directives::from_text("");
    assert!(dirs.directives.is_empty());
    assert!(dirs.validate(&SimpleSyntaxValidator).is_empty());
}

#[test]
fn carriage_return_line_endings() {
    let input = "[A.B]\r\nK=1\r\nJ=2\r";
    let dirs = Directives::from_text(input);
    assert_eq!(dirs.directives.len(), 3);
    match &dirs.directives[1] {
        Directive::Kvp(k) => {
            assert_eq!(&input[k.ident.0..k.ident.1], "K");
            assert_eq!(&input[k.value.0..k.value.1], "1");
        }
        other => panic!("expected Kvp, got {:?}", other),
    }
    assert!(dirs.validate(&SimpleSyntaxValidator).is_empty());
}

#[test]
fn continuation_error_is_reported_at_the_collapsed_offset() {
    // The struct spans two lines; the sub-grammar failure at the `;` is
    // reported at the byte of the `;` in the original text.
    let input = "A=(X=1, \\\\\n   Y=2; Z=3)";
    let dirs = Directives::from_text(input);
    let errs = dirs.validate(&SimpleSyntaxValidator);
    assert_eq!(errs.len(), 1);
    assert_eq!(errs[0].kind, ErrorKind::Custom("Expected `,` or `)`".to_owned()));
    assert_eq!(errs[0].span.0, input.find(';').unwrap());
}
