use ue3_config_parser::annotate::{check_inner, error_message, Annotation};
use ue3_config_parser::check::ErrorKind;

#[test]
fn test_weird() {
    let input = "+SpawnDistributionLists=(ListID=\"DefaultLeaders\", \\\\\n    SpawnDistribution[0]=(Template=\"AdvWraithM1\", \t\tMinForceLevel=3, \tMaxForceLevel=7, \tMaxCharactersPerGroup=1, \tSpawnWeight=5), \\\\\n    )";
    let result = check_inner(input);
    assert!(result.annots.is_empty(), "unexpected: {:?}", result.annots);
}

#[test]
fn test_sigma() {
    let input = "[Package.CorrectHeader]\n+MyArray=(Entry[0]=\"Abc\", \\\\\n), \\\\\n), \\\\";
    let result = check_inner(input);
    assert_eq!(
        result.annots,
        vec![Annotation {
            err: "Trailing \\\\ without following line".to_owned(),
            line: 4,
            col: 1,
            eline: 4,
            ecol: 6,
        }]
    );
}

#[test]
fn messages_follow_the_kind() {
    assert_eq!(error_message(&ErrorKind::InvalidIdent), "Invalid identifier");
    assert_eq!(
        error_message(&ErrorKind::MalformedHeader),
        "Invalid header. The first character of a header line must be `[` and the last must be `]`."
    );
    assert_eq!(
        error_message(&ErrorKind::SpaceAfterMultiline),
        "Unrecognized directive (space after backslashes)"
    );
    assert_eq!(
        error_message(&ErrorKind::SlashSlashComment),
        "UnrealScript-style comment (please use `;`)"
    );
    assert_eq!(error_message(&ErrorKind::BadValue), "Bad Value");
    assert_eq!(
        error_message(&ErrorKind::Custom("anything".to_owned())),
        "anything"
    );
    assert_eq!(error_message(&ErrorKind::Other), "Invalid config directive");
}

#[test]
fn annotations_carry_line_and_column() {
    let input = "[Good.Header]\nBad-Key=1\n";
    let result = check_inner(input);
    assert_eq!(result.annots.len(), 1);
    let a = &result.annots[0];
    assert_eq!(a.err, "Invalid identifier");
    assert_eq!((a.line, a.col), (2, 1));
    assert_eq!((a.eline, a.ecol), (2, 8));
}

#[test]
fn endpoints_inside_multibyte_characters_are_aligned_down() {
    // The value sub-grammar reports byte offsets into the collapsed value
    // text, so a diagnostic endpoint can land inside a multi-byte
    // character. The annotation aligns such an endpoint down to the
    // nearest character boundary instead of aborting.
    let input = "K= (\u{e9};)";
    let result = check_inner(input);
    assert_eq!(result.annots.len(), 1);
    let a = &result.annots[0];
    assert_eq!(a.err, "Expected `=`");
    assert_eq!((a.line, a.col), (1, 5));
    assert_eq!((a.eline, a.ecol), (1, 8));
}
