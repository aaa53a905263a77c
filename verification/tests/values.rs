use ue3_config_parser::shapes::{matches_bool, matches_ident, matches_num};
use ue3_config_parser::parse::Span;
use ue3_config_parser::struct_syntax::{parse, PropName, PropValue, Struct};

fn slice(text: &str, span: Span) -> &str {
    &text[span.0..span.1]
}

fn name_of(text: &str, n: &PropName) -> (String, Option<u32>) {
    (slice(text, n.name).to_owned(), n.idx)
}

#[test]
fn test_ok_tokens() {
    let test_string = "(Prop1=1.0, Prop2=\"Abc\")";
    let st: Struct = parse(test_string).expect("parses");
    assert_eq!(st.children.len(), 2);

    let (n0, v0) = &st.children[0];
    assert_eq!(name_of(test_string, n0), ("Prop1".to_owned(), None));
    match v0 {
        PropValue::Terminal(s) => assert_eq!(slice(test_string, *s), "1.0"),
        other => panic!("expected Terminal, got {:?}", other),
    }

    let (n1, v1) = &st.children[1];
    assert_eq!(name_of(test_string, n1), ("Prop2".to_owned(), None));
    match v1 {
        PropValue::Terminal(s) => assert_eq!(slice(test_string, *s), "\"Abc\""),
        other => panic!("expected Terminal, got {:?}", other),
    }
}

#[test]
fn test_small() {
    let test_string = "(Prop1=1.0, Prop2[0]=(T=\"A\", W=5),)";
    let st = parse(test_string).expect("parses");
    assert_eq!(st.children.len(), 2);

    let (n0, v0) = &st.children[0];
    assert_eq!(name_of(test_string, n0), ("Prop1".to_owned(), None));
    assert!(matches!(v0, PropValue::Terminal(s) if slice(test_string, *s) == "1.0"));

    let (n1, v1) = &st.children[1];
    assert_eq!(name_of(test_string, n1), ("Prop2".to_owned(), Some(0)));
    match v1 {
        PropValue::Struct(inner) => {
            assert_eq!(inner.children.len(), 2);
            let (m0, w0) = &inner.children[0];
            assert_eq!(name_of(test_string, m0), ("T".to_owned(), None));
            assert!(matches!(w0, PropValue::Terminal(s) if slice(test_string, *s) == "\"A\""));
            let (m1, w1) = &inner.children[1];
            assert_eq!(name_of(test_string, m1), ("W".to_owned(), None));
            assert!(matches!(w1, PropValue::Terminal(s) if slice(test_string, *s) == "5"));
        }
        other => panic!("expected Struct, got {:?}", other),
    }
}

#[test]
fn test_semi() {
    let test_string = "(Prop1=1.0; Prop2=\"Abc\")";
    let err = parse(test_string).expect_err("must fail");
    assert_eq!(err.pos, 10);
    assert_eq!(err.msg, "Expected `,` or `)`");
}

#[test]
fn exciting() {
    let test_string = "(ItemName=\"EMPGrenadeMk2\", Difficulties=(0,1,2), NewCost=(ResourceCosts[0]=(ItemTemplateName=\"Supplies\", Quantity=25)))";
    let st = parse(test_string).expect("parses");
    assert_eq!(st.children.len(), 3);

    let (n0, v0) = &st.children[0];
    assert_eq!(name_of(test_string, n0), ("ItemName".to_owned(), None));
    assert!(
        matches!(v0, PropValue::Terminal(s) if slice(test_string, *s) == "\"EMPGrenadeMk2\"")
    );

    let (n1, v1) = &st.children[1];
    assert_eq!(name_of(test_string, n1), ("Difficulties".to_owned(), None));
    match v1 {
        PropValue::Array(a) => {
            let elems: Vec<&str> = a
                .elems
                .iter()
                .map(|e| match e {
                    PropValue::Terminal(s) => slice(test_string, *s),
                    other => panic!("expected Terminal, got {:?}", other),
                })
                .collect();
            assert_eq!(elems, vec!["0", "1", "2"]);
        }
        other => panic!("expected Array, got {:?}", other),
    }

    let (n2, v2) = &st.children[2];
    assert_eq!(name_of(test_string, n2), ("NewCost".to_owned(), None));
    match v2 {
        PropValue::Struct(outer) => {
            assert_eq!(outer.children.len(), 1);
            let (m0, w0) = &outer.children[0];
            assert_eq!(name_of(test_string, m0), ("ResourceCosts".to_owned(), Some(0)));
            match w0 {
                PropValue::Struct(inner) => {
                    assert_eq!(inner.children.len(), 2);
                    let (p0, q0) = &inner.children[0];
                    assert_eq!(
                        name_of(test_string, p0),
                        ("ItemTemplateName".to_owned(), None)
                    );
                    assert!(matches!(
                        q0,
                        PropValue::Terminal(s) if slice(test_string, *s) == "\"Supplies\""
                    ));
                    let (p1, q1) = &inner.children[1];
                    assert_eq!(name_of(test_string, p1), ("Quantity".to_owned(), None));
                    assert!(matches!(
                        q1,
                        PropValue::Terminal(s) if slice(test_string, *s) == "25"
                    ));
                }
                other => panic!("expected Struct, got {:?}", other),
            }
        }
        other => panic!("expected Struct, got {:?}", other),
    }
}

#[test]
fn array_of_structs() {
    let text = "(List=((A=1),(B=2)))";
    let st = parse(text).expect("parses");
    assert_eq!(st.children.len(), 1);
    match &st.children[0].1 {
        PropValue::Array(a) => {
            assert_eq!(a.elems.len(), 2);
            for (elem, expected) in a.elems.iter().zip(["A", "B"]) {
                match elem {
                    PropValue::Struct(s) => {
                        assert_eq!(slice(text, s.children[0].0.name), expected);
                    }
                    other => panic!("expected Struct, got {:?}", other),
                }
            }
        }
        other => panic!("expected Array, got {:?}", other),
    }
}

#[test]
fn empty_value_and_root_errors() {
    let text = "(A=())";
    let st = parse(text).expect("parses");
    assert!(matches!(st.children[0].1, PropValue::Empty));

    let err = parse("nope").expect_err("must fail");
    assert_eq!(err.msg, "Expected `(`");
    assert_eq!(err.pos, 0);

    let err = parse("(=1)").expect_err("must fail");
    assert_eq!(err.msg, "Expected property name");
    assert_eq!(err.pos, 1);

    let err = parse("(A[x]=1)").expect_err("must fail");
    assert_eq!(err.msg, "Expected array index");

    let err = parse("(A[1=2)").expect_err("must fail");
    assert_eq!(err.msg, "Expected `]`");

    let err = parse("(A=1").expect_err("must fail");
    assert_eq!(err.msg, "Expected `,` or `)`");
    assert_eq!(err.pos, 4);
}

#[test]
fn index_values_parse_as_u32() {
    let st = parse("(A[4294967295]=1)").expect("largest index fits");
    assert_eq!(st.children[0].0.idx, Some(u32::MAX));

    let err = parse("(A[4294967296]=1)").expect_err("out of range");
    assert_eq!(err.msg, "Expected array index");

    let err = parse("(A[01]=x)");
    // A zero-padded index is still a valid u32 for the sub-grammar.
    assert_eq!(err.expect("parses").children[0].0.idx, Some(1));
}

#[test]
fn numeric_shapes() {
    for good in [
        "0", "42", "-17", "+5", "1.", ".5", "1.25", "-0.0", "1e5", "1E5", "2.5e-3", "+1.e+2",
        "inf", "INF", "Infinity", "nan", "NaN", "9999999999",
    ] {
        assert!(matches_num(good), "{} should match", good);
    }
    for bad in ["", ".", "e5", "1.2.3", "12e", "12e+", "1x", "+-3", "in", "infinit"] {
        assert!(!matches_num(bad), "{} should not match", bad);
    }
}

#[test]
fn boolean_and_identifier_shapes() {
    assert!(matches_bool("true"));
    assert!(matches_bool("TRUE"));
    assert!(matches_bool("False"));
    assert!(!matches_bool("truth"));
    assert!(!matches_bool(""));

    assert!(matches_ident("Name_1"));
    assert!(!matches_ident("1Name"));
    assert!(!matches_ident("Na-me"));
    assert!(!matches_ident(""));
}

#[test]
fn terminal_source_relexes_to_one_terminal() {
    // A terminal's source fed back through the value parser keeps its
    // shape: wrapped as a value it comes back as the same single terminal.
    let text = "(A=b c, B=\"q(u)o\")";
    let st = parse(text).expect("parses");
    for (_, v) in &st.children {
        match v {
            PropValue::Terminal(s) => {
                let src = slice(text, *s);
                let wrapped = format!("(X={})", src);
                let again = parse(&wrapped).expect("re-parses");
                match &again.children[0].1 {
                    PropValue::Terminal(s2) => {
                        assert_eq!(slice(&wrapped, *s2).trim_end(), src.trim_end());
                    }
                    other => panic!("expected Terminal, got {:?}", other),
                }
            }
            other => panic!("expected Terminal, got {:?}", other),
        }
    }
}
