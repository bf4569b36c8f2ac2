use simpleml::parse;
use simpleml::parse_rows;
use simpleml::SMLErrorType;
use simpleml::ParseError;

const EXAMPLE: &str = "Configuration
  Video
    Resolution 1280 720
    RefreshRate 60
    Fullscreen true
  End
  Audio
    Volume 100
    Music 80
  End
  Player
    Name \"Hero 123\"
  End
End";

fn sml_err_of(r: Result<simpleml::SMLElement, ParseError>) -> simpleml::SMLError {
    match r {
        Err(ParseError::SML(e)) => e,
        Err(ParseError::WSV(e)) => panic!("tokenizer error: {:?}", e),
        Ok(_) => panic!("expected a parse failure"),
    }
}

fn field(s: &str) -> Option<String> {
    Some(s.to_string())
}

#[test]
fn reads_example_correctly() {
    let result = parse(EXAMPLE).unwrap();
    assert_eq!("Configuration", &result.name);
    assert_eq!(0, result.attributes.len());
    for (i, element) in result.children.iter().enumerate() {
        match i {
            0 => {
                assert_eq!("Video", &element.name);
                assert_eq!(3, element.attributes.len());
                for (j, attribute) in element.attributes.iter().enumerate() {
                    match j {
                        0 => {
                            assert_eq!("Resolution", attribute.name);
                            assert_eq!(2, attribute.values.len());
                            assert_eq!("1280", attribute.values.get(0).unwrap().as_ref().unwrap());
                            assert_eq!("720", attribute.values.get(1).unwrap().as_ref().unwrap());
                        }
                        1 => {
                            assert_eq!("RefreshRate", attribute.name);
                            assert_eq!(1, attribute.values.len());
                            assert_eq!("60", attribute.values.get(0).unwrap().as_ref().unwrap());
                        }
                        2 => {
                            assert_eq!("Fullscreen", attribute.name);
                            assert_eq!(1, attribute.values.len());
                            assert_eq!("true", attribute.values.get(0).unwrap().as_ref().unwrap());
                        }
                        _ => panic!("Should only have 3 attributes"),
                    }
                }
            }
            1 => {
                assert_eq!("Audio", &element.name);
                assert_eq!(2, element.attributes.len());
                for (j, attribute) in element.attributes.iter().enumerate() {
                    match j {
                        0 => {
                            assert_eq!("Volume", attribute.name);
                            assert_eq!(1, attribute.values.len());
                            assert_eq!("100", attribute.values.get(0).unwrap().as_ref().unwrap());
                        }
                        1 => {
                            assert_eq!("Music", attribute.name);
                            assert_eq!(1, attribute.values.len());
                            assert_eq!("80", attribute.values.get(0).unwrap().as_ref().unwrap());
                        }
                        _ => panic!("Should only have 2 values under audio"),
                    }
                }
            }
            2 => {
                assert_eq!("Player", element.name);
                assert_eq!(1, element.attributes.len());
                let attr = element.attributes.get(0).unwrap();
                assert_eq!("Name", attr.name);
                assert_eq!(1, attr.values.len());
                assert_eq!("Hero 123", attr.values.get(0).unwrap().as_ref().unwrap());
            }
            _ => panic!("Should only have 4 sub-elements"),
        }
    }
    assert_eq!(3, result.children.len());
}

#[test]
fn parses_input_with_strange_end_keyword() {
    let input = r#"
        Configuration
                Video
                        Resolution 1280 720
                        RefreshRate   60
                        Fullscreen true
                "End with spaces"
                Audio
                        Volume 100
                        Music  80
                "End with spaces"
                Player
                        Name "Hero 123"
                "End with spaces"
        "End with spaces""#;

    println!("{:?}", parse(input).unwrap());
}

#[test]
fn parses_input_with_null_end_keyword() {
    let input = r#"
        Configuration
                Video
                        Resolution 1280 720
                        RefreshRate   60
                        Fullscreen true
                -
                Audio
                        Volume 100
                        Music  80
                -
                Player
                        Name "Hero 123"
                -
        -"#;

    println!("{:?}", parse(input).unwrap());
}

#[test]
fn single_element_document() {
    let root = parse("Configuration\n-").unwrap();
    assert_eq!("Configuration", root.name);
    assert_eq!(0, root.attributes.len());
    assert_eq!(0, root.children.len());

    let rows = vec![vec![field("Configuration")], vec![field("-")]];
    let root = parse_rows(rows).unwrap();
    assert_eq!("Configuration", root.name);
    assert_eq!(0, root.attributes.len());
    assert_eq!(0, root.children.len());
}

#[test]
fn missing_closer_is_root_not_closed() {
    let rows = vec![
        vec![field("A")],
        vec![field("x"), field("1")],
        vec![field("B")],
        vec![field("-")],
    ];
    let err = parse_rows(rows).unwrap_err();
    assert_eq!(SMLErrorType::RootNotClosed, err.err_type());
    assert_eq!(4, err.line_num());
}

#[test]
fn null_and_present_values_are_distinct() {
    let rows = vec![
        vec![field("Root")],
        vec![field("v"), None, field("2")],
        vec![field("end")],
    ];
    let root = parse_rows(rows).unwrap();
    assert_eq!(1, root.attributes.len());
    let attr = &root.attributes[0];
    assert_eq!("v", attr.name);
    assert_eq!(vec![None, Some("2".to_string())], attr.values);
}

#[test]
fn end_keyword_matches_case_insensitively() {
    let text = "Configuration\nVideo\nend\nEND";
    let root = parse(text).unwrap();
    assert_eq!("Configuration", root.name);
    assert_eq!(1, root.children.len());
    assert_eq!("Video", root.children[0].name);

    assert!(simpleml::parser::matches_end_keyword("end", "End"));
    assert!(simpleml::parser::matches_end_keyword("END", "End"));
    assert!(simpleml::parser::matches_end_keyword("End", "End"));
    assert!(!simpleml::parser::matches_end_keyword("ende", "End"));
}

#[test]
fn empty_document_has_no_end_keyword() {
    let err = sml_err_of(parse(""));
    assert_eq!(SMLErrorType::EndKeywordNotDetected, err.err_type());

    let err = parse_rows(Vec::new()).unwrap_err();
    assert_eq!(SMLErrorType::EndKeywordNotDetected, err.err_type());
    assert_eq!(0, err.line_num());

    let err = sml_err_of(parse("# only a comment\n\n"));
    assert_eq!(SMLErrorType::EndKeywordNotDetected, err.err_type());
}

#[test]
fn root_row_must_hold_one_field() {
    let rows = vec![vec![field("a"), field("b")], vec![field("end")]];
    let err = parse_rows(rows).unwrap_err();
    assert_eq!(SMLErrorType::InvalidRootElementStart, err.err_type());
    assert_eq!(0, err.line_num());
}

#[test]
fn null_root_name_is_rejected() {
    let rows = vec![vec![None]];
    let err = parse_rows(rows).unwrap_err();
    assert_eq!(SMLErrorType::NullValueAsElementName, err.err_type());
    assert_eq!(0, err.line_num());
}

#[test]
fn null_element_name_is_rejected() {
    let rows = vec![vec![field("A")], vec![None], vec![field("end")]];
    let err = parse_rows(rows).unwrap_err();
    assert_eq!(SMLErrorType::NullValueAsElementName, err.err_type());
    assert_eq!(1, err.line_num());
}

#[test]
fn null_attribute_name_is_rejected() {
    let rows = vec![
        vec![field("A")],
        vec![None, field("1")],
        vec![field("end")],
    ];
    let err = parse_rows(rows).unwrap_err();
    assert_eq!(SMLErrorType::NullValueAsAttributeName, err.err_type());
    assert_eq!(1, err.line_num());
}

#[test]
fn second_root_is_rejected() {
    let rows = vec![
        vec![field("A")],
        vec![field("end")],
        vec![field("B")],
        vec![field("end")],
    ];
    let err = parse_rows(rows).unwrap_err();
    assert_eq!(SMLErrorType::OnlyOneRootElementAllowed, err.err_type());
    assert_eq!(3, err.line_num());
}

#[test]
fn attribute_after_closed_root_is_rejected() {
    let rows = vec![
        vec![field("A")],
        vec![field("end")],
        vec![field("x"), field("1")],
        vec![field("end")],
    ];
    let err = parse_rows(rows).unwrap_err();
    assert_eq!(SMLErrorType::OnlyOneRootElementAllowed, err.err_type());
    assert_eq!(2, err.line_num());
}

#[test]
fn stray_closer_after_root_is_rejected() {
    let rows = vec![
        vec![field("A")],
        vec![field("end")],
        vec![field("end")],
    ];
    let err = parse_rows(rows).unwrap_err();
    assert_eq!(SMLErrorType::OnlyOneRootElementAllowed, err.err_type());
    assert_eq!(2, err.line_num());
}

#[test]
fn blank_rows_are_skipped() {
    let rows = vec![
        vec![],
        vec![field("A")],
        vec![],
        vec![field("x"), field("1")],
        vec![field("-")],
        vec![],
    ];
    let root = parse_rows(rows).unwrap();
    assert_eq!("A", root.name);
    assert_eq!(1, root.attributes.len());
    assert_eq!("x", root.attributes[0].name);
}

#[test]
fn empty_string_value_is_not_null() {
    let root = parse("A\nx \"\" -\n-").unwrap();
    assert_eq!(1, root.attributes.len());
    assert_eq!("x", root.attributes[0].name);
    assert_eq!(vec![Some("".to_string()), None], root.attributes[0].values);
}

#[test]
fn deep_nesting_parses_without_recursion() {
    let depth = 1000;
    let mut text = String::new();
    for i in 0..depth {
        text.push_str(&format!("n{}\n", i));
    }
    for _ in 0..depth - 1 {
        text.push_str("-\n");
    }
    text.push('-');
    let root = parse(&text).unwrap();
    let mut level = 0;
    let mut cur = &root;
    loop {
        assert_eq!(format!("n{}", level), cur.name);
        if cur.children.is_empty() {
            break;
        }
        assert_eq!(1, cur.children.len());
        cur = &cur.children[0];
        level += 1;
    }
    assert_eq!(depth - 1, level);
}
