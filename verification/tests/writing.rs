use simpleml::parse;
use simpleml::ColumnAlignment;
use simpleml::SMLAttribute;
use simpleml::SMLElement;
use simpleml::SMLWriter;
use simpleml::SMLWriterError;

const EXAMPLE: &str = "Configuration
  Video
    Resolution 1280 720
    RefreshRate 60
    Fullscreen true
  End
  Audio
    Volume 100
    Music 80
  End
  Player
    Name \"Hero 123\"
  End
End";

fn attr(name: &str, values: Vec<Option<&str>>) -> SMLAttribute {
    SMLAttribute {
        name: name.to_string(),
        values: values.into_iter().map(|v| v.map(|s| s.to_string())).collect(),
    }
}

fn elem(name: &str, attributes: Vec<SMLAttribute>, children: Vec<SMLElement>) -> SMLElement {
    SMLElement { name: name.to_string(), attributes, children }
}

fn readme_tree() -> SMLElement {
    elem(
        "Configuration",
        Vec::new(),
        vec![
            elem(
                "Video",
                vec![
                    attr("Resolution", vec![Some("1280"), Some("720")]),
                    attr("RefreshRate", vec![Some("60")]),
                    attr("Fullscreen", vec![Some("true")]),
                ],
                Vec::new(),
            ),
            elem(
                "Audio",
                vec![attr("Volume", vec![Some("100")]), attr("Music", vec![Some("80")])],
                Vec::new(),
            ),
            elem("Player", vec![attr("Name", vec![Some("Hero 123")])], Vec::new()),
        ],
    )
}

fn tree_eq(a: &SMLElement, b: &SMLElement) -> bool {
    a.name == b.name && a.attributes.len() == b.attributes.len() && a.children.len()
        == b.children.len()
        && a.attributes.iter().zip(b.attributes.iter()).all(
            |(x, y)| x.name == y.name && x.values == y.values,
        )
        && a.children.iter().zip(b.children.iter()).all(|(x, y)| tree_eq(x, y))
}

#[test]
fn test_write() {
    let input = EXAMPLE;
    println!(
        "{}",
        SMLWriter::new(parse(input).unwrap())
            .align_columns(ColumnAlignment::Right)
            .indent_with(" ")
            .unwrap()
            .to_string()
            .unwrap()
    );
}

#[test]
fn readme_example() {
    let my_sml_values = readme_tree();

    let str = SMLWriter::new(my_sml_values)
        .with_end_keyword(Some("my_custom_end_keyword"))
        .indent_with("        ")
        .unwrap()
        .align_columns(ColumnAlignment::Right)
        .to_string()
        .unwrap();

    println!("{}", str);
}

#[test]
fn exact_packed_output() {
    let tree = elem(
        "A",
        vec![attr("x", vec![Some("1")])],
        vec![elem("B", Vec::new(), Vec::new())],
    );
    let text = SMLWriter::new(tree).indent_with("  ").unwrap().to_string().unwrap();
    assert_eq!("A\n  x 1 \n  B\n  -\n-", text);
}

#[test]
fn null_value_renders_as_null_token() {
    let tree = elem("Root", vec![attr("v", vec![None, Some("2")])], Vec::new());
    let text = SMLWriter::new(tree).indent_with("  ").unwrap().to_string().unwrap();
    assert_eq!("Root\n  v - 2 \n-", text);

    let back = parse(&text).unwrap();
    assert_eq!(1, back.attributes.len());
    assert_eq!("v", back.attributes[0].name);
    assert_eq!(vec![None, Some("2".to_string())], back.attributes[0].values);
}

#[test]
fn rejects_non_whitespace_indent() {
    let w = SMLWriter::new(elem("A", Vec::new(), Vec::new()));
    assert!(w.indent_with("-a").is_none());
    let w = SMLWriter::new(elem("A", Vec::new(), Vec::new()));
    assert!(w.indent_with(" \t\u{00A0}").is_some());
}

#[test]
fn element_named_like_end_keyword_fails() {
    let tree = elem("stop", Vec::new(), Vec::new());
    let err = SMLWriter::new(tree).with_end_keyword(Some("stop")).to_string().unwrap_err();
    assert!(matches!(err, SMLWriterError::ElementHasEndKeywordName));
}

#[test]
fn attribute_named_like_end_keyword_fails() {
    let tree = elem("Root", vec![attr("stop", vec![Some("1")])], Vec::new());
    let err = SMLWriter::new(tree).with_end_keyword(Some("stop")).to_string().unwrap_err();
    assert!(matches!(err, SMLWriterError::AttributeHasEndKeywordName));
}

#[test]
fn end_keyword_is_quoted_when_needed() {
    let tree = elem("A", Vec::new(), Vec::new());
    let text = SMLWriter::new(tree)
        .with_end_keyword(Some("End with spaces"))
        .to_string()
        .unwrap();
    assert_eq!("A\n\"End with spaces\"", text);

    let tree = elem("A", Vec::new(), Vec::new());
    let text = SMLWriter::new(tree).with_end_keyword(Some("-")).to_string().unwrap();
    assert_eq!("A\n\"-\"", text);

    let tree = elem("A", Vec::new(), Vec::new());
    let text = SMLWriter::new(tree).with_end_keyword(Some("")).to_string().unwrap();
    assert_eq!("A\n-", text);
}

#[test]
fn round_trip_packed_null_keyword() {
    let tree = readme_tree();
    let text = SMLWriter::new(readme_tree()).indent_with("    ").unwrap().to_string().unwrap();
    let back = parse(&text).unwrap();
    assert!(tree_eq(&tree, &back));
}

#[test]
fn round_trip_word_keyword_all_alignments() {
    for align in [ColumnAlignment::Packed, ColumnAlignment::Left, ColumnAlignment::Right] {
        let tree = readme_tree();
        let text = SMLWriter::new(readme_tree())
            .with_end_keyword(Some("End"))
            .indent_with("  ")
            .unwrap()
            .align_columns(align)
            .to_string()
            .unwrap();
        let back = parse(&text).unwrap();
        assert!(tree_eq(&tree, &back), "round trip failed for:\n{}", text);
    }
}

#[test]
fn round_trip_quoted_end_keyword() {
    let tree = elem("A", vec![attr("x", vec![Some("1")])], Vec::new());
    let text = SMLWriter::new(elem("A", vec![attr("x", vec![Some("1")])], Vec::new()))
        .with_end_keyword(Some("End with spaces"))
        .to_string()
        .unwrap();
    let back = parse(&text).unwrap();
    assert!(tree_eq(&tree, &back), "round trip failed for:\n{}", text);
}
