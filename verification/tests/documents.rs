use mtml_parser::ast::{
    Attribute, AttributeValue, BlockTagNode, FunctionTagNode, Node, RootNode, TextNode,
};
use mtml_parser::parser::{parse_with, ParseError, MAX_DEPTH};
use mtml_parser::position::Position;
use mtml_parser::registry::TagRegistry;
use mtml_parser::serializer::{FunctionTagStyle, Options};
use mtml_parser::{parse, serialize};

fn text(value: &str, line: u32, column: usize, offset: usize) -> Node {
    Node::Text(TextNode { value: value.to_string(), line, column, offset })
}

fn function(name: &str, attributes: Vec<Attribute>, offset: usize) -> Node {
    Node::FunctionTag(FunctionTagNode {
        name: name.to_string(),
        attributes,
        line: 1,
        column: offset + 1,
        offset,
    })
}

fn block(name: &str, attributes: Vec<Attribute>, children: Vec<Node>, offset: usize) -> Node {
    Node::BlockTag(BlockTagNode {
        name: name.to_string(),
        attributes,
        children,
        line: 1,
        column: offset + 1,
        offset,
    })
}

fn attribute(name: &str, offset: usize, values: Vec<(&str, usize)>) -> Attribute {
    Attribute {
        name: name.to_string(),
        values: values
            .into_iter()
            .map(|(value, at)| AttributeValue {
                value: value.to_string(),
                line: 1,
                column: at + 1,
                offset: at,
            })
            .collect(),
        line: 1,
        column: offset + 1,
        offset,
    }
}

fn children_of(input: &str) -> Vec<Node> {
    match parse(input).unwrap() {
        Node::Root(RootNode { children }) => children,
        other => panic!("not a root: {:?}", other),
    }
}

fn error_of(input: &str) -> ParseError {
    parse(input).unwrap_err()
}

fn at(line: u32, column: usize, offset: usize) -> Option<Position> {
    Some(Position { line, column, offset })
}

#[test]
fn default_round_trip() {
    let input = r#"<html><mt:Entries limit="10"><mt:EntryTitle/></mt:Entries></html>"#;
    assert_eq!(
        children_of(input),
        vec![
            text("<html>", 1, 1, 0),
            block(
                "Entries",
                vec![attribute("limit", 18, vec![("10", 25)])],
                vec![function("EntryTitle", vec![], 29)],
                6
            ),
            text("</html>", 1, 59, 58),
        ]
    );
    assert_eq!(
        serialize(parse(input).unwrap(), None),
        r#"<html><mt:Entries limit="10"><$mt:EntryTitle$></mt:Entries></html>"#
    );
}

#[test]
fn empty_document_is_an_empty_root() {
    assert_eq!(parse("").unwrap(), Node::Root(RootNode { children: vec![] }));
    assert_eq!(serialize(parse("").unwrap(), None), "");
}

#[test]
fn text_without_tags_is_one_node() {
    assert_eq!(children_of("<p>a < b</p>"), vec![text("<p>a < b</p>", 1, 1, 0)]);
}

#[test]
fn angle_bracket_at_the_end_is_text() {
    assert_eq!(children_of("a<"), vec![text("a<", 1, 1, 0)]);
    assert_eq!(children_of("a<$"), vec![text("a<$", 1, 1, 0)]);
    assert_eq!(children_of("a<m"), vec![text("a<m", 1, 1, 0)]);
    assert_eq!(children_of("a<$m"), vec![text("a<$m", 1, 1, 0)]);
    assert_eq!(children_of("<<mx"), vec![text("<<mx", 1, 1, 0)]);
}

#[test]
fn tag_boundary_is_found_in_every_spelling() {
    assert_eq!(
        children_of("x<mtVar>y<$MT:Var$>z<Mt:Var/>"),
        vec![
            text("x", 1, 1, 0),
            function("Var", vec![], 1),
            text("y", 1, 9, 8),
            function("Var", vec![], 9),
            text("z", 1, 20, 19),
            function("Var", vec![], 20),
        ]
    );
}

#[test]
fn sigil_alone_makes_a_function_tag() {
    assert_eq!(
        children_of("<$mt:Unknown>after"),
        vec![function("Unknown", vec![], 0), text("after", 1, 14, 13)]
    );
}

#[test]
fn slash_makes_a_function_tag() {
    assert_eq!(
        children_of("<mt:Unknown />after"),
        vec![function("Unknown", vec![], 0), text("after", 1, 15, 14)]
    );
}

#[test]
fn else_is_always_a_function_tag() {
    assert_eq!(
        children_of("<mt:If><mt:ELSE>no</mt:If>"),
        vec![block(
            "If",
            vec![],
            vec![function("ELSE", vec![], 7), text("no", 1, 17, 16)],
            0
        )]
    );
}

#[test]
fn registry_override() {
    assert_eq!(
        children_of("<mt:EntryTitle>next"),
        vec![function("EntryTitle", vec![], 0), text("next", 1, 16, 15)]
    );
    let mut registry = TagRegistry::new();
    assert_eq!(
        parse_with("<mt:Custom>next", &registry, MAX_DEPTH).unwrap(),
        Node::Root(RootNode {
            children: vec![block("Custom", vec![], vec![text("next", 1, 12, 11)], 0)]
        })
    );
    registry.insert("CUSTOM");
    assert!(registry.contains("custom"));
    assert!(registry.contains("Custom"));
    assert!(!registry.contains("custo"));
    assert_eq!(
        parse_with("<mt:Custom>next", &registry, MAX_DEPTH).unwrap(),
        Node::Root(RootNode {
            children: vec![function("Custom", vec![], 0), text("next", 1, 12, 11)]
        })
    );
}

#[test]
fn standard_registry_holds_function_tags_only() {
    let registry = TagRegistry::standard();
    assert!(registry.contains("EntryTitle"));
    assert!(registry.contains("var"));
    assert!(!registry.contains("Entries"));
    assert!(!registry.contains("If"));
    assert!(!registry.contains("else"));
}

#[test]
fn unterminated_block() {
    assert_eq!(
        children_of("<mt:Entries>a<mt:EntryTitle>b"),
        vec![block(
            "Entries",
            vec![],
            vec![text("a", 1, 13, 12), function("EntryTitle", vec![], 13), text("b", 1, 29, 28)],
            0
        )]
    );
    assert_eq!(children_of("<mt:Entries>"), vec![block("Entries", vec![], vec![], 0)]);
    assert_eq!(
        serialize(parse("<mt:Entries>a").unwrap(), None),
        "<mt:Entries>a</mt:Entries>"
    );
}

#[test]
fn end_marker_matches_in_either_case_with_or_without_colon() {
    let expected = vec![block("Entries", vec![], vec![text("a", 1, 13, 12)], 0)];
    assert_eq!(children_of("<mt:Entries>a</mt:Entries>"), expected);
    assert_eq!(children_of("<mt:Entries>a</MT:ENTRIES>"), expected);
    assert_eq!(children_of("<mt:Entries>a</mtentries>"), expected);
}

#[test]
fn nested_blocks_close_in_order() {
    assert_eq!(
        children_of("<mt:A><mt:B>x</mt:B>y</mt:A>z"),
        vec![
            block(
                "A",
                vec![],
                vec![block("B", vec![], vec![text("x", 1, 13, 12)], 6), text("y", 1, 21, 20)],
                0
            ),
            text("z", 1, 29, 28),
        ]
    );
}

#[test]
fn names_may_hold_colons_digits_and_underscores() {
    assert_eq!(
        children_of("<mt:_a:b1 c_2:d=\"1\"/>"),
        vec![function("_a:b1", vec![attribute("c_2:d", 10, vec![("1", 17)])], 0)]
    );
}

#[test]
fn attribute_values_of_every_shape() {
    assert_eq!(
        children_of(r#"<$mt:Var a= b="" c='x',"y" d="p",$>"#),
        vec![function(
            "Var",
            vec![
                attribute("a", 9, vec![]),
                attribute("b", 12, vec![("", 15)]),
                attribute("c", 17, vec![("x", 20), ("y", 24)]),
                attribute("d", 27, vec![("p", 30)]),
            ],
            0
        )]
    );
}

#[test]
fn backslash_keeps_the_quote_in_the_value() {
    assert_eq!(
        children_of(r#"<$mt:Var a="x\"y" b='it\'s' c="C:\dir" d="\\" "$>"#),
        vec![function(
            "Var",
            vec![
                attribute("a", 9, vec![(r#"x\"y"#, 12)]),
                attribute("b", 18, vec![(r#"it\'s"#, 21)]),
                attribute("c", 28, vec![(r#"C:\dir"#, 31)]),
                attribute("d", 39, vec![(r#"\\" "#, 42)]),
            ],
            0
        )]
    );
}

#[test]
fn what_stands_before_the_closing_bracket_is_dropped() {
    assert_eq!(
        children_of(r#"<mt:Var a="1" !! >x"#),
        vec![function("Var", vec![attribute("a", 8, vec![("1", 11)])], 0), text("x", 1, 19, 18)]
    );
}

#[test]
fn error_malformed_tag_open() {
    let error = error_of("ab</mt:If>");
    assert_eq!(error.message, "expected `<mt` or `<$mt` at the start of a tag");
    assert_eq!(error.position, at(1, 3, 2));
}

#[test]
fn error_missing_tag_name() {
    let error = error_of("<mt:1>");
    assert_eq!(error.message, "expected a tag name");
    assert_eq!(error.position, at(1, 5, 4));
    assert_eq!(error_of("<mt").position, at(1, 4, 3));
}

#[test]
fn error_missing_equals() {
    let error = error_of("<mt:Var\n name>");
    assert_eq!(error.message, "expected `=` after an attribute name");
    assert_eq!(error.position, at(2, 6, 13));
}

#[test]
fn error_unterminated_value() {
    let error = error_of(r#"<mt:Var a="x>"#);
    assert_eq!(error.message, "unterminated attribute value");
    assert_eq!(error.position, at(1, 11, 10));
    assert_eq!(error_of(r#"<mt:Var a="x\""#).message, "unterminated attribute value");
}

#[test]
fn error_unterminated_tag() {
    let error = error_of(r#"text<mt:Var a="x""#);
    assert_eq!(error.message, "expected `>` at the end of a tag");
    assert_eq!(error.position, at(1, 5, 4));
}

#[test]
fn error_mismatched_end_tag() {
    let error = error_of("<mt:If>a</mt:Unless>");
    assert_eq!(error.message, "end tag does not match the open block");
    assert_eq!(error.position, at(1, 9, 8));
    assert_eq!(error_of("<mt:If>a</mt:If").message, "end tag does not match the open block");
    assert_eq!(error_of("<mt:If>a</mt:Iff>").message, "end tag does not match the open block");
}

#[test]
fn error_nesting_too_deep() {
    let registry = TagRegistry::new();
    let input = "<mt:A><mt:B><mt:C></mt:C></mt:B></mt:A>";
    assert!(parse_with(input, &registry, 3).is_ok());
    let error = parse_with(input, &registry, 2).unwrap_err();
    assert_eq!(error.message, "blocks are nested too deep");
    assert_eq!(error.position, at(1, 13, 12));
    let error = parse_with("<mt:A>", &registry, 0).unwrap_err();
    assert_eq!(error.position, at(1, 1, 0));
    assert!(parse_with("a<$mt:A$>b", &registry, 0).is_ok());
}

#[test]
fn deep_nesting_is_an_error_and_no_crash() {
    let input = "<mt:A>".repeat(100_000);
    let error = parse(&input).unwrap_err();
    assert_eq!(error.message, "blocks are nested too deep");
    assert_eq!(error.position, at(1, 6 * MAX_DEPTH + 1, 6 * MAX_DEPTH));
}

#[test]
fn function_tags_are_written_in_the_style_asked_for() {
    let input = r#"<mt:Var name="a"/><$mt:Var name="b"$><mt:EntryTitle>"#;
    assert_eq!(
        serialize(parse(input).unwrap(), None),
        r#"<$mt:Var name="a"$><$mt:Var name="b"$><$mt:EntryTitle$>"#
    );
    assert_eq!(
        serialize(
            parse(input).unwrap(),
            Some(Options {
                prefix: "mt:".to_string(),
                function_tag_style: FunctionTagStyle::SelfClosing
            })
        ),
        r#"<mt:Var name="a"/><mt:Var name="b"/><mt:EntryTitle/>"#
    );
}

#[test]
fn default_options() {
    let options = Options::default();
    assert_eq!(options.prefix, "mt:");
    assert_eq!(options.function_tag_style, FunctionTagStyle::Dollar);
}

#[test]
fn style_codes() {
    assert_eq!(FunctionTagStyle::from_code(2), FunctionTagStyle::SelfClosing);
    assert_eq!(FunctionTagStyle::from_code(1), FunctionTagStyle::Dollar);
    assert_eq!(FunctionTagStyle::from_code(0), FunctionTagStyle::Dollar);
    assert_eq!(FunctionTagStyle::from_code(255), FunctionTagStyle::Dollar);
}

#[test]
fn text_outside_ascii_is_kept_and_counted_in_bytes() {
    let input = "日本語<mt:Var name=\"é\">ü\n<mt:Var>";
    assert_eq!(
        children_of(input),
        vec![
            text("日本語", 1, 1, 0),
            Node::FunctionTag(FunctionTagNode {
                name: "Var".to_string(),
                attributes: vec![Attribute {
                    name: "name".to_string(),
                    values: vec![AttributeValue {
                        value: "é".to_string(),
                        line: 1,
                        column: 24,
                        offset: 23
                    }],
                    line: 1,
                    column: 18,
                    offset: 17
                }],
                line: 1,
                column: 10,
                offset: 9
            }),
            text("ü\n", 1, 28, 27),
            Node::FunctionTag(FunctionTagNode {
                name: "Var".to_string(),
                attributes: vec![],
                line: 2,
                column: 1,
                offset: 30
            }),
        ]
    );
    assert_eq!(
        serialize(parse(input).unwrap(), None),
        "日本語<$mt:Var name=\"é\"$>ü\n<$mt:Var$>"
    );
}
