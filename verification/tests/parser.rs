use mtml_parser::ast::{
    Attribute, AttributeValue, BlockTagNode, FunctionTagNode, Node, TextNode,
};
use mtml_parser::parser::{parse_attribute, parse_tag, MAX_DEPTH};
use mtml_parser::position::Tracker;
use mtml_parser::registry::TagRegistry;
use mtml_parser::source::Source;

fn tag_of(input: &str) -> (&str, Node) {
    let src = Source::new(input);
    let mut tracker = Tracker::new(src.bytes);
    let (tag, next) =
        parse_tag(&src, 0, &TagRegistry::standard(), MAX_DEPTH, &mut tracker).unwrap();
    (&input[next..], tag)
}

fn attribute_of(input: &str) -> (&str, Option<Attribute>) {
    let src = Source::new(input);
    let mut tracker = Tracker::new(src.bytes);
    match parse_attribute(&src, 0, &mut tracker).unwrap() {
        Some((attribute, next)) => (&input[next..], Some(attribute)),
        None => (input, None),
    }
}

#[test]
fn test_parse_blank_attribute() {
    let (rest, tag) = tag_of(
        r#"<$mt:Var name="search_link" strip="" trim="1" encode_html="1" setvar="search_link"$>"#,
    );
    assert_eq!(rest, "");
    assert_eq!(
        tag,
        Node::FunctionTag(FunctionTagNode {
            name: "Var".to_string(),
            attributes: vec![
                Attribute {
                    name: "name".to_string(),
                    values: vec![AttributeValue {
                        value: "search_link".to_string(),
                        line: 1,
                        column: 16,
                        offset: 15,
                    }],
                    line: 1,
                    column: 10,
                    offset: 9,
                },
                Attribute {
                    name: "strip".to_string(),
                    values: vec![AttributeValue {
                        value: "".to_string(),
                        line: 1,
                        column: 36,
                        offset: 35,
                    }],
                    line: 1,
                    column: 29,
                    offset: 28,
                },
                Attribute {
                    name: "trim".to_string(),
                    values: vec![AttributeValue {
                        value: "1".to_string(),
                        line: 1,
                        column: 44,
                        offset: 43,
                    }],
                    line: 1,
                    column: 38,
                    offset: 37,
                },
                Attribute {
                    name: "encode_html".to_string(),
                    values: vec![AttributeValue {
                        value: "1".to_string(),
                        line: 1,
                        column: 60,
                        offset: 59,
                    }],
                    line: 1,
                    column: 47,
                    offset: 46,
                },
                Attribute {
                    name: "setvar".to_string(),
                    values: vec![AttributeValue {
                        value: "search_link".to_string(),
                        line: 1,
                        column: 71,
                        offset: 70,
                    }],
                    line: 1,
                    column: 63,
                    offset: 62,
                },
            ],
            line: 1,
            column: 1,
            offset: 0
        })
    );
}

#[test]
fn test_parse_if_else() {
    let (rest, tag) = tag_of(
        r#"<mt:If name="blog_lang" eq="ja">ja_JP<mt:else><$mt:Var name="blog_lang"$></mt:If>"#,
    );
    assert_eq!(rest, "");
    assert_eq!(
        tag,
        Node::BlockTag(BlockTagNode {
            name: "If".to_string(),
            attributes: vec![
                Attribute {
                    name: "name".to_string(),
                    values: vec![AttributeValue {
                        value: "blog_lang".to_string(),
                        line: 1,
                        column: 14,
                        offset: 13,
                    }],
                    line: 1,
                    column: 8,
                    offset: 7,
                },
                Attribute {
                    name: "eq".to_string(),
                    values: vec![AttributeValue {
                        value: "ja".to_string(),
                        line: 1,
                        column: 29,
                        offset: 28,
                    }],
                    line: 1,
                    column: 25,
                    offset: 24,
                },
            ],
            line: 1,
            column: 1,
            offset: 0,
            children: vec![
                Node::Text(TextNode {
                    value: "ja_JP".to_string(),
                    line: 1,
                    column: 33,
                    offset: 32,
                }),
                Node::FunctionTag(FunctionTagNode {
                    name: "else".to_string(),
                    attributes: vec![],
                    line: 1,
                    column: 38,
                    offset: 37,
                }),
                Node::FunctionTag(FunctionTagNode {
                    name: "Var".to_string(),
                    attributes: vec![Attribute {
                        name: "name".to_string(),
                        values: vec![AttributeValue {
                            value: "blog_lang".to_string(),
                            line: 1,
                            column: 62,
                            offset: 61,
                        }],
                        line: 1,
                        column: 56,
                        offset: 55,
                    }],
                    line: 1,
                    column: 47,
                    offset: 46,
                }),
            ],
        })
    );
}

#[test]
fn test_parse_tag_function_tag() {
    let (rest, tag) = tag_of(r#"<mt:EntryTitle>"#);
    assert_eq!(rest, "");
    assert_eq!(
        tag,
        Node::FunctionTag(FunctionTagNode {
            name: "EntryTitle".to_string(),
            attributes: vec![],
            line: 1,
            column: 1,
            offset: 0
        })
    );
}

#[test]
fn test_parse_attribute() {
    let (rest, attribute) = attribute_of(r#"limit="10""#);
    assert_eq!(rest, "");
    let attribute = attribute.unwrap();
    assert_eq!(attribute.name, "limit");
    assert_eq!(
        attribute.values,
        vec![AttributeValue { value: "10".to_string(), line: 1, column: 8, offset: 7 }]
    );
}

#[test]
fn test_parse_attribute_single_quote() {
    let (rest, attribute) = attribute_of(r#"limit='10'"#);
    assert_eq!(rest, "");
    let attribute = attribute.unwrap();
    assert_eq!(attribute.name, "limit");
    assert_eq!(
        attribute.values,
        vec![AttributeValue { value: "10".to_string(), line: 1, column: 8, offset: 7 }]
    );
}

#[test]
fn test_parse_attribute_replace() {
    let (rest, attribute) = attribute_of(r#"replace="a","b""#);
    assert_eq!(rest, "");
    let attribute = attribute.unwrap();
    assert_eq!(attribute.name, "replace");
    assert_eq!(
        attribute.values,
        vec![
            AttributeValue { value: "a".to_string(), line: 1, column: 10, offset: 9 },
            AttributeValue { value: "b".to_string(), line: 1, column: 14, offset: 13 }
        ]
    );
}

#[test]
fn no_attribute_where_no_name_stands() {
    assert_eq!(attribute_of("  >"), ("  >", None));
    assert_eq!(attribute_of("/>"), ("/>", None));
    assert_eq!(attribute_of(""), ("", None));
    assert_eq!(attribute_of("1a=\"x\""), ("1a=\"x\"", None));
}

#[test]
fn attribute_after_white_space_is_placed_at_its_name() {
    let (rest, attribute) = attribute_of(" \n\t a=''>");
    assert_eq!(rest, ">");
    let attribute = attribute.unwrap();
    assert_eq!((attribute.line, attribute.column, attribute.offset), (2, 3, 4));
    assert_eq!(
        attribute.values,
        vec![AttributeValue { value: "".to_string(), line: 2, column: 6, offset: 7 }]
    );
}
