use mtml_parser::ast::{Attribute, AttributeValue, Node};
use mtml_parser::roundtrip::{reads_back, value_reads_back};
use mtml_parser::serializer::{attribute_to_string, FunctionTagStyle, Options};
use mtml_parser::{parse, serialize};

const DOCUMENTS: [&str; 12] = [
    "",
    "plain text",
    "<html><mt:Entries limit=\"10\"><mt:EntryTitle/></mt:Entries></html>",
    "\n<html>\n  <body>\n    <mt:Entries    limit=\"10\">\n      <mtEntryTitle encode_html='1'/>\n    </mt:Entries>\n  </body>\n</html>",
    "<mt:If name=\"blog_lang\" eq=\"ja\">ja_JP<mt:else><$mt:Var name=\"blog_lang\"$></mt:If>",
    "<mt:A><mt:B>never closed",
    "<MT:Entries>a</mtentries><$MtVar a= b='' c=\"x\",'y',$>",
    "<mt:Var a='say \"hi\"' b=\"it's\" c='it\\'s' d=\"C:\\dir\">",
    "a<<mt:Var x=\"1\" !! >b<$<$mt:Var$>c<",
    "<mt:Unknown/><$mt:Other$><mt:Block><mt:else></mt:Block>",
    "日本語<mt:Entries>テキスト<mt:Var name=\"é\"></mt:Entries>ü",
    "<mt:a:b _x=\"1\"><mt:_c:d/></mt:a:b>",
];

fn styles() -> Vec<Option<Options>> {
    vec![
        None,
        Some(Options { prefix: "mt:".to_string(), function_tag_style: FunctionTagStyle::SelfClosing }),
        Some(Options { prefix: "MT".to_string(), function_tag_style: FunctionTagStyle::Dollar }),
        Some(Options { prefix: "Mt:".to_string(), function_tag_style: FunctionTagStyle::SelfClosing }),
    ]
}

fn places(node: &Node, out: &mut Vec<(usize, u32)>) {
    match node {
        Node::Root(root) => root.children.iter().for_each(|child| places(child, out)),
        Node::Text(text) => out.push((text.offset, text.line)),
        Node::FunctionTag(tag) => out.push((tag.offset, tag.line)),
        Node::BlockTag(tag) => {
            out.push((tag.offset, tag.line));
            tag.children.iter().for_each(|child| places(child, out));
        }
    }
}

#[test]
fn normalization_is_idempotent() {
    for document in DOCUMENTS {
        for style in styles() {
            let tree = parse(document).unwrap();
            assert!(reads_back(&tree), "{}", document);
            let once = serialize(tree, style.clone());
            let twice = serialize(parse(&once).unwrap(), style);
            assert_eq!(once, twice, "{}", document);
        }
    }
}

#[test]
fn a_value_with_both_quotes_does_not_read_back() {
    let document = r#"<mt:Var a="\"'">"#;
    let tree = parse(document).unwrap();
    assert!(!reads_back(&tree));
    let once = serialize(tree, None);
    assert_eq!(once, r#"<$mt:Var a='\"''$>"#);
    let twice = serialize(parse(&once).unwrap(), None);
    assert_eq!(twice, r#"<$mt:Var a='\"'$>"#);
    assert!(once != twice);
}

#[test]
fn values_that_read_back() {
    assert!(value_reads_back(""));
    assert!(value_reads_back("10"));
    assert!(value_reads_back("it's"));
    assert!(value_reads_back(r#"say "hi""#));
    assert!(value_reads_back(r#"a\"b\'c"#));
    assert!(value_reads_back(r#"a\b"#));
    assert!(!value_reads_back(r#""'"#));
    assert!(!value_reads_back(r#"a\"#));
    assert!(!value_reads_back(r#"a"b\"#));
    assert!(!value_reads_back(r#"a"b'c"#));
}

#[test]
fn positions_never_go_back() {
    for document in DOCUMENTS {
        let mut found = Vec::new();
        places(&parse(document).unwrap(), &mut found);
        for pair in found.windows(2) {
            assert!(pair[0].0 <= pair[1].0, "{}", document);
            assert!(pair[0].1 <= pair[1].1, "{}", document);
        }
    }
}

#[test]
fn multi_value_attribute_is_written_as_it_was() {
    let attribute = Attribute {
        name: "replace".to_string(),
        values: vec![
            AttributeValue { value: "a".to_string(), line: 1, column: 10, offset: 9 },
            AttributeValue { value: "b".to_string(), line: 1, column: 14, offset: 13 },
        ],
        line: 1,
        column: 1,
        offset: 0,
    };
    assert_eq!(attribute_to_string(&attribute), r#" replace="a","b""#);
    assert_eq!(
        serialize(parse(r#"<mt:Var replace="a","b">"#).unwrap(), None),
        r#"<$mt:Var replace="a","b"$>"#
    );
}

#[test]
fn quote_delimiter_swap() {
    let attribute = |value: &str| Attribute {
        name: "a".to_string(),
        values: vec![AttributeValue { value: value.to_string(), line: 1, column: 1, offset: 0 }],
        line: 1,
        column: 1,
        offset: 0,
    };
    assert_eq!(attribute_to_string(&attribute(r#"say "hi""#)), r#" a='say "hi"'"#);
    assert_eq!(attribute_to_string(&attribute("it's")), r#" a="it's""#);
    assert_eq!(attribute_to_string(&attribute("")), r#" a="""#);
    assert_eq!(attribute_to_string(&attribute(r#""'"#)), r#" a='"''"#);
}

#[test]
fn attribute_without_values_is_written_bare() {
    let attribute =
        Attribute { name: "strip".to_string(), values: vec![], line: 1, column: 1, offset: 0 };
    assert_eq!(attribute_to_string(&attribute), " strip=");
}
