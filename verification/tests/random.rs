use mtml_parser::ast::Node;
use mtml_parser::parser::{parse_with, MAX_DEPTH};
use mtml_parser::registry::TagRegistry;
use mtml_parser::roundtrip::reads_back;
use mtml_parser::serializer::{FunctionTagStyle, Options};
use mtml_parser::serialize;

const PIECES: [&str; 40] = [
    "<mt:", "<$mt:", "</mt:", "<mt", "<$MT", "</Mt", "<", ">", "$>", "/>", "/", "$", ":", "=",
    ",", "\"", "'", "\\", " ", "\n", "\t", "a", "If", "Var", "else", "EntryTitle", "x1", "_y",
    "name", "é", "日本", "<mt:If>", "</mt:If>", "<$mt:Var$>", " a=\"1\"", " b='2','3'", " c=",
    "text", "<b>", "</b>",
];

fn next(state: &mut u64) -> usize {
    *state = state.wrapping_mul(6364136223846793005).wrapping_add(1442695040888963407);
    (*state >> 33) as usize
}

fn document(state: &mut u64) -> String {
    let length = next(state) % 12;
    let mut out = String::new();
    for _ in 0..length {
        out.push_str(PIECES[next(state) % PIECES.len()]);
    }
    out
}

fn same(a: &Node, b: &Node) -> bool {
    match (a, b) {
        (Node::Root(x), Node::Root(y)) => same_all(&x.children, &y.children),
        (Node::Text(x), Node::Text(y)) => x.value == y.value,
        (Node::FunctionTag(x), Node::FunctionTag(y)) => {
            x.name == y.name && same_attributes(&x.attributes, &y.attributes)
        }
        (Node::BlockTag(x), Node::BlockTag(y)) => {
            x.name == y.name
                && same_attributes(&x.attributes, &y.attributes)
                && same_all(&x.children, &y.children)
        }
        _ => false,
    }
}

fn same_all(a: &[Node], b: &[Node]) -> bool {
    a.len() == b.len() && a.iter().zip(b).all(|(x, y)| same(x, y))
}

fn same_attributes(a: &[mtml_parser::ast::Attribute], b: &[mtml_parser::ast::Attribute]) -> bool {
    a.len() == b.len()
        && a.iter().zip(b).all(|(x, y)| {
            x.name == y.name
                && x.values.len() == y.values.len()
                && x.values.iter().zip(&y.values).all(|(v, w)| v.value == w.value)
        })
}

fn places(node: &Node, out: &mut Vec<(usize, u32, usize)>) {
    match node {
        Node::Root(root) => root.children.iter().for_each(|child| places(child, out)),
        Node::Text(text) => out.push((text.offset, text.line, text.column)),
        Node::FunctionTag(tag) => out.push((tag.offset, tag.line, tag.column)),
        Node::BlockTag(tag) => {
            out.push((tag.offset, tag.line, tag.column));
            tag.children.iter().for_each(|child| places(child, out));
        }
    }
}

#[test]
fn what_is_written_reads_back_on_many_documents() {
    let registry = TagRegistry::standard();
    let mut state: u64 = 2024;
    let mut parsed = 0;
    let mut read_back = 0;
    for round in 0..20000 {
        let input = document(&mut state);
        let style = Options {
            prefix: ["mt:", "mt", "MT:", "mT"][round % 4].to_string(),
            function_tag_style: if round % 8 < 4 {
                FunctionTagStyle::Dollar
            } else {
                FunctionTagStyle::SelfClosing
            },
        };
        let tree = match parse_with(&input, &registry, MAX_DEPTH) {
            Ok(tree) => tree,
            Err(error) => {
                let at = error.position.unwrap();
                assert!(at.offset <= input.len(), "{:?}", input);
                continue;
            }
        };
        parsed += 1;
        if !reads_back(&tree) {
            continue;
        }
        read_back += 1;
        let again = parse_with(&input, &registry, MAX_DEPTH).unwrap();
        let once = serialize(tree, Some(style.clone()));
        let reread = parse_with(&once, &registry, MAX_DEPTH).unwrap();
        assert!(same(&reread, &again), "{:?}", input);
        assert_eq!(serialize(reread, Some(style)), once, "{:?}", input);
    }
    assert!(parsed > 5000);
    assert!(read_back > 5000);
}

#[test]
fn places_are_those_of_the_document_on_many_documents() {
    let registry = TagRegistry::standard();
    let mut state: u64 = 7;
    for _ in 0..20000 {
        let input = document(&mut state);
        let tree = match parse_with(&input, &registry, MAX_DEPTH) {
            Ok(tree) => tree,
            Err(_) => continue,
        };
        let mut found = Vec::new();
        places(&tree, &mut found);
        for pair in found.windows(2) {
            assert!(pair[0].0 <= pair[1].0, "{:?}", input);
            assert!(pair[0].1 <= pair[1].1, "{:?}", input);
        }
        for (offset, line, column) in found {
            let before = &input.as_bytes()[..offset];
            let newlines = before.iter().filter(|b| **b == b'\n').count();
            let start = before.iter().rposition(|b| *b == b'\n').map_or(0, |at| at + 1);
            assert_eq!(line as usize, 1 + newlines, "{:?}", input);
            assert_eq!(column, offset - start + 1, "{:?}", input);
        }
    }
}
