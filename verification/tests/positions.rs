use mtml_parser::parser::parse_attribute_values;
use mtml_parser::position::{Position, Tracker};
use mtml_parser::scanner::{find_close, find_quote, name_parser, skip_space, take_until_tag};
use mtml_parser::source::Source;
use nom::Slice;
use nom_locate::LocatedSpan;

#[test]
fn positions_of_a_small_document() {
    let input = "ab\ncd\n\nef";
    let bytes = input.as_bytes();
    let expected = [
        (1, 1),
        (1, 2),
        (1, 3),
        (2, 1),
        (2, 2),
        (2, 3),
        (3, 1),
        (4, 1),
        (4, 2),
        (4, 3),
    ];
    let mut tracker = Tracker::new(bytes);
    for (offset, (line, column)) in expected.iter().enumerate() {
        tracker.advance(bytes, offset);
        assert_eq!(tracker.position(bytes), Position { line: *line, column: *column, offset });
    }
}

#[test]
fn positions_agree_with_located_spans() {
    let input = "<html>\n  <mt:Entries>\r\n\tü日本\n\n</mt:Entries>\n";
    let bytes = input.as_bytes();
    let whole = LocatedSpan::new(input);
    let mut tracker = Tracker::new(bytes);
    for offset in 0..=input.len() {
        if !input.is_char_boundary(offset) {
            continue;
        }
        let span = whole.slice(offset..);
        tracker.advance(bytes, offset);
        let position = tracker.position(bytes);
        assert_eq!(position.offset, span.location_offset());
        assert_eq!(position.line, span.location_line());
        assert_eq!(position.column, span.get_column());
    }
}

#[test]
fn a_head_may_jump_forward() {
    let input = "a\nb\nc\nd";
    let bytes = input.as_bytes();
    let mut tracker = Tracker::new(bytes);
    tracker.advance(bytes, 6);
    assert_eq!(tracker.position(bytes), Position { line: 4, column: 1, offset: 6 });
    tracker.advance(bytes, 6);
    assert_eq!(tracker.position(bytes), Position { line: 4, column: 1, offset: 6 });
    tracker.advance(bytes, 7);
    assert_eq!(tracker.position(bytes), Position { line: 4, column: 2, offset: 7 });
}

#[test]
fn text_ends_at_the_next_tag_boundary() {
    assert_eq!(take_until_tag(b"abc<mt:Var>", 0), 3);
    assert_eq!(take_until_tag(b"abc<$MT:Var$>", 1), 3);
    assert_eq!(take_until_tag(b"abc</mT:If>", 0), 3);
    assert_eq!(take_until_tag(b"a<b<m<$<mt", 0), 7);
    assert_eq!(take_until_tag(b"a<b<m<$<m", 0), 9);
    assert_eq!(take_until_tag(b"<$/mt", 0), 5);
    assert_eq!(take_until_tag(b"<mt", 0), 0);
    assert_eq!(take_until_tag(b"<mt", 1), 3);
    assert_eq!(take_until_tag(b"", 0), 0);
}

#[test]
fn names_and_runs() {
    assert_eq!(name_parser(b"limit=", 0), Some(5));
    assert_eq!(name_parser(b"_a:b1-", 0), Some(5));
    assert_eq!(name_parser(b"a", 0), Some(1));
    assert_eq!(name_parser(b"1a", 0), None);
    assert_eq!(name_parser(b":a", 0), None);
    assert_eq!(name_parser(b"", 0), None);
    assert_eq!(skip_space(b" \t\r\n x", 0), 5);
    assert_eq!(skip_space(b"x ", 0), 0);
    assert_eq!(find_close(b"a/>b>", 0), 2);
    assert_eq!(find_close(b"abc", 1), 3);
    assert_eq!(find_quote(br#"a\"b"c"#, 0, b'"'), 4);
    assert_eq!(find_quote(br#"a\'b"c"#, 0, b'"'), 4);
    assert_eq!(find_quote(br#"a\"#, 0, b'"'), 2);
    assert_eq!(find_quote(br#"a\""#, 0, b'"'), 3);
    assert_eq!(find_quote(b"a'b", 0, b'"'), 3);
}

#[test]
fn values_are_placed_after_their_opening_quote() {
    let input = "\"a\",\n'b'";
    let src = Source::new(input);
    let mut tracker = Tracker::new(src.bytes);
    let (values, next) = parse_attribute_values(&src, 0, &mut tracker).unwrap();
    assert_eq!(next, 4);
    assert_eq!(values.len(), 1);
    assert_eq!((values[0].line, values[0].column, values[0].offset), (1, 2, 1));
    let (values, next) = parse_attribute_values(&src, 5, &mut tracker).unwrap();
    assert_eq!(next, 8);
    assert_eq!(values[0].value, "b");
    assert_eq!((values[0].line, values[0].column, values[0].offset), (2, 2, 6));
}
