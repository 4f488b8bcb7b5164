//! The parser: the grammar, read from a document into a tree.

use crate::ast::{
    attribute_views, node_view, node_views, value_views, Attribute, AttributeValue, AttributeView,
    BlockTagNode, FunctionTagNode, Node, NodeView, RootNode, TextNode, ValueView,
};
use crate::bytes::{lower, lower_all, quote, to_lower, COLON, COMMA, DOLLAR, EQUALS, GT, LT, SLASH};
use crate::grammar::{
    attribute_at, attributes_at, body_at, document, else_name, end_marker_at, lemma_attribute_at,
    lemma_attributes_at, lemma_body_at, lemma_body_end, lemma_body_step, lemma_head_at,
    lemma_no_fault_of_length, lemma_text_end, max_len, opening_at, tag_at, text_nodes, values_at,
    Failure, Fault,
};
use crate::position::{place_at, Place, Position, Tracker};
use crate::registry::{names_of, TagRegistry, STANDARD_TAGS};
use crate::scanner::{find_close, find_quote, mt_here, name_parser, skip_space, take_until_tag};
use crate::source::{is_cut, Source};
use vstd::prelude::*;
use vstd::string::StringSliceAdditionalSpecFns;
use vstd::utf8::encode_utf8;

verus! {

/// A fault met while reading, and the offset at which it was met.
#[derive(Debug, Clone, Copy)]
pub struct Fail {
    pub fault: Fault,
    pub at: usize,
}

impl View for Fail {
    type V = Failure;

    open spec fn view(&self) -> Failure {
        Failure { fault: self.fault, at: self.at as int }
    }
}

/// What reading needs of a document and of the head that follows it: the
/// head tracks the document and has not passed offset `p`.
pub open spec fn ready(src: &Source, tracker: &Tracker, p: int) -> bool {
    &&& src.wf()
    &&& tracker.tracks(src@)
    &&& tracker.offset <= p <= src@.len()
}

/// Reads the values of an attribute from offset `p`.
pub fn parse_attribute_values(src: &Source, p: usize, tracker: &mut Tracker) -> (r: Result<
    (Vec<AttributeValue>, usize),
    Fail,
>)
    requires
        ready(src, old(tracker), p as int),
    ensures
        match values_at(src@, p as int) {
            Ok((values, next)) => r matches Ok((v, n)) && value_views(v@) == values && n == next
                && ready(src, final(tracker), next),
            Err(f) => r matches Err(e) && e@ == f,
        },
{
    let bytes = src.bytes;
    let ghost s = src@;
    let mut values: Vec<AttributeValue> = Vec::new();
    let mut i: usize = p;
    assert(value_views(values@) + Seq::<ValueView>::empty() =~= Seq::empty());
    loop
        invariant
            bytes == src.bytes,
            s == src@,
            p <= i,
            ready(src, tracker, i as int),
            match values_at(s, i as int) {
                Ok((rest, next)) => values_at(s, p as int) == Ok::<_, Failure>(
                    (value_views(values@) + rest, next),
                ),
                Err(f) => values_at(s, p as int) == Err::<(Seq<ValueView>, int), _>(f),
            },
        decreases s.len() - i,
    {
        if i >= bytes.len() || !quote(bytes[i]) {
            assert(value_views(values@) + Seq::<ValueView>::empty() =~= value_views(
                values@,
            ));
            return Ok((values, i));
        }
        let q: u8 = bytes[i];
        let end: usize = find_quote(bytes, i + 1, q);
        if end >= bytes.len() {
            return Err(Fail { fault: Fault::UnterminatedValue, at: i });
        }
        tracker.advance(bytes, i + 1);
        let pos = tracker.position(bytes);
        let value = src.slice(i + 1, end);
        let ghost before = values@;
        values.push(AttributeValue { value, line: pos.line, column: pos.column, offset: pos.offset });
        proof {
            let added = values@[before.len() as int]@;
            assert(value_views(values@) =~= value_views(before) + seq![added]);
            match values_at(s, end + 2) {
                Ok((more, next)) => {
                    assert(value_views(before) + (seq![added] + more) =~= value_views(values@)
                        + more);
                },
                Err(f) => {},
            }
        }
        if end + 1 < bytes.len() && bytes[end + 1] == COMMA {
            i = end + 2;
        } else {
            return Ok((values, end + 1));
        }
    }
}

/// Reads one attribute from offset `p`. `None` where no name stands there
/// after the white space.
pub fn parse_attribute(src: &Source, p: usize, tracker: &mut Tracker) -> (r: Result<
    Option<(Attribute, usize)>,
    Fail,
>)
    requires
        ready(src, old(tracker), p as int),
    ensures
        match attribute_at(src@, p as int) {
            Ok(Some((attribute, next))) => r matches Ok(Some((a, n))) && a@ == attribute && n
                == next && ready(src, final(tracker), next),
            Ok(None) => r matches Ok(None) && ready(src, final(tracker), p as int),
            Err(f) => r matches Err(e) && e@ == f,
        },
{
    let bytes = src.bytes;
    let start: usize = skip_space(bytes, p);
    let end: usize = match name_parser(bytes, start) {
        None => {
            return Ok(None);
        },
        Some(end) => end,
    };
    if end >= bytes.len() || bytes[end] != EQUALS {
        return Err(Fail { fault: Fault::MissingEquals, at: end });
    }
    tracker.advance(bytes, start);
    let pos = tracker.position(bytes);
    let name = src.slice(start, end);
    match parse_attribute_values(src, end + 1, tracker) {
        Err(e) => Err(e),
        Ok((values, next)) => Ok(
            Some(
                (
                    Attribute {
                        name,
                        values,
                        line: pos.line,
                        column: pos.column,
                        offset: pos.offset,
                    },
                    next,
                ),
            ),
        ),
    }
}

/// Reads attributes from offset `p` until no name follows.
pub fn parse_attributes(src: &Source, p: usize, tracker: &mut Tracker) -> (r: Result<
    (Vec<Attribute>, usize),
    Fail,
>)
    requires
        ready(src, old(tracker), p as int),
    ensures
        match attributes_at(src@, p as int) {
            Ok((attributes, next)) => r matches Ok((a, n)) && attribute_views(a@) == attributes
                && n == next && ready(src, final(tracker), next),
            Err(f) => r matches Err(e) && e@ == f,
        },
{
    let ghost s = src@;
    let mut attributes: Vec<Attribute> = Vec::new();
    let mut i: usize = p;
    assert(attribute_views(attributes@) + Seq::<AttributeView>::empty()
        =~= Seq::empty());
    loop
        invariant
            s == src@,
            p <= i,
            ready(src, tracker, i as int),
            match attributes_at(s, i as int) {
                Ok((rest, next)) => attributes_at(s, p as int) == Ok::<_, Failure>(
                    (attribute_views(attributes@) + rest, next),
                ),
                Err(f) => attributes_at(s, p as int) == Err::<
                    (Seq<AttributeView>, int),
                    _,
                >(f),
            },
        decreases s.len() - i,
    {
        proof {
            lemma_attribute_at(s, i as int);
        }
        match parse_attribute(src, i, tracker) {
            Err(e) => {
                return Err(e);
            },
            Ok(None) => {
                assert(attribute_views(attributes@) + Seq::<AttributeView>::empty()
                    =~= attribute_views(attributes@));
                return Ok((attributes, i));
            },
            Ok(Some((attribute, next))) => {
                let ghost before = attributes@;
                attributes.push(attribute);
                proof {
                    let added = attribute@;
                    assert(attribute_views(attributes@) =~= attribute_views(before) + seq![added]);
                    lemma_attributes_at(s, next as int);
                    match attributes_at(s, next as int) {
                        Ok((more, last)) => {
                            assert(attribute_views(before) + (seq![added] + more)
                                =~= attribute_views(attributes@) + more);
                        },
                        Err(f) => {},
                    }
                }
                i = next;
            },
        }
    }
}

/// The offset after the opening marker of a tag at `p`, or `None`.
pub fn opening(bytes: &[u8], p: usize) -> (r: Option<usize>)
    requires
        p <= bytes@.len(),
    ensures
        match opening_at(bytes@, p as int) {
            Some(after) => r == Some(after as usize) && after <= bytes@.len(),
            None => r is None,
        },
{
    if p >= bytes.len() || bytes[p] != LT {
        return None;
    }
    if mt_here(bytes, p + 1) {
        Some(p + 3)
    } else if bytes.len() - p >= 2 && bytes[p + 1] == DOLLAR && mt_here(bytes, p + 2) {
        Some(p + 4)
    } else {
        None
    }
}

/// Whether the bytes from `start` to `end` spell `else` in either case.
pub fn spells_else(bytes: &[u8], start: usize, end: usize) -> (r: bool)
    requires
        start <= end <= bytes@.len(),
    ensures
        r == (lower_all(bytes@.subrange(start as int, end as int)) == else_name()),
{
    let ghost name = lower_all(bytes@.subrange(start as int, end as int));
    if end - start != 4 {
        assert(else_name().len() == 4);
        return false;
    }
    let r: bool = to_lower(bytes[start]) == 101 && to_lower(bytes[start + 1]) == 108 && to_lower(
        bytes[start + 2],
    ) == 115 && to_lower(bytes[start + 3]) == 101;
    proof {
        if r {
            assert(name =~= else_name());
        } else {
            assert(name[0] == lower(bytes@[start as int]));
            assert(name[1] == lower(bytes@[start + 1]));
            assert(name[2] == lower(bytes@[start + 2]));
            assert(name[3] == lower(bytes@[start + 3]));
        }
    }
    r
}

/// The offset after the end marker of block `name` at `p`, or `None` where
/// no such marker stands there.
pub fn end_marker(bytes: &[u8], p: usize, name: &[u8]) -> (r: Option<usize>)
    requires
        p <= bytes@.len(),
    ensures
        match end_marker_at(bytes@, p as int, name@) {
            Some(next) => r == Some(next as usize) && p < next <= bytes@.len(),
            None => r is None,
        },
{
    let len: usize = bytes.len();
    if len - p < 4 || bytes[p] != LT || bytes[p + 1] != SLASH || !mt_here(bytes, p + 2) {
        return None;
    }
    let start: usize = if p + 4 < len && bytes[p + 4] == COLON {
        p + 5
    } else {
        p + 4
    };
    if len - start <= name.len() {
        return None;
    }
    let end: usize = start + name.len();
    let ghost found = bytes@.subrange(start as int, end as int);
    let mut j: usize = 0;
    while j < name.len() && to_lower(bytes[start + j]) == to_lower(name[j])
        invariant
            j <= name@.len(),
            end == start + name@.len(),
            end < bytes@.len(),
            found == bytes@.subrange(start as int, end as int),
            forall|k: int| 0 <= k < j ==> lower(found[k]) == lower(name@[k]),
        decreases name@.len() - j,
    {
        j = j + 1;
    }
    if j < name.len() {
        assert(lower_all(found)[j as int] != lower_all(name@)[j as int]);
        return None;
    }
    assert(lower_all(found) =~= lower_all(name@));
    if bytes[end] != GT {
        return None;
    }
    Some(end + 1)
}

/// Reads one tag at offset `p`, with its body where it is a block. Gives the
/// node and the offset after it. `depth` is the number of blocks that may
/// still open, one inside the other.
pub fn parse_tag(
    src: &Source,
    p: usize,
    registry: &TagRegistry,
    depth: usize,
    tracker: &mut Tracker,
) -> (r: Result<(Node, usize), Fail>)
    requires
        ready(src, old(tracker), p as int),
    ensures
        match tag_at(src@, p as int, registry@, depth as nat) {
            Ok((node, next)) => r matches Ok((n, after)) && n@ == node && after == next && p
                < after && is_cut(src@, next) && ready(src, final(tracker), next),
            Err(f) => r matches Err(e) && e@ == f,
        },
    decreases depth, 0int,
{
    let bytes = src.bytes;
    let ghost s = src@;
    proof {
        lemma_head_at(s, p as int);
    }
    let after: usize = match opening(bytes, p) {
        None => {
            return Err(Fail { fault: Fault::TagOpen, at: p });
        },
        Some(after) => after,
    };
    let sigil: bool = after == p + 4;
    let start: usize = if after < bytes.len() && bytes[after] == COLON {
        after + 1
    } else {
        after
    };
    let end: usize = match name_parser(bytes, start) {
        None => {
            return Err(Fail { fault: Fault::TagName, at: start });
        },
        Some(end) => end,
    };
    tracker.advance(bytes, p);
    let pos = tracker.position(bytes);
    let name = src.slice(start, end);
    let (attributes, tail) = match parse_attributes(src, end, tracker) {
        Err(e) => {
            return Err(e);
        },
        Ok(found) => found,
    };
    let close: usize = find_close(bytes, tail);
    if close >= bytes.len() {
        return Err(Fail { fault: Fault::UnterminatedTag, at: p });
    }
    let slash: bool = close > tail && bytes[close - 1] == SLASH;
    let function: bool = registry.contains_range(bytes, start, end) || spells_else(
        bytes,
        start,
        end,
    ) || sigil || slash;
    if function {
        return Ok(
            (
                Node::FunctionTag(
                    FunctionTagNode {
                        name,
                        attributes,
                        line: pos.line,
                        column: pos.column,
                        offset: pos.offset,
                    },
                ),
                close + 1,
            ),
        );
    }
    if depth == 0 {
        return Err(Fail { fault: Fault::TooDeep, at: p });
    }
    proof {
        lemma_body_at(s, close + 1, Some(encode_utf8(name@)), registry@, (depth - 1) as nat);
    }
    match parse_internal(src, close + 1, Some(&name), registry, depth - 1, tracker) {
        Err(e) => Err(e),
        Ok((children, next)) => Ok(
            (
                Node::BlockTag(
                    BlockTagNode {
                        name,
                        attributes,
                        children,
                        line: pos.line,
                        column: pos.column,
                        offset: pos.offset,
                    },
                ),
                next,
            ),
        ),
    }
}

/// The bytes of the name of the enclosing block, if there is one.
pub open spec fn enclosing_name(current_tag: Option<&String>) -> Option<Seq<u8>> {
    match current_tag {
        Some(name) => Some(encode_utf8(name@)),
        None => None,
    }
}

/// Reads a body from offset `p`: text and tags up to the end marker of
/// `current_tag`, which it takes, or up to the end of the document. Gives
/// the nodes and the offset after the body.
pub fn parse_internal(
    src: &Source,
    p: usize,
    current_tag: Option<&String>,
    registry: &TagRegistry,
    depth: usize,
    tracker: &mut Tracker,
) -> (r: Result<(Vec<Node>, usize), Fail>)
    requires
        ready(src, old(tracker), p as int),
        is_cut(src@, p as int),
    ensures
        match body_at(src@, p as int, enclosing_name(current_tag), registry@, depth as nat) {
            Ok((nodes, used)) => r matches Ok((n, next)) && node_views(n@) == nodes && next == p
                + used && is_cut(src@, p + used) && ready(src, final(tracker), p + used),
            Err(f) => r matches Err(e) && e@ == f,
        },
    decreases depth, 1int,
{
    let bytes = src.bytes;
    let ghost s = src@;
    let ghost enclosing = enclosing_name(current_tag);
    let ghost reg = registry@;
    let mut children: Vec<Node> = Vec::new();
    let mut i: usize = p;
    assert(node_views(children@) + Seq::<NodeView>::empty() =~= Seq::empty());
    loop
        invariant
            bytes == src.bytes,
            s == src@,
            enclosing == enclosing_name(current_tag),
            reg == registry@,
            p <= i,
            is_cut(s, i as int),
            ready(src, tracker, i as int),
            match body_at(s, i as int, enclosing, reg, depth as nat) {
                Ok((rest, used)) => body_at(s, p as int, enclosing, reg, depth as nat) == Ok::<
                    _,
                    Failure,
                >((node_views(children@) + rest, (i - p + used) as nat)),
                Err(f) => body_at(s, p as int, enclosing, reg, depth as nat) == Err::<
                    (Seq<NodeView>, nat),
                    _,
                >(f),
            },
        decreases s.len() - i,
    {
        if i >= bytes.len() {
            proof {
                lemma_body_end(s, i as int, enclosing, reg, depth as nat);
            }
            assert(node_views(children@) + Seq::<NodeView>::empty() =~= node_views(children@));
            return Ok((children, i));
        }
        proof {
            lemma_text_end(s, i as int);
            lemma_body_at(s, i as int, enclosing, reg, depth as nat);
            lemma_body_step(s, i as int, enclosing, reg, depth as nat);
        }
        let stop: usize = take_until_tag(bytes, i);
        let ghost before = children@;
        if stop > i {
            tracker.advance(bytes, i);
            let pos = tracker.position(bytes);
            let value = src.slice(i, stop);
            children.push(
                Node::Text(TextNode { value, line: pos.line, column: pos.column, offset: pos.offset }),
            );
        }
        assert(node_views(children@) =~= node_views(before) + text_nodes(s, i as int, stop as int));
        if stop >= bytes.len() {
            return Ok((children, stop));
        }
        let closing: bool = bytes[stop + 1] == SLASH;
        if closing {
            if let Some(name) = current_tag {
                return match end_marker(bytes, stop, name.as_str().as_bytes()) {
                    Some(next) => Ok((children, next)),
                    None => Err(Fail { fault: Fault::EndTag, at: stop }),
                };
            }
        }
        proof {
            lemma_head_at(s, stop as int);
        }
        match parse_tag(src, stop, registry, depth, tracker) {
            Err(e) => {
                return Err(e);
            },
            Ok((node, next)) => {
                let ghost middle = children@;
                children.push(node);
                proof {
                    let added = node_view(node);
                    assert(node_views(children@) =~= node_views(middle) + seq![added]);
                    lemma_body_at(s, next as int, enclosing, reg, depth as nat);
                    match body_at(s, next as int, enclosing, reg, depth as nat) {
                        Ok((rest, used)) => {
                            assert(node_views(before) + (text_nodes(s, i as int, stop as int)
                                + seq![added] + rest) =~= node_views(children@) + rest);
                        },
                        Err(f) => {},
                    }
                }
                i = next;
            },
        }
    }
}

/// View of a [`ParseError`].
pub struct ErrorView {
    pub message: Seq<char>,
    pub position: Option<Place>,
}

/// Why a document was refused, and where.
#[derive(Debug, Clone, PartialEq, Eq)]
pub struct ParseError {
    pub message: String,
    /// The place of the fault; `None` where the fault is of the whole
    /// document.
    pub position: Option<Position>,
}

impl View for ParseError {
    type V = ErrorView;

    open spec fn view(&self) -> ErrorView {
        ErrorView {
            message: self.message@,
            position: match self.position {
                Some(p) => Some(p@),
                None => None,
            },
        }
    }
}

/// The message that stands for a fault.
pub open spec fn message_of(fault: Fault) -> Seq<char> {
    match fault {
        Fault::TagOpen => "expected `<mt` or `<$mt` at the start of a tag"@,
        Fault::TagName => "expected a tag name"@,
        Fault::MissingEquals => "expected `=` after an attribute name"@,
        Fault::UnterminatedValue => "unterminated attribute value"@,
        Fault::UnterminatedTag => "expected `>` at the end of a tag"@,
        Fault::EndTag => "end tag does not match the open block"@,
        Fault::TooDeep => "blocks are nested too deep"@,
        Fault::TooLong => "document is too long"@,
    }
}

/// The error that stands for a failure in document `s`.
pub open spec fn error_of(s: Seq<u8>, f: Failure) -> ErrorView {
    ErrorView {
        message: message_of(f.fault),
        position: if f.fault == Fault::TooLong {
            None
        } else {
            Some(place_at(s, f.at))
        },
    }
}

/// The message that stands for a fault.
pub fn message(fault: Fault) -> (text: String)
    ensures
        text@ == message_of(fault),
{
    match fault {
        Fault::TagOpen => "expected `<mt` or `<$mt` at the start of a tag".to_owned(),
        Fault::TagName => "expected a tag name".to_owned(),
        Fault::MissingEquals => "expected `=` after an attribute name".to_owned(),
        Fault::UnterminatedValue => "unterminated attribute value".to_owned(),
        Fault::UnterminatedTag => "expected `>` at the end of a tag".to_owned(),
        Fault::EndTag => "end tag does not match the open block".to_owned(),
        Fault::TooDeep => "blocks are nested too deep".to_owned(),
        Fault::TooLong => "document is too long".to_owned(),
    }
}

/// The error for a fault met in a document, with its place.
pub fn locate(src: &Source, fail: Fail) -> (e: ParseError)
    requires
        src@.len() <= max_len(),
        fail.at <= src@.len(),
        fail.fault != Fault::TooLong,
    ensures
        e@ == error_of(src@, fail@),
{
    let mut tracker = Tracker::new(src.bytes);
    tracker.advance(src.bytes, fail.at);
    ParseError { message: message(fail.fault), position: Some(tracker.position(src.bytes)) }
}

/// The number of blocks that [`parse`] lets open one inside the other.
pub const MAX_DEPTH: usize = 128;

/// Parses a document with the given registry of function tags, letting at
/// most `max_depth` blocks open one inside the other.
///
/// The result is the root of the tree that the grammar gives for the bytes
/// of `input`, or the error for the first fault that the grammar meets.
pub fn parse_with(input: &str, registry: &TagRegistry, max_depth: usize) -> (r: Result<
    Node,
    ParseError,
>)
    ensures
        match document(input.spec_bytes(), registry@, max_depth as nat) {
            Ok(children) => r matches Ok(node) && node@ == (NodeView::Root { children }),
            Err(f) => r matches Err(e) && e@ == error_of(input.spec_bytes(), f),
        },
{
    let src = Source::new(input);
    if src.len() >= u32::MAX as usize {
        return Err(ParseError { message: message(Fault::TooLong), position: None });
    }
    let mut tracker = Tracker::new(src.bytes);
    proof {
        lemma_body_at(src@, 0, None, registry@, max_depth as nat);
        lemma_no_fault_of_length(src@, 0, None, registry@, max_depth as nat);
    }
    match parse_internal(&src, 0, None, registry, max_depth, &mut tracker) {
        Ok((children, _)) => Ok(Node::Root(RootNode { children })),
        Err(fail) => Err(locate(&src, fail)),
    }
}

/// Parses a document with the standard registry and the standard limit on
/// nesting.
///
/// ```
/// use mtml_parser::parse;
///
/// let root = parse("<body><mt:Entries><mt:EntryTitle /></mt:Entries></body>");
/// assert!(root.is_ok());
/// ```
pub fn parse(input: &str) -> (r: Result<Node, ParseError>)
    ensures
        match document(input.spec_bytes(), names_of(STANDARD_TAGS@), MAX_DEPTH as nat) {
            Ok(children) => r matches Ok(node) && node@ == (NodeView::Root { children }),
            Err(f) => r matches Err(e) && e@ == error_of(input.spec_bytes(), f),
        },
{
    let registry = TagRegistry::standard();
    parse_with(input, &registry, MAX_DEPTH)
}

} // verus!
