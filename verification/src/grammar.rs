//! The grammar of a document, as functions on its bytes.
//!
//! Every function takes the whole document `s` and an offset into it, so that
//! the places it records are places in the document.

use crate::ast::{AttributeView, NodeView, ValueView};
use crate::bytes::{
    is_name_byte, is_name_start, is_quote, is_space, lower, lower_all, same_ignoring_case,
    BACKSLASH, COLON, COMMA, DOLLAR, EQUALS, GT, LOWER_M, LOWER_T, LT, SLASH,
};
use crate::position::place_at;
use vstd::prelude::*;

verus! {

/// Why a document is refused.
#[derive(Debug, Clone, Copy, PartialEq, Eq, Structural)]
pub enum Fault {
    /// A tag does not begin with `<mt` or `<$mt`.
    TagOpen,
    /// No name follows the opening of a tag.
    TagName,
    /// An attribute name is not followed by `=`.
    MissingEquals,
    /// A quoted value has no closing quote.
    UnterminatedValue,
    /// No `>` closes a tag.
    UnterminatedTag,
    /// An end marker does not name the block it stands in.
    EndTag,
    /// Blocks are nested deeper than the limit.
    TooDeep,
    /// The document has more bytes than line numbers can count.
    TooLong,
}

/// A fault and the offset at which it was met.
pub struct Failure {
    pub fault: Fault,
    pub at: int,
}

/// The letters `mt`, in either case, at offset `j`.
pub open spec fn mt_at(s: Seq<u8>, j: int) -> bool {
    &&& 0 <= j
    &&& j + 1 < s.len()
    &&& lower(s[j]) == LOWER_M
    &&& lower(s[j + 1]) == LOWER_T
}

/// A `$` or a `/` at offset `j`.
pub open spec fn sigil_at(s: Seq<u8>, j: int) -> bool {
    0 <= j < s.len() && (s[j] == DOLLAR || s[j] == SLASH)
}

/// A tag boundary at offset `i`: `<`, then at most one of `$` and `/`, then
/// `mt` in either case.
pub open spec fn tag_open_at(s: Seq<u8>, i: int) -> bool {
    &&& 0 <= i < s.len()
    &&& s[i] == LT
    &&& mt_at(s, if sigil_at(s, i + 1) { i + 2 } else { i + 1 })
}

/// The first tag boundary at or after `p`, or the end of the document.
pub open spec fn text_end(s: Seq<u8>, p: int) -> int
    decreases s.len() - p,
{
    if p < 0 || p >= s.len() {
        s.len() as int
    } else if tag_open_at(s, p) {
        p
    } else {
        text_end(s, p + 1)
    }
}

/// The first offset at or after `p` that holds no name byte.
pub open spec fn name_end(s: Seq<u8>, p: int) -> int
    decreases s.len() - p,
{
    if p < 0 || p >= s.len() || !is_name_byte(s[p]) {
        p
    } else {
        name_end(s, p + 1)
    }
}

/// The first offset at or after `p` that holds no white space.
pub open spec fn space_end(s: Seq<u8>, p: int) -> int
    decreases s.len() - p,
{
    if p < 0 || p >= s.len() || !is_space(s[p]) {
        p
    } else {
        space_end(s, p + 1)
    }
}

/// The first offset at or after `p` that holds `>`, or the end of the
/// document.
pub open spec fn tag_close(s: Seq<u8>, p: int) -> int
    decreases s.len() - p,
{
    if p < 0 || p >= s.len() {
        s.len() as int
    } else if s[p] == GT {
        p
    } else {
        tag_close(s, p + 1)
    }
}

/// The offset of the quote that closes a value whose content begins at `p`,
/// or the end of the document where none does. A backslash directly before
/// the quote character keeps that quote inside the value.
pub open spec fn value_end(s: Seq<u8>, p: int, q: u8) -> int
    decreases s.len() - p,
{
    if p < 0 || p >= s.len() {
        s.len() as int
    } else if s[p] == BACKSLASH && p + 1 < s.len() && s[p + 1] == q {
        value_end(s, p + 2, q)
    } else if s[p] == q {
        p
    } else {
        value_end(s, p + 1, q)
    }
}

/// Text ends at or after its start, at a tag boundary or at the end of the
/// document, and holds no tag boundary.
pub proof fn lemma_text_end(s: Seq<u8>, p: int)
    requires
        0 <= p <= s.len(),
    ensures
        p <= text_end(s, p) <= s.len(),
        text_end(s, p) < s.len() ==> tag_open_at(s, text_end(s, p)),
        forall|i: int| p <= i < text_end(s, p) ==> !tag_open_at(s, i),
    decreases s.len() - p,
{
    if p < s.len() && !tag_open_at(s, p) {
        lemma_text_end(s, p + 1);
    }
}

/// A name ends at or after the offset given, before a byte that is no name
/// byte, and holds name bytes only.
pub proof fn lemma_name_end(s: Seq<u8>, p: int)
    requires
        0 <= p <= s.len(),
    ensures
        p <= name_end(s, p) <= s.len(),
        name_end(s, p) < s.len() ==> !is_name_byte(s[name_end(s, p)]),
        forall|i: int| p <= i < name_end(s, p) ==> is_name_byte(s[i]),
    decreases s.len() - p,
{
    if p < s.len() && is_name_byte(s[p]) {
        lemma_name_end(s, p + 1);
    }
}

/// White space ends at or after its start, before a byte that is none.
pub proof fn lemma_space_end(s: Seq<u8>, p: int)
    requires
        0 <= p <= s.len(),
    ensures
        p <= space_end(s, p) <= s.len(),
        space_end(s, p) < s.len() ==> !is_space(s[space_end(s, p)]),
        forall|i: int| p <= i < space_end(s, p) ==> is_space(s[i]),
    decreases s.len() - p,
{
    if p < s.len() && is_space(s[p]) {
        lemma_space_end(s, p + 1);
    }
}

/// A tag closes at or after the offset given, at the first `>`.
pub proof fn lemma_tag_close(s: Seq<u8>, p: int)
    requires
        0 <= p <= s.len(),
    ensures
        p <= tag_close(s, p) <= s.len(),
        tag_close(s, p) < s.len() ==> s[tag_close(s, p)] == GT,
        forall|i: int| p <= i < tag_close(s, p) ==> s[i] != GT,
    decreases s.len() - p,
{
    if p < s.len() && s[p] != GT {
        lemma_tag_close(s, p + 1);
    }
}

/// A value ends at or after its start, at its quote character or at the
/// end of the document.
pub proof fn lemma_value_end(s: Seq<u8>, p: int, q: u8)
    requires
        0 <= p <= s.len(),
    ensures
        p <= value_end(s, p, q) <= s.len(),
        value_end(s, p, q) < s.len() ==> s[value_end(s, p, q)] == q,
    decreases s.len() - p,
{
    if p < s.len() {
        if s[p] == BACKSLASH && p + 1 < s.len() && s[p + 1] == q {
            lemma_value_end(s, p + 2, q);
        } else if s[p] != q {
            lemma_value_end(s, p + 1, q);
        }
    }
}

/// The values of an attribute, read from offset `p`: quoted values with a
/// comma between them. Gives the values and the offset after them.
pub open spec fn values_at(s: Seq<u8>, p: int) -> Result<(Seq<ValueView>, int), Failure>
    decreases s.len() - p,
    via values_at_decreases
{
    if p < 0 || p >= s.len() || !is_quote(s[p]) {
        Ok((Seq::empty(), p))
    } else {
        let end = value_end(s, p + 1, s[p]);
        if end >= s.len() {
            Err(Failure { fault: Fault::UnterminatedValue, at: p })
        } else {
            let value = ValueView { value: s.subrange(p + 1, end), place: place_at(s, p + 1) };
            if end + 1 < s.len() && s[end + 1] == COMMA {
                match values_at(s, end + 2) {
                    Ok((more, next)) => Ok((seq![value] + more, next)),
                    Err(f) => Err(f),
                }
            } else {
                Ok((seq![value], end + 1))
            }
        }
    }
}

/// The values after a comma lie behind the value before it.
#[via_fn]
proof fn values_at_decreases(s: Seq<u8>, p: int) {
    if 0 <= p < s.len() {
        lemma_value_end(s, p + 1, s[p]);
    }
}

/// One attribute read from offset `p`, after any white space: a name, `=`,
/// and its values. `None` where no name stands there.
pub open spec fn attribute_at(s: Seq<u8>, p: int) -> Result<Option<(AttributeView, int)>, Failure> {
    let start = space_end(s, p);
    if start < 0 || start >= s.len() || !is_name_start(s[start]) {
        Ok(None)
    } else {
        let end = name_end(s, start + 1);
        if end >= s.len() || s[end] != EQUALS {
            Err(Failure { fault: Fault::MissingEquals, at: end })
        } else {
            match values_at(s, end + 1) {
                Ok((values, next)) => Ok(
                    Some(
                        (
                            AttributeView {
                                name: s.subrange(start, end),
                                values,
                                place: place_at(s, start),
                            },
                            next,
                        ),
                    ),
                ),
                Err(f) => Err(f),
            }
        }
    }
}

/// Values end inside the document, and so does the offset of their fault.
pub proof fn lemma_values_at(s: Seq<u8>, p: int)
    requires
        0 <= p <= s.len(),
    ensures
        values_at(s, p) matches Ok((values, next)) ==> p <= next <= s.len(),
        values_at(s, p) matches Err(f) ==> p <= f.at < s.len(),
    decreases s.len() - p,
{
    if p < s.len() && is_quote(s[p]) {
        lemma_value_end(s, p + 1, s[p]);
        let end = value_end(s, p + 1, s[p]);
        if end < s.len() && end + 1 < s.len() && s[end + 1] == COMMA {
            lemma_values_at(s, end + 2);
        }
    }
}

/// An attribute takes two bytes at least and ends inside the document, and
/// so does the offset of its fault.
pub proof fn lemma_attribute_at(s: Seq<u8>, p: int)
    requires
        0 <= p <= s.len(),
    ensures
        attribute_at(s, p) matches Ok(Some((a, next))) ==> p + 2 <= next <= s.len(),
        attribute_at(s, p) matches Err(f) ==> p <= f.at <= s.len(),
{
    lemma_space_end(s, p);
    let start = space_end(s, p);
    if start < s.len() && is_name_start(s[start]) {
        lemma_name_end(s, start + 1);
        let end = name_end(s, start + 1);
        if end < s.len() && s[end] == EQUALS {
            lemma_values_at(s, end + 1);
        }
    }
}

/// The attributes of a tag, read from offset `p` until no name follows.
pub open spec fn attributes_at(s: Seq<u8>, p: int) -> Result<(Seq<AttributeView>, int), Failure>
    decreases s.len() - p,
    via attributes_at_decreases
{
    if p < 0 || p > s.len() {
        Ok((Seq::empty(), p))
    } else {
        match attribute_at(s, p) {
            Err(f) => Err(f),
            Ok(None) => Ok((Seq::empty(), p)),
            Ok(Some((attribute, next))) => match attributes_at(s, next) {
                Ok((more, last)) => Ok((seq![attribute] + more, last)),
                Err(f) => Err(f),
            },
        }
    }
}

/// The attributes after an attribute lie behind it.
#[via_fn]
proof fn attributes_at_decreases(s: Seq<u8>, p: int) {
    if 0 <= p <= s.len() {
        lemma_attribute_at(s, p);
    }
}

/// Attributes end inside the document, and so does the offset of their
/// fault.
pub proof fn lemma_attributes_at(s: Seq<u8>, p: int)
    requires
        0 <= p <= s.len(),
    ensures
        attributes_at(s, p) matches Ok((attributes, next)) ==> p <= next <= s.len(),
        attributes_at(s, p) matches Err(f) ==> p <= f.at <= s.len(),
    decreases s.len() - p,
{
    lemma_attribute_at(s, p);
    match attribute_at(s, p) {
        Ok(Some((attribute, next))) => {
            lemma_attributes_at(s, next);
        },
        _ => {},
    }
}

/// The faults that a list of attributes can have.
pub proof fn lemma_attributes_fault(s: Seq<u8>, p: int)
    requires
        0 <= p <= s.len(),
    ensures
        attributes_at(s, p) matches Err(f) ==> f.fault == Fault::MissingEquals || f.fault
            == Fault::UnterminatedValue,
    decreases s.len() - p,
{
    lemma_attribute_at(s, p);
    lemma_space_end(s, p);
    let start = space_end(s, p);
    if start < s.len() && is_name_start(s[start]) {
        lemma_name_end(s, start + 1);
        let end = name_end(s, start + 1);
        if end < s.len() && s[end] == EQUALS {
            lemma_values_fault(s, end + 1);
        }
    }
    match attribute_at(s, p) {
        Ok(Some((attribute, next))) => {
            lemma_attributes_fault(s, next);
        },
        _ => {},
    }
}

/// The one fault that a list of values can have.
pub proof fn lemma_values_fault(s: Seq<u8>, p: int)
    requires
        0 <= p <= s.len(),
    ensures
        values_at(s, p) matches Err(f) ==> f.fault == Fault::UnterminatedValue,
    decreases s.len() - p,
{
    if p < s.len() && is_quote(s[p]) {
        lemma_value_end(s, p + 1, s[p]);
        let end = value_end(s, p + 1, s[p]);
        if end < s.len() && end + 1 < s.len() && s[end + 1] == COMMA {
            lemma_values_fault(s, end + 2);
        }
    }
}

/// What the opening of a tag says, before its kind is decided.
pub struct TagHead {
    pub name: Seq<u8>,
    pub attributes: Seq<AttributeView>,
    /// The tag opens with `<$`.
    pub sigil: bool,
    /// A `/` stands directly before the closing `>`.
    pub slash: bool,
    /// Offset after the closing `>`.
    pub next: int,
}

/// Offset after the opening marker of a tag at `p`, `<mt` or `<$mt` in
/// either case, or `None`.
pub open spec fn opening_at(s: Seq<u8>, p: int) -> Option<int> {
    if 0 <= p < s.len() && s[p] == LT && mt_at(s, p + 1) {
        Some(p + 3)
    } else if 0 <= p && p + 1 < s.len() && s[p] == LT && s[p + 1] == DOLLAR && mt_at(s, p + 2) {
        Some(p + 4)
    } else {
        None
    }
}

/// `p`, or the offset after a colon that stands at `p`.
pub open spec fn skip_colon(s: Seq<u8>, p: int) -> int {
    if 0 <= p < s.len() && s[p] == COLON {
        p + 1
    } else {
        p
    }
}

/// The opening of a tag at `p`: marker, optional colon, name, attributes,
/// anything up to `>`, and `>`.
pub open spec fn head_at(s: Seq<u8>, p: int) -> Result<TagHead, Failure> {
    match opening_at(s, p) {
        None => Err(Failure { fault: Fault::TagOpen, at: p }),
        Some(after) => {
            let start = skip_colon(s, after);
            if start >= s.len() || !is_name_start(s[start]) {
                Err(Failure { fault: Fault::TagName, at: start })
            } else {
                let end = name_end(s, start + 1);
                match attributes_at(s, end) {
                    Err(f) => Err(f),
                    Ok((attributes, tail)) => {
                        let close = tag_close(s, tail);
                        if close >= s.len() {
                            Err(Failure { fault: Fault::UnterminatedTag, at: p })
                        } else {
                            Ok(
                                TagHead {
                                    name: s.subrange(start, end),
                                    attributes,
                                    sigil: after == p + 4,
                                    slash: close > tail && s[close - 1] == SLASH,
                                    next: close + 1,
                                },
                            )
                        }
                    },
                }
            }
        },
    }
}

/// The opening of a tag takes five bytes at least and ends inside the
/// document, and so does the offset of its fault.
pub proof fn lemma_head_at(s: Seq<u8>, p: int)
    requires
        0 <= p <= s.len(),
    ensures
        head_at(s, p) matches Ok(head) ==> p + 5 <= head.next <= s.len(),
        head_at(s, p) matches Err(f) ==> p <= f.at <= s.len(),
{
    match opening_at(s, p) {
        None => {},
        Some(after) => {
            let start = skip_colon(s, after);
            if start < s.len() && is_name_start(s[start]) {
                lemma_name_end(s, start + 1);
                let end = name_end(s, start + 1);
                lemma_attributes_at(s, end);
                match attributes_at(s, end) {
                    Err(f) => {},
                    Ok((attributes, tail)) => {
                        lemma_tag_close(s, tail);
                    },
                }
            }
        },
    }
}

/// The faults that the opening of a tag can have.
pub proof fn lemma_head_fault(s: Seq<u8>, p: int)
    requires
        0 <= p <= s.len(),
    ensures
        head_at(s, p) matches Err(f) ==> f.fault != Fault::TooLong && f.fault != Fault::TooDeep
            && f.fault != Fault::EndTag,
{
    match opening_at(s, p) {
        None => {},
        Some(after) => {
            let start = skip_colon(s, after);
            if start < s.len() && is_name_start(s[start]) {
                lemma_name_end(s, start + 1);
                lemma_attributes_fault(s, name_end(s, start + 1));
            }
        },
    }
}

/// The name `else`, which always names a function tag.
pub open spec fn else_name() -> Seq<u8> {
    seq![101u8, 108u8, 115u8, 101u8]
}

/// Whether a tag is a function tag: its name, in small letters, is
/// registered or is `else`, or it opens with `<$`, or it ends in `/>`.
pub open spec fn is_function(head: TagHead, registry: Set<Seq<u8>>) -> bool {
    ||| registry.contains(lower_all(head.name))
    ||| lower_all(head.name) == else_name()
    ||| head.sigil
    ||| head.slash
}

/// Offset after the end marker of block `name` at `p`: `</mt`, an optional
/// colon, the name in either case, and `>`. `None` where no such marker
/// stands at `p`.
pub open spec fn end_marker_at(s: Seq<u8>, p: int, name: Seq<u8>) -> Option<int> {
    let start = skip_colon(s, p + 4);
    let end = start + name.len();
    if 0 <= p && p + 1 < s.len() && s[p] == LT && s[p + 1] == SLASH && mt_at(s, p + 2) && end
        < s.len() && same_ignoring_case(s.subrange(start, end), name) && s[end] == GT {
        Some(end + 1)
    } else {
        None
    }
}

/// The text node for the bytes from `p` to `end`, if there are any.
pub open spec fn text_nodes(s: Seq<u8>, p: int, end: int) -> Seq<NodeView> {
    if p < end {
        seq![NodeView::Text { value: s.subrange(p, end), place: place_at(s, p) }]
    } else {
        Seq::empty()
    }
}

/// The function tag that `head`, read at `p`, stands for.
pub open spec fn function_node(s: Seq<u8>, p: int, head: TagHead) -> NodeView {
    NodeView::FunctionTag { name: head.name, attributes: head.attributes, place: place_at(s, p) }
}

/// The block tag that `head`, read at `p`, stands for, with its children.
pub open spec fn block_node(s: Seq<u8>, p: int, head: TagHead, children: Seq<NodeView>) -> NodeView {
    NodeView::BlockTag {
        name: head.name,
        attributes: head.attributes,
        children,
        place: place_at(s, p),
    }
}

/// Number of bytes from `p` to the end of the document.
pub open spec fn room(s: Seq<u8>, p: int) -> nat {
    if 0 <= p <= s.len() {
        (s.len() - p) as nat
    } else {
        0
    }
}

/// The nodes of a body that begins at `p`, and the number of bytes it takes.
///
/// `enclosing` is the name of the block whose body this is, if any; `depth`
/// is the number of further blocks that may open inside it. The body ends at
/// the end marker of `enclosing`, which it takes, or at the end of the
/// document: a block that is never closed ends there, without a fault. An
/// end marker where no block is open is read as a tag, which it is not.
#[verifier::opaque]
pub open spec fn body_at(
    s: Seq<u8>,
    p: int,
    enclosing: Option<Seq<u8>>,
    registry: Set<Seq<u8>>,
    depth: nat,
) -> Result<(Seq<NodeView>, nat), Failure>
    decreases room(s, p),
    via body_at_decreases
{
    if p < 0 || p >= s.len() {
        Ok((Seq::empty(), 0))
    } else {
        let stop = text_end(s, p);
        let text = text_nodes(s, p, stop);
        if stop >= s.len() {
            Ok((text, room(s, p)))
        } else if enclosing is Some && s[stop + 1] == SLASH {
            match end_marker_at(s, stop, enclosing->0) {
                Some(next) => Ok((text, (next - p) as nat)),
                None => Err(Failure { fault: Fault::EndTag, at: stop }),
            }
        } else {
            match head_at(s, stop) {
                Err(f) => Err(f),
                Ok(head) => {
                    if is_function(head, registry) {
                        match body_at(s, head.next, enclosing, registry, depth) {
                            Err(f) => Err(f),
                            Ok((rest, used)) => Ok(
                                (
                                    text + seq![function_node(s, stop, head)] + rest,
                                    (head.next - p + used) as nat,
                                ),
                            ),
                        }
                    } else if depth == 0 {
                        Err(Failure { fault: Fault::TooDeep, at: stop })
                    } else {
                        match body_at(s, head.next, Some(head.name), registry, (depth - 1) as nat) {
                            Err(f) => Err(f),
                            Ok((children, inner)) => {
                                match body_at(s, head.next + inner, enclosing, registry, depth) {
                                    Err(f) => Err(f),
                                    Ok((rest, used)) => Ok(
                                        (
                                            text + seq![block_node(s, stop, head, children)] + rest,
                                            (head.next - p + inner + used) as nat,
                                        ),
                                    ),
                                }
                            },
                        }
                    }
                },
            }
        }
    }
}

/// What follows a tag in a body lies behind the start of the body.
#[via_fn]
proof fn body_at_decreases(
    s: Seq<u8>,
    p: int,
    enclosing: Option<Seq<u8>>,
    registry: Set<Seq<u8>>,
    depth: nat,
) {
    if 0 <= p < s.len() {
        lemma_text_end(s, p);
        lemma_head_at(s, text_end(s, p));
    }
}

/// One tag read at `p`, with its body where it is a block: the node and the
/// offset after it.
pub open spec fn tag_at(s: Seq<u8>, p: int, registry: Set<Seq<u8>>, depth: nat) -> Result<
    (NodeView, int),
    Failure,
> {
    match head_at(s, p) {
        Err(f) => Err(f),
        Ok(head) => {
            if is_function(head, registry) {
                Ok((function_node(s, p, head), head.next))
            } else if depth == 0 {
                Err(Failure { fault: Fault::TooDeep, at: p })
            } else {
                match body_at(s, head.next, Some(head.name), registry, (depth - 1) as nat) {
                    Err(f) => Err(f),
                    Ok((children, inner)) => Ok(
                        (block_node(s, p, head, children), head.next + inner),
                    ),
                }
            }
        },
    }
}

/// A body in one step: its leading text, then its end, or one tag and the
/// rest of the body.
pub open spec fn body_step(
    s: Seq<u8>,
    p: int,
    enclosing: Option<Seq<u8>>,
    registry: Set<Seq<u8>>,
    depth: nat,
) -> Result<(Seq<NodeView>, nat), Failure> {
    let stop = text_end(s, p);
    let text = text_nodes(s, p, stop);
    if stop >= s.len() {
        Ok((text, room(s, p)))
    } else if enclosing is Some && s[stop + 1] == SLASH {
        match end_marker_at(s, stop, enclosing->0) {
            Some(next) => Ok((text, (next - p) as nat)),
            None => Err(Failure { fault: Fault::EndTag, at: stop }),
        }
    } else {
        match tag_at(s, stop, registry, depth) {
            Err(f) => Err(f),
            Ok((node, next)) => match body_at(s, next, enclosing, registry, depth) {
                Err(f) => Err(f),
                Ok((rest, used)) => Ok((text + seq![node] + rest, (next - p + used) as nat)),
            },
        }
    }
}

/// A body is its first step: `body_at` reads a tag as `tag_at` does.
pub proof fn lemma_body_step(
    s: Seq<u8>,
    p: int,
    enclosing: Option<Seq<u8>>,
    registry: Set<Seq<u8>>,
    depth: nat,
)
    requires
        0 <= p < s.len(),
    ensures
        body_at(s, p, enclosing, registry, depth) == body_step(s, p, enclosing, registry, depth),
{
    reveal(body_at);
}

/// A body that begins at the end of the document is empty.
pub proof fn lemma_body_end(
    s: Seq<u8>,
    p: int,
    enclosing: Option<Seq<u8>>,
    registry: Set<Seq<u8>>,
    depth: nat,
)
    requires
        p >= s.len(),
    ensures
        body_at(s, p, enclosing, registry, depth) == Ok::<(Seq<NodeView>, nat), Failure>(
            (Seq::empty(), 0),
        ),
{
    reveal(body_at);
}

/// A body ends inside the document, and so does the offset of its fault.
pub proof fn lemma_body_at(
    s: Seq<u8>,
    p: int,
    enclosing: Option<Seq<u8>>,
    registry: Set<Seq<u8>>,
    depth: nat,
)
    requires
        0 <= p <= s.len(),
    ensures
        body_at(s, p, enclosing, registry, depth) matches Ok((nodes, used)) ==> p + used
            <= s.len(),
        body_at(s, p, enclosing, registry, depth) matches Err(f) ==> p <= f.at <= s.len(),
    decreases s.len() - p,
{
    reveal(body_at);
    if p < s.len() {
        lemma_text_end(s, p);
        let stop = text_end(s, p);
        if stop < s.len() && !(enclosing is Some && s[stop + 1] == SLASH) {
            lemma_head_at(s, stop);
            match head_at(s, stop) {
                Err(f) => {},
                Ok(head) => {
                    if is_function(head, registry) {
                        lemma_body_at(s, head.next, enclosing, registry, depth);
                    } else if depth > 0 {
                        lemma_body_at(s, head.next, Some(head.name), registry, (depth - 1) as nat);
                        match body_at(s, head.next, Some(head.name), registry, (depth - 1) as nat) {
                            Err(f) => {},
                            Ok((children, inner)) => {
                                lemma_body_at(s, head.next + inner, enclosing, registry, depth);
                            },
                        }
                    }
                },
            }
        }
    }
}

/// No fault of reading is that of the document's length.
pub proof fn lemma_no_fault_of_length(
    s: Seq<u8>,
    p: int,
    enclosing: Option<Seq<u8>>,
    registry: Set<Seq<u8>>,
    depth: nat,
)
    requires
        0 <= p <= s.len(),
    ensures
        body_at(s, p, enclosing, registry, depth) matches Err(f) ==> f.fault != Fault::TooLong,
    decreases s.len() - p,
{
    reveal(body_at);
    if p < s.len() {
        lemma_text_end(s, p);
        let stop = text_end(s, p);
        if stop < s.len() && !(enclosing is Some && s[stop + 1] == SLASH) {
            lemma_head_at(s, stop);
            lemma_head_fault(s, stop);
            match head_at(s, stop) {
                Err(f) => {},
                Ok(head) => {
                    if is_function(head, registry) {
                        lemma_no_fault_of_length(s, head.next, enclosing, registry, depth);
                    } else if depth > 0 {
                        lemma_body_at(s, head.next, Some(head.name), registry, (depth - 1) as nat);
                        lemma_no_fault_of_length(
                            s,
                            head.next,
                            Some(head.name),
                            registry,
                            (depth - 1) as nat,
                        );
                        match body_at(s, head.next, Some(head.name), registry, (depth - 1) as nat) {
                            Err(f) => {},
                            Ok((children, inner)) => {
                                lemma_no_fault_of_length(
                                    s,
                                    head.next + inner,
                                    enclosing,
                                    registry,
                                    depth,
                                );
                            },
                        }
                    }
                },
            }
        }
    }
}

/// The longest document whose lines can be counted.
pub open spec fn max_len() -> int {
    u32::MAX as int - 1
}

/// The children of the root of document `s`.
pub open spec fn document(s: Seq<u8>, registry: Set<Seq<u8>>, depth: nat) -> Result<
    Seq<NodeView>,
    Failure,
> {
    if s.len() > max_len() {
        Err(Failure { fault: Fault::TooLong, at: 0 })
    } else {
        match body_at(s, 0, None, registry, depth) {
            Ok((children, used)) => Ok(children),
            Err(f) => Err(f),
        }
    }
}

} // verus!
