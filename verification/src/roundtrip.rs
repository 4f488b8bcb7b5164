//! Reading back what the serializer writes.

use crate::ast::{
    attribute_views, node_views, value_views, Attribute, AttributeView, Node, NodeView, ValueView,
};
use crate::bytes::{
    is_name_byte, is_name_start, is_quote, lower, same_ignoring_case, BACKSLASH, COLON, COMMA,
    DOLLAR, DOUBLE_QUOTE, EQUALS, GT, LOWER_M, LOWER_T, LT, SINGLE_QUOTE, SLASH,
};
use crate::grammar::{
    attribute_at, attributes_at, block_node, body_at, document, end_marker_at, head_at, is_function,
    lemma_body_at, lemma_body_end, lemma_body_step, lemma_head_at, lemma_text_end, max_len, mt_at,
    name_end, opening_at, sigil_at, skip_colon, space_end, tag_at, tag_close, tag_open_at, text_end,
    text_nodes, value_end, values_at, Failure,
};
use crate::locality::{
    is_name, lemma_name_local, lemma_occurs_add, lemma_text_local, lemma_value_local, occurs,
};
use crate::serializer::{
    function_open, holds_double_quote, quoted, render, render_all, render_attribute,
    render_attributes, render_end, render_values, standard_style, FunctionTagStyle, Style, SPACE,
};
use crate::sound::{lemma_body_sound, named, sound, sound_all};
use vstd::prelude::*;
use vstd::string::StringSliceAdditionalSpecFns;

verus! {

/// A prefix that the grammar reads as the opening of a tag: `mt`, in either
/// case, with or without a colon.
pub open spec fn mt_prefix(prefix: Seq<u8>) -> bool {
    &&& prefix.len() == 2 || (prefix.len() == 3 && prefix[2] == COLON)
    &&& lower(prefix[0]) == LOWER_M
    &&& lower(prefix[1]) == LOWER_T
}

/// A value that, written between the quotes that `quoted` gives it, ends at
/// its closing quote: it holds none of that quote but behind a backslash.
pub open spec fn rereads(value: Seq<u8>) -> bool {
    value_end(quoted(value), 1, quoted(value)[0]) == value.len() + 1
}

/// Every value reads back.
pub open spec fn values_reread(values: Seq<ValueView>) -> bool {
    forall|i: int| 0 <= i < values.len() ==> rereads((#[trigger] values[i]).value)
}

/// Every value of every attribute reads back.
pub open spec fn attributes_reread(attributes: Seq<AttributeView>) -> bool {
    forall|i: int| 0 <= i < attributes.len() ==> values_reread((#[trigger] attributes[i]).values)
}

/// Every value of the node, and of the nodes below it, reads back.
pub open spec fn node_rereads(node: NodeView) -> bool
    decreases node,
{
    match node {
        NodeView::Root { children } => all_reread(children),
        NodeView::Text { value, place } => true,
        NodeView::FunctionTag { name, attributes, place } => attributes_reread(attributes),
        NodeView::BlockTag { name, attributes, children, place } => attributes_reread(attributes)
            && all_reread(children),
    }
}

/// Every value of the nodes, and of the nodes below them, reads back.
pub open spec fn all_reread(nodes: Seq<NodeView>) -> bool
    decreases nodes,
{
    if nodes.len() == 0 {
        true
    } else {
        node_rereads(nodes[0]) && all_reread(nodes.drop_first())
    }
}

/// The same values, whatever their places.
pub open spec fn values_alike(a: Seq<ValueView>, b: Seq<ValueView>) -> bool {
    &&& a.len() == b.len()
    &&& forall|i: int| 0 <= i < a.len() ==> (#[trigger] a[i]).value == b[i].value
}

/// The same attributes, whatever their places.
pub open spec fn attributes_alike(a: Seq<AttributeView>, b: Seq<AttributeView>) -> bool {
    &&& a.len() == b.len()
    &&& forall|i: int|
        0 <= i < a.len() ==> (#[trigger] a[i]).name == b[i].name && values_alike(
            a[i].values,
            b[i].values,
        )
}

/// A byte that follows the attributes of a tag.
pub open spec fn closer(b: u8) -> bool {
    b == DOLLAR || b == SLASH || b == GT
}

/// Values that are alike are written alike.
pub proof fn lemma_render_values_alike(a: Seq<ValueView>, b: Seq<ValueView>)
    requires
        values_alike(a, b),
    ensures
        render_values(a) == render_values(b),
    decreases a.len(),
{
    if a.len() > 1 {
        let x = a.drop_first();
        let y = b.drop_first();
        assert forall|i: int| 0 <= i < x.len() implies (#[trigger] x[i]).value == y[i].value by {
            assert(x[i] == a[i + 1]);
            assert(y[i] == b[i + 1]);
        }
        lemma_render_values_alike(x, y);
    }
}

/// Attributes that are alike are written alike.
pub proof fn lemma_render_attributes_alike(a: Seq<AttributeView>, b: Seq<AttributeView>)
    requires
        attributes_alike(a, b),
    ensures
        render_attributes(a) == render_attributes(b),
    decreases a.len(),
{
    if a.len() > 0 {
        let x = a.drop_first();
        let y = b.drop_first();
        assert forall|i: int| 0 <= i < x.len() implies (#[trigger] x[i]).name == y[i].name
            && values_alike(x[i].values, y[i].values) by {
            assert(x[i] == a[i + 1]);
            assert(y[i] == b[i + 1]);
        }
        lemma_render_attributes_alike(x, y);
        lemma_render_values_alike(a[0].values, b[0].values);
    }
}

/// Values that were written are read back as they were.
pub proof fn lemma_values_reparse(y: Seq<u8>, p: int, values: Seq<ValueView>)
    requires
        occurs(y, p, render_values(values)),
        values_reread(values),
        p + render_values(values).len() < y.len(),
        y[p + render_values(values).len()] != COMMA,
        !is_quote(y[p + render_values(values).len()]),
    ensures
        values_at(y, p) matches Ok((got, next)) && next == p + render_values(values).len()
            && values_alike(got, values),
    decreases values.len(),
{
    if values.len() > 0 {
        let v = values[0].value;
        let qv = quoted(v);
        let q = qv[0];
        let rest = values.drop_first();
        assert(rereads(values[0].value));
        assert(qv.len() == v.len() + 2);
        if values.len() > 1 {
            assert(render_values(values) == qv + seq![COMMA] + render_values(rest));
            lemma_occurs_add(y, p, qv + seq![COMMA], render_values(rest));
            lemma_occurs_add(y, p, qv, seq![COMMA]);
        }
        assert(occurs(y, p, qv));
        assert(y[p + 0] == qv[0]);
        lemma_value_local(y, p, qv, 1, q);
        let end = p + v.len() + 1;
        assert(value_end(y, p + 1, q) == end);
        let found = y.subrange(p + 1, end);
        assert(found =~= v) by {
            assert forall|i: int| 0 <= i < v.len() implies found[i] == v[i] by {
                assert(y[p + (i + 1)] == qv[i + 1]);
            }
        }
        if values.len() > 1 {
            assert(y[p + qv.len() + 0] == seq![COMMA][0]);
            assert forall|i: int| 0 <= i < rest.len() implies rereads(
                (#[trigger] rest[i]).value,
            ) by {
                assert(rest[i] == values[i + 1]);
            }
            lemma_values_reparse(y, end + 2, rest);
            let (more, next) = values_at(y, end + 2)->Ok_0;
            let got = values_at(y, p)->Ok_0.0;
            assert(got == seq![got[0]] + more);
            assert forall|i: int| 0 <= i < got.len() implies (#[trigger] got[i]).value
                == values[i].value by {
                if i > 0 {
                    assert(got[i] == more[i - 1]);
                    assert(rest[i - 1] == values[i]);
                }
            }
        }
    }
}

/// An attribute that was written is read back as it was.
pub proof fn lemma_attribute_reparse(y: Seq<u8>, p: int, attribute: AttributeView)
    requires
        occurs(y, p, render_attribute(attribute)),
        is_name(attribute.name),
        values_reread(attribute.values),
        p + render_attribute(attribute).len() < y.len(),
        y[p + render_attribute(attribute).len()] != COMMA,
        !is_quote(y[p + render_attribute(attribute).len()]),
    ensures
        attribute_at(y, p) matches Ok(Some((got, next))) && next == p + render_attribute(
            attribute,
        ).len() && got.name == attribute.name && values_alike(got.values, attribute.values),
{
    let name = attribute.name;
    let written = render_values(attribute.values);
    let head = seq![SPACE] + name + seq![EQUALS];
    assert(render_attribute(attribute) == head + written);
    lemma_occurs_add(y, p, head, written);
    lemma_occurs_add(y, p, seq![SPACE] + name, seq![EQUALS]);
    lemma_occurs_add(y, p, seq![SPACE], name);
    assert(y[p + 0] == seq![SPACE][0]);
    assert(y[p + 1 + 0] == name[0]);
    assert(y[p + 1 + name.len() + 0] == seq![EQUALS][0]);
    assert(space_end(y, p + 1) == p + 1);
    assert(space_end(y, p) == p + 1);
    lemma_name_local(y, p + 1, name);
    let end = p + 1 + name.len();
    assert(name_end(y, p + 2) == end);
    assert(y.subrange(p + 1, end) =~= name) by {
        assert forall|i: int| 0 <= i < name.len() implies y[p + 1 + i] == name[i] by {}
    }
    lemma_values_reparse(y, end + 1, attribute.values);
}

/// Attributes that were written are read back as they were.
pub proof fn lemma_attributes_reparse(y: Seq<u8>, p: int, attributes: Seq<AttributeView>)
    requires
        occurs(y, p, render_attributes(attributes)),
        named(attributes),
        attributes_reread(attributes),
        p + render_attributes(attributes).len() < y.len(),
        closer(y[p + render_attributes(attributes).len()]),
    ensures
        attributes_at(y, p) matches Ok((got, next)) && next == p + render_attributes(
            attributes,
        ).len() && attributes_alike(got, attributes),
    decreases attributes.len(),
{
    if attributes.len() == 0 {
        assert(space_end(y, p) == p);
        assert(!is_name_start(y[p]));
        assert(attribute_at(y, p) == Ok::<Option<(AttributeView, int)>, crate::grammar::Failure>(
            None,
        ));
    } else {
        let first = attributes[0];
        let rest = attributes.drop_first();
        let one = render_attribute(first);
        let others = render_attributes(rest);
        assert(render_attributes(attributes) == one + others);
        lemma_occurs_add(y, p, one, others);
        assert forall|i: int| 0 <= i < rest.len() implies is_name((#[trigger] rest[i]).name)
            && values_reread(rest[i].values) by {
            assert(rest[i] == attributes[i + 1]);
        }
        assert(is_name(first.name) && values_reread(first.values));
        let after = p + one.len();
        assert(one.len() >= 3);
        assert(y[after] != COMMA && !is_quote(y[after])) by {
            if rest.len() > 0 {
                let next_one = render_attribute(rest[0]);
                assert(others == next_one + render_attributes(rest.drop_first()));
                assert(others[0] == SPACE);
                assert(y[after + 0] == others[0]);
            } else {
                assert(others.len() == 0);
            }
        }
        lemma_attribute_reparse(y, p, first);
        lemma_attributes_reparse(y, after, rest);
        let (got_first, next) = attribute_at(y, p)->Ok_0->Some_0;
        let (more, last) = attributes_at(y, after)->Ok_0;
        let got = attributes_at(y, p)->Ok_0.0;
        assert(got == seq![got_first] + more);
        assert forall|i: int| 0 <= i < got.len() implies (#[trigger] got[i]).name
            == attributes[i].name && values_alike(got[i].values, attributes[i].values) by {
            if i > 0 {
                assert(got[i] == more[i - 1]);
                assert(rest[i - 1] == attributes[i]);
            }
        }
    }
}

/// The opening marker of a tag: `<` or `<$`.
pub open spec fn lead(sigil: bool) -> Seq<u8> {
    if sigil {
        seq![LT, DOLLAR]
    } else {
        seq![LT]
    }
}

/// The opening of a tag as the serializer writes it: marker, prefix, name,
/// attributes, `tail` and `>`.
pub open spec fn written_head(
    sigil: bool,
    prefix: Seq<u8>,
    name: Seq<u8>,
    attributes: Seq<AttributeView>,
    tail: Seq<u8>,
) -> Seq<u8> {
    lead(sigil) + prefix + name + render_attributes(attributes) + tail + seq![GT]
}

/// The opening of a tag that was written is read back as it was.
pub proof fn lemma_head_reparse(
    y: Seq<u8>,
    p: int,
    sigil: bool,
    prefix: Seq<u8>,
    name: Seq<u8>,
    attributes: Seq<AttributeView>,
    tail: Seq<u8>,
)
    requires
        occurs(y, p, written_head(sigil, prefix, name, attributes, tail)),
        mt_prefix(prefix),
        is_name(name),
        named(attributes),
        attributes_reread(attributes),
        tail.len() == 0 || (tail.len() == 1 && (tail[0] == DOLLAR || tail[0] == SLASH)),
    ensures
        head_at(y, p) matches Ok(head) && head.name == name && attributes_alike(
            head.attributes,
            attributes,
        ) && head.sigil == sigil && head.slash == (tail.len() == 1 && tail[0] == SLASH)
            && head.next == p + written_head(sigil, prefix, name, attributes, tail).len(),
{
    let l = lead(sigil);
    let written = render_attributes(attributes);
    let a = l + prefix;
    let b = a + name;
    let c = b + written;
    let d = c + tail;
    lemma_occurs_add(y, p, d, seq![GT]);
    lemma_occurs_add(y, p, c, tail);
    lemma_occurs_add(y, p, b, written);
    lemma_occurs_add(y, p, a, name);
    lemma_occurs_add(y, p, l, prefix);
    let at_prefix = p + l.len();
    let at_name = at_prefix + prefix.len();
    let at_attributes = at_name + name.len();
    let at_tail = at_attributes + written.len();
    let at_close = at_tail + tail.len();
    assert(y[p + 0] == l[0]);
    if sigil {
        assert(y[p + 1] == l[1]);
    }
    assert(y[at_prefix + 0] == prefix[0]);
    assert(y[at_prefix + 1] == prefix[1]);
    if prefix.len() == 3 {
        assert(y[at_prefix + 2] == prefix[2]);
    }
    assert(y[at_name + 0] == name[0]);
    assert(y[at_close + 0] == seq![GT][0]);
    if tail.len() == 1 {
        assert(y[at_tail + 0] == tail[0]);
    }
    assert(mt_at(y, at_prefix));
    assert(opening_at(y, p) == Some(at_prefix + 2));
    assert(skip_colon(y, at_prefix + 2) == at_name);
    assert(closer(y[at_tail]));
    assert(!is_name_byte(y[at_attributes])) by {
        if attributes.len() > 0 {
            assert(written == render_attribute(attributes[0]) + render_attributes(
                attributes.drop_first(),
            ));
            assert(written[0] == SPACE);
            assert(y[at_attributes + 0] == written[0]);
        } else {
            assert(written.len() == 0);
        }
    }
    lemma_name_local(y, at_name, name);
    assert(y.subrange(at_name, at_attributes) =~= name) by {
        assert forall|i: int| 0 <= i < name.len() implies y[at_name + i] == name[i] by {}
    }
    lemma_attributes_reparse(y, at_attributes, attributes);
    if tail.len() == 1 {
        assert(tag_close(y, at_tail + 1) == at_tail + 1);
        assert(tag_close(y, at_tail) == at_tail + 1);
    } else {
        assert(tag_close(y, at_tail) == at_tail);
    }
}

/// Text before a tag boundary is read as one text node, and the body goes
/// on at that boundary.
pub proof fn lemma_body_after_text(
    y: Seq<u8>,
    p: int,
    enclosing: Option<Seq<u8>>,
    registry: Set<Seq<u8>>,
    depth: nat,
)
    requires
        0 <= p < y.len(),
        p < text_end(y, p),
    ensures
        body_at(y, p, enclosing, registry, depth) == (match body_at(
            y,
            text_end(y, p),
            enclosing,
            registry,
            depth,
        ) {
            Ok((rest, used)) => Ok::<(Seq<NodeView>, nat), Failure>(
                (
                    text_nodes(y, p, text_end(y, p)) + rest,
                    (text_end(y, p) - p + used) as nat,
                ),
            ),
            Err(f) => Err::<(Seq<NodeView>, nat), Failure>(f),
        }),
{
    let q = text_end(y, p);
    let text = text_nodes(y, p, q);
    lemma_text_end(y, p);
    lemma_body_step(y, p, enclosing, registry, depth);
    if q >= y.len() {
        lemma_body_end(y, q, enclosing, registry, depth);
        assert(text + Seq::<NodeView>::empty() =~= text);
    } else {
        assert(text_end(y, q) == q);
        lemma_body_step(y, q, enclosing, registry, depth);
        let none = text_nodes(y, q, q);
        assert(none =~= Seq::<NodeView>::empty());
        lemma_body_at(y, q, enclosing, registry, depth);
        lemma_head_at(y, q);
        if enclosing is Some && y[q + 1] == SLASH {
            assert(text + none =~= text);
            match end_marker_at(y, q, enclosing->0) {
                Some(next) => {
                    assert(next > q);
                },
                None => {},
            }
        } else {
            match tag_at(y, q, registry, depth) {
                Err(f) => {},
                Ok((node, next)) => {
                    assert(next > q);
                    match body_at(y, next, enclosing, registry, depth) {
                        Err(f) => {},
                        Ok((rest, used)) => {
                            assert(text + (none + seq![node] + rest) =~= text + seq![node] + rest);
                        },
                    }
                },
            }
        }
    }
}

/// The same node, whatever the places: the same kind, name, attributes and
/// text, and the same nodes below.
pub open spec fn same(a: NodeView, b: NodeView) -> bool
    decreases a,
{
    match a {
        NodeView::Root { children } => b is Root && same_all(children, b->Root_children),
        NodeView::Text { value, place } => b is Text && value == b->Text_value,
        NodeView::FunctionTag { name, attributes, place } => b is FunctionTag && name
            == b->FunctionTag_name && attributes_alike(attributes, b->FunctionTag_attributes),
        NodeView::BlockTag { name, attributes, children, place } => b is BlockTag && name
            == b->BlockTag_name && attributes_alike(attributes, b->BlockTag_attributes)
            && same_all(children, b->BlockTag_children),
    }
}

/// The same nodes in the same order, whatever the places.
pub open spec fn same_all(a: Seq<NodeView>, b: Seq<NodeView>) -> bool
    decreases a,
{
    &&& a.len() == b.len()
    &&& a.len() > 0 ==> same(a[0], b[0]) && same_all(a.drop_first(), b.drop_first())
}

/// A node and the nodes after it are the same as another node and the
/// nodes after that, where node is the same as node and the rest as the
/// rest.
pub proof fn lemma_same_cons(a: NodeView, x: Seq<NodeView>, b: NodeView, y: Seq<NodeView>)
    requires
        same(a, b),
        same_all(x, y),
    ensures
        same_all(seq![a] + x, seq![b] + y),
{
    let left = seq![a] + x;
    let right = seq![b] + y;
    assert(left[0] == a && right[0] == b);
    assert(left.drop_first() =~= x);
    assert(right.drop_first() =~= y);
}

/// The same node is written the same.
pub proof fn lemma_render_same(a: NodeView, b: NodeView, style: Style)
    requires
        same(a, b),
    ensures
        render(a, style) == render(b, style),
    decreases a,
{
    match a {
        NodeView::Root { children } => {
            lemma_render_same_all(children, b->Root_children, style);
        },
        NodeView::Text { value, place } => {},
        NodeView::FunctionTag { name, attributes, place } => {
            lemma_render_attributes_alike(attributes, b->FunctionTag_attributes);
        },
        NodeView::BlockTag { name, attributes, children, place } => {
            lemma_render_attributes_alike(attributes, b->BlockTag_attributes);
            lemma_render_same_all(children, b->BlockTag_children, style);
        },
    }
}

/// The same nodes are written the same.
pub proof fn lemma_render_same_all(a: Seq<NodeView>, b: Seq<NodeView>, style: Style)
    requires
        same_all(a, b),
    ensures
        render_all(a, style) == render_all(b, style),
    decreases a,
{
    if a.len() > 0 {
        lemma_render_same(a[0], b[0], style);
        lemma_render_same_all(a.drop_first(), b.drop_first(), style);
    }
}

/// Where a node or an end marker was written, or the document ends.
pub open spec fn ends_at(y: Seq<u8>, e: int, enclosing: Option<Seq<u8>>, style: Style) -> bool {
    e == y.len() || (enclosing is Some && occurs(y, e, render_end(enclosing->0, style)))
}

/// The number of bytes of the end marker that stands at `e`, if one does.
pub open spec fn end_len(y: Seq<u8>, e: int, enclosing: Option<Seq<u8>>, style: Style) -> int {
    if e == y.len() {
        0
    } else {
        render_end(enclosing->0, style).len() as int
    }
}

/// An end marker that was written is read as the end marker of its block.
pub proof fn lemma_end_reparse(y: Seq<u8>, e: int, name: Seq<u8>, style: Style)
    requires
        occurs(y, e, render_end(name, style)),
        mt_prefix(style.prefix),
        is_name(name),
    ensures
        y[e] == LT,
        y[e + 1] == SLASH,
        tag_open_at(y, e),
        end_marker_at(y, e, name) == Some(e + render_end(name, style).len()),
{
    let prefix = style.prefix;
    let a = seq![LT, SLASH];
    let b = a + prefix;
    let c = b + name;
    lemma_occurs_add(y, e, c, seq![GT]);
    lemma_occurs_add(y, e, b, name);
    lemma_occurs_add(y, e, a, prefix);
    assert(y[e + 0] == a[0]);
    assert(y[e + 1] == a[1]);
    assert(y[e + 2 + 0] == prefix[0]);
    assert(y[e + 2 + 1] == prefix[1]);
    if prefix.len() == 3 {
        assert(y[e + 2 + 2] == prefix[2]);
    }
    let at_name = e + 2 + prefix.len();
    let at_close = at_name + name.len();
    assert(y[at_name + 0] == name[0]);
    assert(y[at_close + 0] == seq![GT][0]);
    assert(mt_at(y, e + 2));
    assert(!sigil_at(y, e + 2));
    assert(sigil_at(y, e + 1));
    assert(tag_open_at(y, e));
    assert(skip_colon(y, e + 4) == at_name);
    let found = y.subrange(at_name, at_close);
    assert(found =~= name) by {
        assert forall|i: int| 0 <= i < name.len() implies y[at_name + i] == name[i] by {}
    }
    assert(same_ignoring_case(found, name));
    assert(y[at_close] == GT);
    assert(at_close + 1 == e + render_end(name, style).len());
}

/// The tag that a node stands for, as the serializer writes it, begins with
/// a tag boundary that is no end marker.
pub proof fn lemma_tag_starts(y: Seq<u8>, p: int, node: NodeView, style: Style)
    requires
        occurs(y, p, render(node, style)),
        mt_prefix(style.prefix),
        node is FunctionTag || node is BlockTag,
    ensures
        y[p] == LT,
        y[p + 1] != SLASH,
        tag_open_at(y, p),
{
    let prefix = style.prefix;
    let written = render(node, style);
    let start = if node is FunctionTag {
        function_open(style) + prefix
    } else {
        seq![LT] + prefix
    };
    assert(start.len() <= written.len());
    assert forall|i: int| 0 <= i < start.len() implies written[i] == start[i] by {}
    assert(y[p + 0] == written[0]);
    assert(y[p + 1] == written[1]);
    assert(y[p + 2] == written[2]);
    if start.len() > 3 {
        assert(y[p + 3] == written[3]);
    }
}

/// A tag that was written is read back as it was.
pub proof fn lemma_tag_reparse(
    y: Seq<u8>,
    p: int,
    node: NodeView,
    registry: Set<Seq<u8>>,
    depth: nat,
    style: Style,
)
    requires
        occurs(y, p, render(node, style)),
        sound(node, registry, depth),
        node_rereads(node),
        mt_prefix(style.prefix),
        node is FunctionTag || node is BlockTag,
    ensures
        tag_at(y, p, registry, depth) matches Ok((got, next)) && next == p + render(
            node,
            style,
        ).len() && same(got, node),
    decreases node,
{
    let prefix = style.prefix;
    match node {
        NodeView::FunctionTag { name, attributes, place } => {
            let sigil = style.function_tag_style == FunctionTagStyle::Dollar;
            let tail = if sigil {
                seq![DOLLAR]
            } else {
                seq![SLASH]
            };
            let written = written_head(sigil, prefix, name, attributes, tail);
            assert(render(node, style) =~= written);
            lemma_head_reparse(y, p, sigil, prefix, name, attributes, tail);
            let head = head_at(y, p)->Ok_0;
            assert(is_function(head, registry));
        },
        NodeView::BlockTag { name, attributes, children, place } => {
            let open = written_head(false, prefix, name, attributes, Seq::empty());
            let inside = render_all(children, style);
            let end = render_end(name, style);
            assert(open =~= seq![LT] + prefix + name + render_attributes(attributes) + seq![GT]);
            assert(render(node, style) == open + inside + end);
            lemma_occurs_add(y, p, open + inside, end);
            lemma_occurs_add(y, p, open, inside);
            lemma_head_reparse(y, p, false, prefix, name, attributes, Seq::empty());
            let head = head_at(y, p)->Ok_0;
            assert(!is_function(head, registry));
            let inner = (depth - 1) as nat;
            lemma_body_reparse(y, head.next, children, Some(name), registry, inner, style);
            let (got_children, used) = body_at(y, head.next, Some(name), registry, inner)->Ok_0;
            assert(same(block_node(y, p, head, got_children), node));
        },
        _ => {},
    }
}

/// Nodes that were written are read back as they were, up to the end of
/// the document or through the end marker that follows them.
pub proof fn lemma_body_reparse(
    y: Seq<u8>,
    p: int,
    nodes: Seq<NodeView>,
    enclosing: Option<Seq<u8>>,
    registry: Set<Seq<u8>>,
    depth: nat,
    style: Style,
)
    requires
        occurs(y, p, render_all(nodes, style)),
        sound_all(nodes, registry, depth),
        all_reread(nodes),
        mt_prefix(style.prefix),
        enclosing is Some ==> is_name(enclosing->0),
        ends_at(y, p + render_all(nodes, style).len(), enclosing, style),
    ensures
        body_at(y, p, enclosing, registry, depth) matches Ok((got, used)) && same_all(got, nodes)
            && p + used == p + render_all(nodes, style).len() + end_len(
            y,
            p + render_all(nodes, style).len(),
            enclosing,
            style,
        ),
    decreases nodes,
{
    let e = p + render_all(nodes, style).len();
    if nodes.len() == 0 {
        if p >= y.len() {
            lemma_body_end(y, p, enclosing, registry, depth);
        } else {
            lemma_end_reparse(y, p, enclosing->0, style);
            lemma_body_step(y, p, enclosing, registry, depth);
            assert(text_end(y, p) == p);
            assert(text_nodes(y, p, p) =~= Seq::<NodeView>::empty());
        }
    } else {
        let first = nodes[0];
        let rest = nodes.drop_first();
        let one = render(first, style);
        let others = render_all(rest, style);
        assert(render_all(nodes, style) == one + others);
        assert(sound(first, registry, depth));
        assert(sound_all(rest, registry, depth));
        assert(node_rereads(first));
        assert(all_reread(rest));
        lemma_occurs_add(y, p, one, others);
        let q = p + one.len();
        assert(ends_at(y, q + others.len(), enclosing, style));
        match first {
            NodeView::Text { value, place } => {
                assert(value.len() > 0);
                assert(rest.len() > 0 ==> rest[0] == nodes[1]);
                assert(q == y.len() || (y[q] == LT && tag_open_at(y, q))) by {
                    if rest.len() > 0 {
                        assert(sound(rest[0], registry, depth));
                        let next_one = render(rest[0], style);
                        assert(others == next_one + render_all(rest.drop_first(), style));
                        lemma_occurs_add(y, q, next_one, render_all(rest.drop_first(), style));
                        lemma_tag_starts(y, q, rest[0], style);
                    } else {
                        assert(others.len() == 0);
                        if q < y.len() {
                            lemma_end_reparse(y, q, enclosing->0, style);
                        }
                    }
                }
                lemma_text_local(y, p, value);
                assert(text_end(y, q) == q);
                assert(text_end(y, p) == q);
                lemma_body_after_text(y, p, enclosing, registry, depth);
                lemma_body_reparse(y, q, rest, enclosing, registry, depth, style);
                let (got_rest, used) = body_at(y, q, enclosing, registry, depth)->Ok_0;
                let found = y.subrange(p, q);
                assert(found =~= value) by {
                    assert forall|i: int| 0 <= i < value.len() implies y[p + i] == value[i] by {}
                }
                let text = text_nodes(y, p, q);
                assert(text =~= seq![text[0]]);
                assert(nodes =~= seq![first] + rest);
                lemma_same_cons(text[0], got_rest, first, rest);
            },
            _ => {
                lemma_tag_starts(y, p, first, style);
                lemma_tag_reparse(y, p, first, registry, depth, style);
                assert(text_end(y, p) == p);
                lemma_body_step(y, p, enclosing, registry, depth);
                let (got_first, next) = tag_at(y, p, registry, depth)->Ok_0;
                assert(next == q);
                lemma_body_reparse(y, q, rest, enclosing, registry, depth, style);
                let (got_rest, used) = body_at(y, q, enclosing, registry, depth)->Ok_0;
                let none = text_nodes(y, p, p);
                assert(none + seq![got_first] + got_rest =~= seq![got_first] + got_rest);
                assert(nodes =~= seq![first] + rest);
                lemma_same_cons(got_first, got_rest, first, rest);
            },
        }
    }
}

/// What was written is read back: a document that parses, written out and
/// parsed again, gives the same tree, whatever the places.
///
/// This holds of every document whose values read back between the quotes
/// that the serializer gives them, for a prefix that the grammar reads as
/// the opening of a tag, where what is written is not too long to parse.
pub proof fn law_written_tree_reads_back(
    s: Seq<u8>,
    registry: Set<Seq<u8>>,
    depth: nat,
    style: Style,
)
    requires
        document(s, registry, depth) is Ok,
        all_reread(document(s, registry, depth)->Ok_0),
        mt_prefix(style.prefix),
        render_all(document(s, registry, depth)->Ok_0, style).len() <= max_len(),
    ensures
        ({
            let nodes = document(s, registry, depth)->Ok_0;
            document(render_all(nodes, style), registry, depth) matches Ok(again) && same_all(
                again,
                nodes,
            )
        }),
{
    let nodes = document(s, registry, depth)->Ok_0;
    let written = render_all(nodes, style);
    lemma_body_at(s, 0, None, registry, depth);
    lemma_body_sound(s, 0, None, registry, depth);
    lemma_body_reparse(written, 0, nodes, None, registry, depth, style);
}

/// Idempotent normalization: a document that parses, written out and
/// parsed again, parses to a tree that is written out the same.
///
/// This holds of every document whose values read back between the quotes
/// that the serializer gives them, for a prefix that the grammar reads as
/// the opening of a tag, where what is written is not too long to parse.
pub proof fn law_normalization_is_idempotent(
    s: Seq<u8>,
    registry: Set<Seq<u8>>,
    depth: nat,
    style: Style,
)
    requires
        document(s, registry, depth) is Ok,
        all_reread(document(s, registry, depth)->Ok_0),
        mt_prefix(style.prefix),
        render_all(document(s, registry, depth)->Ok_0, style).len() <= max_len(),
    ensures
        ({
            let written = render_all(document(s, registry, depth)->Ok_0, style);
            document(written, registry, depth) matches Ok(again) && render_all(again, style)
                == written
        }),
{
    law_written_tree_reads_back(s, registry, depth, style);
    let nodes = document(s, registry, depth)->Ok_0;
    let again = document(render_all(nodes, style), registry, depth)->Ok_0;
    lemma_render_same_all(again, nodes, style);
}

/// The standard style has a prefix that the grammar reads as the opening of
/// a tag.
pub proof fn lemma_standard_prefix()
    ensures
        mt_prefix(standard_style().prefix),
{
}

/// Whether `value` reads back between the quotes that the serializer gives
/// it.
pub fn value_reads_back(value: &str) -> (r: bool)
    ensures
        r == rereads(value.spec_bytes()),
{
    let bytes = value.as_bytes();
    let q: u8 = if holds_double_quote(value) {
        SINGLE_QUOTE
    } else {
        DOUBLE_QUOTE
    };
    let ghost v = value.spec_bytes();
    let ghost qv = quoted(v);
    assert(qv.len() == v.len() + 2 && qv[0] == q && qv[v.len() as int + 1] == q);
    assert forall|k: int| 0 <= k < v.len() implies qv[k + 1] == v[k] by {}
    let mut i: usize = 0;
    loop
        invariant
            bytes@ == v,
            v == value.spec_bytes(),
            qv == quoted(v),
            forall|k: int| 0 <= k < v.len() ==> qv[k + 1] == v[k],
            qv.len() == v.len() + 2,
            qv[0] == q,
            qv[v.len() as int + 1] == q,
            is_quote(q),
            i <= v.len(),
            value_end(qv, 1, q) == value_end(qv, i + 1, q),
        decreases v.len() - i,
    {
        if i >= bytes.len() {
            assert(value_end(qv, i + 1, q) == i + 1);
            assert(rereads(v));
            return true;
        }
        assert(qv[i + 1] == v[i as int]);
        if bytes[i] == BACKSLASH {
            if i + 1 >= bytes.len() {
                assert(value_end(qv, i + 3, q) == qv.len());
                assert(value_end(qv, i + 1, q) == value_end(qv, i + 3, q));
                assert(!rereads(v));
                return false;
            }
            assert(qv[i + 2] == v[i + 1]);
            if bytes[i + 1] == q {
                assert(value_end(qv, i + 1, q) == value_end(qv, i + 3, q));
                i = i + 2;
            } else {
                assert(value_end(qv, i + 1, q) == value_end(qv, i + 2, q));
                i = i + 1;
            }
        } else if bytes[i] == q {
            assert(value_end(qv, i + 1, q) == i + 1);
            assert(!rereads(v));
            return false;
        } else {
            assert(value_end(qv, i + 1, q) == value_end(qv, i + 2, q));
            i = i + 1;
        }
    }
}

/// Whether every value of the attributes reads back.
pub fn attributes_read_back(attributes: &Vec<Attribute>) -> (r: bool)
    ensures
        r == attributes_reread(attribute_views(attributes@)),
{
    let ghost all = attribute_views(attributes@);
    let mut i: usize = 0;
    while i < attributes.len()
        invariant
            i <= attributes@.len(),
            all == attribute_views(attributes@),
            forall|k: int| 0 <= k < i ==> values_reread((#[trigger] all[k]).values),
        decreases attributes@.len() - i,
    {
        let values = &attributes[i].values;
        let ghost views = value_views(values@);
        assert(all[i as int].values == views);
        let mut j: usize = 0;
        while j < values.len()
            invariant
                j <= values@.len(),
                i < attributes@.len(),
                all == attribute_views(attributes@),
                all[i as int].values == views,
                views == value_views(values@),
                forall|k: int| 0 <= k < j ==> rereads((#[trigger] views[k]).value),
            decreases values@.len() - j,
        {
            if !value_reads_back(values[j].value.as_str()) {
                assert(!rereads(views[j as int].value));
                assert(!values_reread(views));
                assert(!values_reread(all[i as int].values));
                return false;
            }
            j = j + 1;
        }
        i = i + 1;
    }
    true
}

/// Whether every value of the node, and of the nodes below it, reads back
/// between the quotes that the serializer gives it. Where this holds, what
/// [`crate::serializer::serialize`] writes for the node parses to a tree
/// that is written the same.
pub fn reads_back(node: &Node) -> (r: bool)
    ensures
        r == node_rereads(node@),
    decreases node,
{
    match node {
        Node::Root(root) => all_read_back(&root.children),
        Node::Text(text) => true,
        Node::FunctionTag(tag) => attributes_read_back(&tag.attributes),
        Node::BlockTag(tag) => attributes_read_back(&tag.attributes) && all_read_back(
            &tag.children,
        ),
    }
}

/// Whether every value of the nodes, and of the nodes below them, reads
/// back.
pub fn all_read_back(nodes: &Vec<Node>) -> (r: bool)
    ensures
        r == all_reread(node_views(nodes@)),
    decreases nodes,
{
    let ghost all = node_views(nodes@);
    let mut i: usize = nodes.len();
    assert(all.subrange(i as int, all.len() as int) =~= Seq::<NodeView>::empty());
    while i > 0
        invariant
            i <= nodes@.len(),
            all == node_views(nodes@),
            all_reread(all.subrange(i as int, all.len() as int)),
        decreases i,
    {
        i = i - 1;
        let ghost tail = all.subrange(i as int, all.len() as int);
        assert(tail.drop_first() =~= all.subrange(i + 1, all.len() as int));
        assert(tail[0] == all[i as int]);
        if !reads_back(&nodes[i]) {
            proof {
                lemma_not_all_reread(all, i as int);
            }
            return false;
        }
    }
    assert(all.subrange(0, all.len() as int) =~= all);
    true
}

/// Where one node does not read back, the nodes do not.
pub proof fn lemma_not_all_reread(nodes: Seq<NodeView>, i: int)
    requires
        0 <= i < nodes.len(),
        !node_rereads(nodes[i]),
    ensures
        !all_reread(nodes),
    decreases i,
{
    if i > 0 {
        let rest = nodes.drop_first();
        assert(rest[i - 1] == nodes[i]);
        lemma_not_all_reread(rest, i - 1);
    }
}

} // verus!
