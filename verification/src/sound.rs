//! What holds of every tree that the grammar gives.

use crate::ast::{AttributeView, NodeView};
use crate::bytes::{is_name_byte, is_name_start, lower_all, SLASH};
use crate::grammar::{
    attribute_at, attributes_at, body_at, else_name, head_at, is_function, lemma_attribute_at,
    lemma_body_at, lemma_body_end, lemma_body_step, lemma_head_at, lemma_name_end, lemma_space_end,
    lemma_text_end, name_end, opening_at, skip_colon, space_end, tag_at, tag_open_at, text_end,
    text_nodes,
};
use crate::locality::{is_name, is_text};
use vstd::prelude::*;

verus! {

/// Every attribute has a name.
pub open spec fn named(attributes: Seq<AttributeView>) -> bool {
    forall|i: int| 0 <= i < attributes.len() ==> is_name((#[trigger] attributes[i]).name)
}

/// A node as the grammar gives it under `registry`, with at most `depth`
/// blocks one inside the other: text that holds no tag boundary, tags with
/// names, and no block whose name makes it a function tag.
pub open spec fn sound(node: NodeView, registry: Set<Seq<u8>>, depth: nat) -> bool
    decreases node,
{
    match node {
        NodeView::Root { children } => false,
        NodeView::Text { value, place } => is_text(value),
        NodeView::FunctionTag { name, attributes, place } => is_name(name) && named(attributes),
        NodeView::BlockTag { name, attributes, children, place } => {
            &&& is_name(name)
            &&& named(attributes)
            &&& !registry.contains(lower_all(name))
            &&& lower_all(name) != else_name()
            &&& depth > 0
            &&& sound_all(children, registry, (depth - 1) as nat)
        },
    }
}

/// Nodes as the grammar gives them: each is sound, and no text follows
/// text.
pub open spec fn sound_all(nodes: Seq<NodeView>, registry: Set<Seq<u8>>, depth: nat) -> bool
    decreases nodes,
{
    if nodes.len() == 0 {
        true
    } else {
        &&& sound(nodes[0], registry, depth)
        &&& (nodes[0] is Text && nodes.len() > 1 ==> !(nodes[1] is Text))
        &&& sound_all(nodes.drop_first(), registry, depth)
    }
}

/// The attributes that the grammar reads have names.
pub proof fn lemma_attributes_named(s: Seq<u8>, p: int)
    requires
        0 <= p <= s.len(),
    ensures
        attributes_at(s, p) matches Ok((attributes, next)) ==> named(attributes),
    decreases s.len() - p,
{
    lemma_attribute_at(s, p);
    match attribute_at(s, p) {
        Ok(Some((attribute, next))) => {
            lemma_space_end(s, p);
            let start = space_end(s, p);
            lemma_name_end(s, start + 1);
            let end = name_end(s, start + 1);
            assert(is_name(attribute.name)) by {
                assert(attribute.name == s.subrange(start, end));
                assert forall|i: int| 0 < i < attribute.name.len() implies is_name_byte(
                    #[trigger] attribute.name[i],
                ) by {
                    assert(attribute.name[i] == s[start + i]);
                }
            }
            lemma_attributes_named(s, next);
            match attributes_at(s, next) {
                Ok((more, last)) => {
                    let all = seq![attribute] + more;
                    assert forall|i: int| 0 <= i < all.len() implies is_name(
                        (#[trigger] all[i]).name,
                    ) by {
                        if i > 0 {
                            assert(all[i] == more[i - 1]);
                        }
                    }
                },
                Err(f) => {},
            }
        },
        _ => {},
    }
}

/// The opening of a tag that the grammar reads has a name, and so have its
/// attributes.
pub proof fn lemma_head_named(s: Seq<u8>, p: int)
    requires
        0 <= p <= s.len(),
    ensures
        head_at(s, p) matches Ok(head) ==> is_name(head.name) && named(head.attributes),
{
    match opening_at(s, p) {
        None => {},
        Some(after) => {
            let start = skip_colon(s, after);
            if start < s.len() && is_name_start(s[start]) {
                lemma_name_end(s, start + 1);
                let end = name_end(s, start + 1);
                lemma_attributes_named(s, end);
                if head_at(s, p) is Ok {
                    let name = s.subrange(start, end);
                    assert forall|i: int| 0 < i < name.len() implies is_name_byte(
                        #[trigger] name[i],
                    ) by {
                        assert(name[i] == s[start + i]);
                    }
                    assert(is_name(name));
                }
            }
        },
    }
}

/// A tag boundary inside a piece of a document is a tag boundary of the
/// document.
pub proof fn lemma_tag_open_inside(s: Seq<u8>, p: int, end: int, k: int)
    requires
        0 <= p <= end <= s.len(),
        tag_open_at(s.subrange(p, end), k),
    ensures
        tag_open_at(s, p + k),
{
    let t = s.subrange(p, end);
    assert(t[k] == s[p + k]);
    assert(t[k + 1] == s[p + k + 1]);
    assert(t[k + 2] == s[p + k + 2]);
    if k + 3 < t.len() {
        assert(t[k + 3] == s[p + k + 3]);
    }
}

/// The nodes that the grammar reads are sound.
pub proof fn lemma_body_sound(
    s: Seq<u8>,
    p: int,
    enclosing: Option<Seq<u8>>,
    registry: Set<Seq<u8>>,
    depth: nat,
)
    requires
        0 <= p <= s.len(),
    ensures
        body_at(s, p, enclosing, registry, depth) matches Ok((nodes, used)) ==> sound_all(
            nodes,
            registry,
            depth,
        ),
    decreases s.len() - p,
{
    if p >= s.len() {
        lemma_body_end(s, p, enclosing, registry, depth);
    } else {
        lemma_body_step(s, p, enclosing, registry, depth);
        lemma_text_end(s, p);
        let stop = text_end(s, p);
        let text = text_nodes(s, p, stop);
        assert(sound_all(text, registry, depth)) by {
            if p < stop {
                let value = s.subrange(p, stop);
                assert forall|i: int| 0 <= i < value.len() implies !tag_open_at(value, i) by {
                    if tag_open_at(value, i) {
                        lemma_tag_open_inside(s, p, stop, i);
                    }
                }
                assert(is_text(value));
                assert(text[0] == NodeView::Text {
                    value,
                    place: crate::position::place_at(s, p),
                });
                assert(sound(text[0], registry, depth));
                assert(text.len() == 1);
                assert(text.drop_first() =~= Seq::<NodeView>::empty());
                assert(sound_all(text.drop_first(), registry, depth));
            } else {
                assert(text.len() == 0);
            }
        }
        match body_at(s, p, enclosing, registry, depth) {
            Err(f) => {},
            Ok((nodes, used)) => {
                if stop >= s.len() || (enclosing is Some && s[stop + 1] == SLASH) {
                } else {
                    lemma_head_at(s, stop);
                    lemma_head_named(s, stop);
                    let head = head_at(s, stop)->Ok_0;
                    let (node, next) = tag_at(s, stop, registry, depth)->Ok_0;
                    let (rest, more) = body_at(s, next, enclosing, registry, depth)->Ok_0;
                    if !is_function(head, registry) {
                        let inner = (depth - 1) as nat;
                        lemma_body_at(s, head.next, Some(head.name), registry, inner);
                        lemma_body_sound(s, head.next, Some(head.name), registry, inner);
                    }
                    assert(sound(node, registry, depth));
                    lemma_body_sound(s, next, enclosing, registry, depth);
                    let tail = seq![node] + rest;
                    assert(tail.drop_first() =~= rest);
                    assert(sound_all(tail, registry, depth));
                    if p < stop {
                        let all = text + seq![node] + rest;
                        assert(all.drop_first() =~= tail);
                        assert(all[1] == node);
                        assert(sound_all(all, registry, depth));
                    } else {
                        assert(text + seq![node] + rest =~= tail);
                    }
                }
            },
        }
    }
}

} // verus!
