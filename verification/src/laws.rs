//! Laws of the grammar: what holds of every document.

use crate::ast::NodeView;
use crate::bytes::{lower_all, DOUBLE_QUOTE, SINGLE_QUOTE, SLASH};
use crate::grammar::{
    body_at, document, function_node, head_at, is_function, lemma_body_at, lemma_body_end,
    lemma_body_step, lemma_head_at, lemma_text_end, tag_at, text_end, text_nodes, Failure,
};
use crate::position::{lemma_line_monotonic, place_at, Place};
use crate::serializer::quoted;
use vstd::prelude::*;

verus! {

/// The places of a node and of the nodes below it, in document order: a
/// node before its children, children from first to last.
pub open spec fn places(node: NodeView) -> Seq<Place>
    decreases node,
{
    match node {
        NodeView::Root { children } => places_all(children),
        NodeView::Text { value, place } => seq![place],
        NodeView::FunctionTag { name, attributes, place } => seq![place],
        NodeView::BlockTag { name, attributes, children, place } => seq![place] + places_all(
            children,
        ),
    }
}

/// The places of a list of nodes, in document order.
pub open spec fn places_all(nodes: Seq<NodeView>) -> Seq<Place>
    decreases nodes,
{
    if nodes.len() == 0 {
        Seq::empty()
    } else {
        places(nodes[0]) + places_all(nodes.drop_first())
    }
}

/// Neither offsets nor lines ever go back along `list`.
pub open spec fn ascending(list: Seq<Place>) -> bool {
    forall|i: int, j: int|
        0 <= i <= j < list.len() ==> list[i].offset <= list[j].offset && list[i].line
            <= list[j].line
}

/// Every place of `list` is a place of document `s` between the offsets
/// `low` and `high`, and offsets never go back along `list`.
pub open spec fn ordered_within(list: Seq<Place>, s: Seq<u8>, low: int, high: int) -> bool {
    &&& forall|i: int|
        0 <= i < list.len() ==> low <= (#[trigger] list[i]).offset <= high && list[i] == place_at(
            s,
            list[i].offset,
        )
    &&& forall|i: int, j: int| 0 <= i <= j < list.len() ==> list[i].offset <= list[j].offset
}

/// The places of two lists of nodes, one after the other.
proof fn lemma_places_all_add(a: Seq<NodeView>, b: Seq<NodeView>)
    ensures
        places_all(a + b) == places_all(a) + places_all(b),
    decreases a.len(),
{
    if a.len() == 0 {
        assert(a + b =~= b);
        assert(places_all(a) + places_all(b) =~= places_all(b));
    } else {
        lemma_places_all_add(a.drop_first(), b);
        assert((a + b).drop_first() =~= a.drop_first() + b);
        assert((a + b)[0] == a[0]);
        assert(places_all(a + b) =~= places_all(a) + places_all(b));
    }
}

/// The places of a list of one node are those of the node.
proof fn lemma_places_all_one(node: NodeView)
    ensures
        places_all(seq![node]) == places(node),
{
    let one = seq![node];
    assert(one.drop_first() =~= Seq::<NodeView>::empty());
    assert(places_all(one.drop_first()) =~= Seq::<Place>::empty());
    assert(one[0] == node);
    assert(places_all(one) =~= places(node));
}

/// Two ordered lists, the second of which begins where the first ends, are
/// ordered when joined.
proof fn lemma_ordered_add(a: Seq<Place>, b: Seq<Place>, s: Seq<u8>, low: int, mid: int, high: int)
    requires
        ordered_within(a, s, low, mid),
        ordered_within(b, s, mid, high),
        low <= mid <= high,
    ensures
        ordered_within(a + b, s, low, high),
{
    let c = a + b;
    assert forall|i: int| 0 <= i < c.len() implies low <= (#[trigger] c[i]).offset <= high && c[i]
        == place_at(s, c[i].offset) by {
        if i < a.len() {
            assert(c[i] == a[i]);
        } else {
            assert(c[i] == b[i - a.len()]);
        }
    }
    assert forall|i: int, j: int| 0 <= i <= j < c.len() implies c[i].offset <= c[j].offset by {
        if j < a.len() {
            assert(c[i] == a[i] && c[j] == a[j]);
        } else if i < a.len() {
            assert(c[i] == a[i] && c[j] == b[j - a.len()]);
        } else {
            assert(c[i] == b[i - a.len()] && c[j] == b[j - a.len()]);
        }
    }
}

/// A list that is ordered between two offsets is ordered between any two
/// offsets around them.
proof fn lemma_ordered_widen(list: Seq<Place>, s: Seq<u8>, low: int, high: int, lower: int, higher: int)
    requires
        ordered_within(list, s, low, high),
        lower <= low,
        high <= higher,
    ensures
        ordered_within(list, s, lower, higher),
{
}

/// The places of a body are places of the document inside the body, and
/// their offsets never go back.
pub proof fn lemma_body_places(
    s: Seq<u8>,
    p: int,
    enclosing: Option<Seq<u8>>,
    registry: Set<Seq<u8>>,
    depth: nat,
)
    requires
        0 <= p <= s.len(),
    ensures
        body_at(s, p, enclosing, registry, depth) matches Ok((nodes, used)) ==> ordered_within(
            places_all(nodes),
            s,
            p,
            p + used,
        ),
    decreases s.len() - p,
{
    if p >= s.len() {
        lemma_body_end(s, p, enclosing, registry, depth);
    } else {
        lemma_body_step(s, p, enclosing, registry, depth);
        lemma_body_at(s, p, enclosing, registry, depth);
        lemma_text_end(s, p);
        let stop = text_end(s, p);
        let text = text_nodes(s, p, stop);
        let first = places_all(text);
        assert(ordered_within(first, s, p, stop)) by {
            if p < stop {
                lemma_places_all_one(text[0]);
            }
        }
        match body_at(s, p, enclosing, registry, depth) {
            Err(f) => {},
            Ok((nodes, used)) => {
                if stop >= s.len() || (enclosing is Some && s[stop + 1] == SLASH) {
                    lemma_ordered_widen(first, s, p, stop, p, p + used);
                } else {
                    lemma_head_at(s, stop);
                    let head = head_at(s, stop)->Ok_0;
                    let (node, next) = tag_at(s, stop, registry, depth)->Ok_0;
                    let (rest, more) = body_at(s, next, enclosing, registry, depth)->Ok_0;
                    assert(ordered_within(places(node), s, stop, next)) by {
                        if is_function(head, registry) {
                        } else {
                            let inner = (depth - 1) as nat;
                            lemma_body_at(s, head.next, Some(head.name), registry, inner);
                            lemma_body_places(s, head.next, Some(head.name), registry, inner);
                            let (children, used_inside) = body_at(
                                s,
                                head.next,
                                Some(head.name),
                                registry,
                                inner,
                            )->Ok_0;
                            lemma_ordered_add(
                                seq![place_at(s, stop)],
                                places_all(children),
                                s,
                                stop,
                                head.next,
                                next,
                            );
                        }
                    }
                    lemma_body_at(s, next, enclosing, registry, depth);
                    lemma_body_places(s, next, enclosing, registry, depth);
                    lemma_places_all_one(node);
                    lemma_places_all_add(text, seq![node]);
                    lemma_places_all_add(text + seq![node], rest);
                    lemma_ordered_add(first, places(node), s, p, stop, next);
                    lemma_ordered_add(
                        first + places(node),
                        places_all(rest),
                        s,
                        p,
                        next,
                        p + used,
                    );
                }
            },
        }
    }
}

/// Places of one document whose offsets never go back: their lines never go
/// back either.
pub proof fn lemma_ordered_ascends(list: Seq<Place>, s: Seq<u8>)
    requires
        ordered_within(list, s, 0, s.len() as int),
    ensures
        ascending(list),
{
    assert forall|i: int, j: int| 0 <= i <= j < list.len() implies list[i].offset <= list[j].offset
        && list[i].line <= list[j].line by {
        lemma_line_monotonic(s, list[i].offset, list[j].offset);
    }
}

/// Position monotonicity: in the tree of any document that parses, taken
/// in document order, neither the offsets nor the lines of the nodes ever go
/// back.
pub proof fn law_positions_ascend(s: Seq<u8>, registry: Set<Seq<u8>>, depth: nat)
    requires
        document(s, registry, depth) is Ok,
    ensures
        ascending(places(NodeView::Root { children: document(s, registry, depth)->Ok_0 })),
{
    lemma_body_at(s, 0, None, registry, depth);
    lemma_body_places(s, 0, None, registry, depth);
    let (nodes, used) = body_at(s, 0, None, registry, depth)->Ok_0;
    lemma_ordered_widen(places_all(nodes), s, 0, used as int, 0, s.len() as int);
    lemma_ordered_ascends(places_all(nodes), s);
}

/// A block holds its children: the places of the nodes below a block tag
/// lie between the offset after the `>` of its opening and the offset after
/// the block.
pub proof fn law_block_holds_children(s: Seq<u8>, p: int, registry: Set<Seq<u8>>, depth: nat)
    requires
        0 <= p <= s.len(),
        tag_at(s, p, registry, depth) is Ok,
        tag_at(s, p, registry, depth)->Ok_0.0 is BlockTag,
    ensures
        ({
            let (node, next) = tag_at(s, p, registry, depth)->Ok_0;
            ordered_within(
                places_all(node->BlockTag_children),
                s,
                head_at(s, p)->Ok_0.next,
                next,
            )
        }),
{
    lemma_head_at(s, p);
    let head = head_at(s, p)->Ok_0;
    lemma_body_places(s, head.next, Some(head.name), registry, (depth - 1) as nat);
}

/// Registry override: a tag whose name is registered is a function tag,
/// whatever its spelling, and the offset after it is the offset after its
/// `>`.
pub proof fn law_registered_tag_is_function(
    s: Seq<u8>,
    p: int,
    registry: Set<Seq<u8>>,
    depth: nat,
)
    requires
        head_at(s, p) is Ok,
        registry.contains(lower_all(head_at(s, p)->Ok_0.name)),
    ensures
        tag_at(s, p, registry, depth) == Ok::<(NodeView, int), Failure>(
            (function_node(s, p, head_at(s, p)->Ok_0), head_at(s, p)->Ok_0.next),
        ),
{
}

/// Registry override, in a body: what follows a registered tag is read as
/// its sibling, in the same body, from the offset after its `>`.
pub proof fn law_registered_tag_has_no_body(
    s: Seq<u8>,
    p: int,
    enclosing: Option<Seq<u8>>,
    registry: Set<Seq<u8>>,
    depth: nat,
)
    requires
        0 <= p < s.len(),
        text_end(s, p) < s.len(),
        !(enclosing is Some && s[text_end(s, p) + 1] == SLASH),
        head_at(s, text_end(s, p)) is Ok,
        registry.contains(lower_all(head_at(s, text_end(s, p))->Ok_0.name)),
    ensures
        ({
            let stop = text_end(s, p);
            let head = head_at(s, stop)->Ok_0;
            match body_at(s, head.next, enclosing, registry, depth) {
                Ok((rest, used)) => body_at(s, p, enclosing, registry, depth) == Ok::<
                    (Seq<NodeView>, nat),
                    Failure,
                >(
                    (
                        text_nodes(s, p, stop) + seq![function_node(s, stop, head)] + rest,
                        (head.next - p + used) as nat,
                    ),
                ),
                Err(f) => body_at(s, p, enclosing, registry, depth) == Err::<
                    (Seq<NodeView>, nat),
                    Failure,
                >(f),
            }
        }),
{
    lemma_body_step(s, p, enclosing, registry, depth);
}

/// Unterminated block: where what follows the opening tag of a block reads
/// as a document of its own, it reads the same as the body of the block, to
/// the end of the document and without a fault.
pub proof fn law_unterminated_block(
    s: Seq<u8>,
    p: int,
    name: Seq<u8>,
    registry: Set<Seq<u8>>,
    depth: nat,
)
    requires
        0 <= p <= s.len(),
        body_at(s, p, None, registry, depth) is Ok,
    ensures
        body_at(s, p, Some(name), registry, depth) == body_at(s, p, None, registry, depth),
        p + body_at(s, p, None, registry, depth)->Ok_0.1 == s.len(),
    decreases s.len() - p,
{
    if p >= s.len() {
        lemma_body_end(s, p, None, registry, depth);
        lemma_body_end(s, p, Some(name), registry, depth);
    } else {
        lemma_body_step(s, p, None, registry, depth);
        lemma_body_step(s, p, Some(name), registry, depth);
        lemma_text_end(s, p);
        let stop = text_end(s, p);
        if stop < s.len() {
            lemma_head_at(s, stop);
            let (node, next) = tag_at(s, stop, registry, depth)->Ok_0;
            if !is_function(head_at(s, stop)->Ok_0, registry) {
                let head = head_at(s, stop)->Ok_0;
                lemma_body_at(s, head.next, Some(head.name), registry, (depth - 1) as nat);
            }
            law_unterminated_block(s, next, name, registry, depth);
        }
    }
}

/// Quote swap: a value that holds a double quote is written between single
/// quotes, and any other value between double quotes; the value itself is
/// written as it stands.
pub proof fn law_quote_swap(value: Seq<u8>)
    ensures
        value.contains(DOUBLE_QUOTE) ==> quoted(value) == seq![SINGLE_QUOTE] + value + seq![
            SINGLE_QUOTE,
        ],
        !value.contains(DOUBLE_QUOTE) ==> quoted(value) == seq![DOUBLE_QUOTE] + value + seq![
            DOUBLE_QUOTE,
        ],
        quoted(value).subrange(1, value.len() as int + 1) == value,
{
    assert(quoted(value).subrange(1, value.len() as int + 1) =~= value);
}

} // verus!
