//! The document tree and its mathematical view.
//!
//! A tree owns its strings. Its view holds the same strings as UTF-8 bytes,
//! which is the form in which the grammar speaks of a document.

use crate::position::Place;
use vstd::prelude::*;
use vstd::utf8::encode_utf8;

verus! {

/// View of an [`AttributeValue`].
pub struct ValueView {
    pub value: Seq<u8>,
    pub place: Place,
}

/// View of an [`Attribute`].
pub struct AttributeView {
    pub name: Seq<u8>,
    pub values: Seq<ValueView>,
    pub place: Place,
}

/// View of a [`Node`].
pub enum NodeView {
    Root { children: Seq<NodeView> },
    Text { value: Seq<u8>, place: Place },
    FunctionTag { name: Seq<u8>, attributes: Seq<AttributeView>, place: Place },
    BlockTag { name: Seq<u8>, attributes: Seq<AttributeView>, children: Seq<NodeView>, place: Place },
}

/// The place that three position fields stand for.
pub open spec fn place_of(line: u32, column: usize, offset: usize) -> Place {
    Place { line: line as int, column: column as int, offset: offset as int }
}

/// One quoted value of an attribute, kept as written between the quotes.
#[derive(Debug, PartialEq, Eq)]
pub struct AttributeValue {
    pub value: String,
    pub line: u32,
    pub column: usize,
    pub offset: usize,
}

/// A named attribute with its values in source order.
#[derive(Debug, PartialEq, Eq)]
pub struct Attribute {
    pub name: String,
    pub values: Vec<AttributeValue>,
    pub line: u32,
    pub column: usize,
    pub offset: usize,
}

/// The whole document.
#[derive(Debug, PartialEq, Eq)]
pub struct RootNode {
    pub children: Vec<Node>,
}

/// A run of text that holds no tag.
#[derive(Debug, PartialEq, Eq)]
pub struct TextNode {
    pub value: String,
    pub line: u32,
    pub column: usize,
    pub offset: usize,
}

/// A tag without a body.
#[derive(Debug, PartialEq, Eq)]
pub struct FunctionTagNode {
    pub name: String,
    pub attributes: Vec<Attribute>,
    pub line: u32,
    pub column: usize,
    pub offset: usize,
}

/// A tag with a body.
#[derive(Debug, PartialEq, Eq)]
pub struct BlockTagNode {
    pub name: String,
    pub attributes: Vec<Attribute>,
    pub children: Vec<Node>,
    pub line: u32,
    pub column: usize,
    pub offset: usize,
}

/// A node of the document tree.
#[derive(Debug, PartialEq, Eq)]
pub enum Node {
    Root(RootNode),
    Text(TextNode),
    FunctionTag(FunctionTagNode),
    BlockTag(BlockTagNode),
}

impl View for AttributeValue {
    type V = ValueView;

    open spec fn view(&self) -> ValueView {
        ValueView {
            value: encode_utf8(self.value@),
            place: place_of(self.line, self.column, self.offset),
        }
    }
}

/// Views of a list of values, in order.
pub open spec fn value_views(values: Seq<AttributeValue>) -> Seq<ValueView> {
    Seq::new(values.len(), |i: int| values[i]@)
}

impl View for Attribute {
    type V = AttributeView;

    open spec fn view(&self) -> AttributeView {
        AttributeView {
            name: encode_utf8(self.name@),
            values: value_views(self.values@),
            place: place_of(self.line, self.column, self.offset),
        }
    }
}

/// Views of a list of attributes, in order.
pub open spec fn attribute_views(attributes: Seq<Attribute>) -> Seq<AttributeView> {
    Seq::new(attributes.len(), |i: int| attributes[i]@)
}

/// View of one node.
pub open spec fn node_view(node: Node) -> NodeView
    decreases node,
{
    match node {
        Node::Root(r) => NodeView::Root { children: node_views(r.children@) },
        Node::Text(t) => NodeView::Text {
            value: encode_utf8(t.value@),
            place: place_of(t.line, t.column, t.offset),
        },
        Node::FunctionTag(f) => NodeView::FunctionTag {
            name: encode_utf8(f.name@),
            attributes: attribute_views(f.attributes@),
            place: place_of(f.line, f.column, f.offset),
        },
        Node::BlockTag(b) => NodeView::BlockTag {
            name: encode_utf8(b.name@),
            attributes: attribute_views(b.attributes@),
            children: node_views(b.children@),
            place: place_of(b.line, b.column, b.offset),
        },
    }
}

/// Views of a list of nodes, in order.
pub open spec fn node_views(nodes: Seq<Node>) -> Seq<NodeView>
    decreases nodes,
{
    Seq::new(
        nodes.len(),
        |i: int|
            if 0 <= i < nodes.len() {
                node_view(nodes[i])
            } else {
                NodeView::Root { children: Seq::empty() }
            },
    )
}

impl View for Node {
    type V = NodeView;

    open spec fn view(&self) -> NodeView {
        node_view(*self)
    }
}

} // verus!
