//! The serializer: a tree written back as a document.

use crate::ast::{
    attribute_views, node_views, value_views, Attribute, AttributeView, Node, NodeView, ValueView,
};
use crate::bytes::{COMMA, DOLLAR, DOUBLE_QUOTE, EQUALS, GT, LT, SINGLE_QUOTE, SLASH};
use vstd::prelude::*;
use vstd::string::{StringExecFns, StringSliceAdditionalSpecFns};
use vstd::utf8::{encode_utf8, is_ascii_chars, is_ascii_chars_encode_utf8};

verus! {

/// The space that stands before an attribute.
pub const SPACE: u8 = 32;

/// How a function tag is written.
#[derive(Debug, Clone, Copy, PartialEq, Eq, Structural)]
pub enum FunctionTagStyle {
    /// `<$mt:Name$>`
    Dollar,
    /// `<mt:Name/>`
    SelfClosing,
}

impl FunctionTagStyle {
    /// The style that a number stands for: 2 for `SelfClosing`, any other
    /// number for `Dollar`.
    pub fn from_code(code: u8) -> (style: FunctionTagStyle)
        ensures
            style == (if code == 2 {
                FunctionTagStyle::SelfClosing
            } else {
                FunctionTagStyle::Dollar
            }),
    {
        if code == 2 {
            FunctionTagStyle::SelfClosing
        } else {
            FunctionTagStyle::Dollar
        }
    }
}

/// How a tree is written.
#[derive(Debug, Clone)]
pub struct Options {
    /// What stands between `<` and the name of a tag.
    pub prefix: String,
    pub function_tag_style: FunctionTagStyle,
}

/// View of [`Options`].
pub struct Style {
    pub prefix: Seq<u8>,
    pub function_tag_style: FunctionTagStyle,
}

impl View for Options {
    type V = Style;

    open spec fn view(&self) -> Style {
        Style { prefix: encode_utf8(self.prefix@), function_tag_style: self.function_tag_style }
    }
}

/// The prefix `mt:`.
pub open spec fn standard_prefix() -> Seq<u8> {
    seq![109u8, 116u8, 58u8]
}

/// The style that is used where none is given: prefix `mt:`, function tags
/// with dollar signs.
pub open spec fn standard_style() -> Style {
    Style { prefix: standard_prefix(), function_tag_style: FunctionTagStyle::Dollar }
}

/// A value between quotes: between single quotes where it holds a double
/// quote, between double quotes where it holds none. Nothing in the value is
/// escaped, so a value that holds both quote characters is written as it
/// stands between single quotes, and then does not read back as it was
/// (`roundtrip::rereads` says which values do).
pub open spec fn quoted(value: Seq<u8>) -> Seq<u8> {
    if value.contains(DOUBLE_QUOTE) {
        seq![SINGLE_QUOTE] + value + seq![SINGLE_QUOTE]
    } else {
        seq![DOUBLE_QUOTE] + value + seq![DOUBLE_QUOTE]
    }
}

/// The values of an attribute, each quoted, with commas between them.
pub open spec fn render_values(values: Seq<ValueView>) -> Seq<u8>
    decreases values.len(),
{
    if values.len() == 0 {
        Seq::empty()
    } else if values.len() == 1 {
        quoted(values[0].value)
    } else {
        quoted(values[0].value) + seq![COMMA] + render_values(values.drop_first())
    }
}

/// An attribute: a space, the name, `=`, and the values.
pub open spec fn render_attribute(attribute: AttributeView) -> Seq<u8> {
    seq![SPACE] + attribute.name + seq![EQUALS] + render_values(attribute.values)
}

/// The attributes of a tag, one after the other.
pub open spec fn render_attributes(attributes: Seq<AttributeView>) -> Seq<u8>
    decreases attributes.len(),
{
    if attributes.len() == 0 {
        Seq::empty()
    } else {
        render_attribute(attributes[0]) + render_attributes(attributes.drop_first())
    }
}

/// The opening of a function tag in the given style.
pub open spec fn function_open(style: Style) -> Seq<u8> {
    match style.function_tag_style {
        FunctionTagStyle::Dollar => seq![LT, DOLLAR],
        FunctionTagStyle::SelfClosing => seq![LT],
    }
}

/// The closing of a function tag in the given style.
pub open spec fn function_close(style: Style) -> Seq<u8> {
    match style.function_tag_style {
        FunctionTagStyle::Dollar => seq![DOLLAR, GT],
        FunctionTagStyle::SelfClosing => seq![SLASH, GT],
    }
}

/// The end marker of a block.
pub open spec fn render_end(name: Seq<u8>, style: Style) -> Seq<u8> {
    seq![LT, SLASH] + style.prefix + name + seq![GT]
}

/// A node as text.
pub open spec fn render(node: NodeView, style: Style) -> Seq<u8>
    decreases node,
{
    match node {
        NodeView::Root { children } => render_all(children, style),
        NodeView::Text { value, place } => value,
        NodeView::FunctionTag { name, attributes, place } => function_open(style) + style.prefix
            + name + render_attributes(attributes) + function_close(style),
        NodeView::BlockTag { name, attributes, children, place } => seq![LT] + style.prefix + name
            + render_attributes(attributes) + seq![GT] + render_all(children, style) + render_end(
            name,
            style,
        ),
    }
}

/// Nodes as text, one after the other.
pub open spec fn render_all(nodes: Seq<NodeView>, style: Style) -> Seq<u8>
    decreases nodes,
{
    if nodes.len() == 0 {
        Seq::empty()
    } else {
        render(nodes[0], style) + render_all(nodes.drop_first(), style)
    }
}

/// The encoding of two strings, one after the other, is the encoding of the
/// first followed by that of the second.
pub proof fn lemma_encode_concat(a: Seq<char>, b: Seq<char>)
    ensures
        encode_utf8(a + b) == encode_utf8(a) + encode_utf8(b),
    decreases a.len(),
{
    if a.len() == 0 {
        assert(a + b =~= b);
        assert(encode_utf8(a) + encode_utf8(b) =~= encode_utf8(b));
    } else {
        lemma_encode_concat(a.drop_first(), b);
        assert((a + b).drop_first() =~= a.drop_first() + b);
        assert((a + b)[0] == a[0]);
        assert(encode_utf8(a + b) =~= encode_utf8(a) + encode_utf8(b));
    }
}

/// The values up to and with one more are the values up to it, a comma
/// where there are any, and that value quoted.
pub proof fn lemma_render_values_push(values: Seq<ValueView>, value: ValueView)
    ensures
        render_values(values.push(value)) == render_values(values) + (if values.len() > 0 {
            seq![COMMA]
        } else {
            Seq::empty()
        }) + quoted(value.value),
    decreases values.len(),
{
    let all = values.push(value);
    if values.len() == 0 {
        assert(render_values(all) =~= Seq::<u8>::empty() + Seq::<u8>::empty() + quoted(
            value.value,
        ));
    } else {
        let rest = values.drop_first();
        assert(all.drop_first() =~= rest.push(value));
        assert(all[0] == values[0]);
        lemma_render_values_push(rest, value);
        assert(render_values(all) =~= render_values(values) + seq![COMMA] + quoted(value.value));
    }
}

/// The attributes up to and with one more are the attributes up to it and
/// then that attribute.
pub proof fn lemma_render_attributes_push(attributes: Seq<AttributeView>, attribute: AttributeView)
    ensures
        render_attributes(attributes.push(attribute)) == render_attributes(attributes)
            + render_attribute(attribute),
    decreases attributes.len(),
{
    let all = attributes.push(attribute);
    if attributes.len() == 0 {
        assert(all.drop_first() =~= Seq::<AttributeView>::empty());
        assert(render_attributes(all.drop_first()) =~= Seq::<u8>::empty());
        assert(render_attributes(attributes) =~= Seq::<u8>::empty());
        assert(all[0] == attribute);
        assert(render_attributes(all) =~= render_attributes(attributes) + render_attribute(
            attribute,
        ));
    } else {
        let rest = attributes.drop_first();
        assert(all.drop_first() =~= rest.push(attribute));
        assert(all[0] == attributes[0]);
        lemma_render_attributes_push(rest, attribute);
        assert(render_attributes(all) =~= render_attributes(attributes) + render_attribute(
            attribute,
        ));
    }
}

/// The nodes up to and with one more are the nodes up to it and then that
/// node.
pub proof fn lemma_render_all_push(nodes: Seq<NodeView>, node: NodeView, style: Style)
    ensures
        render_all(nodes.push(node), style) == render_all(nodes, style) + render(node, style),
    decreases nodes.len(),
{
    let all = nodes.push(node);
    if nodes.len() == 0 {
        assert(all.drop_first() =~= Seq::<NodeView>::empty());
        assert(render_all(all.drop_first(), style) =~= Seq::<u8>::empty());
        assert(render_all(nodes, style) =~= Seq::<u8>::empty());
        assert(all[0] == node);
        assert(render_all(all, style) =~= render_all(nodes, style) + render(node, style));
    } else {
        let rest = nodes.drop_first();
        assert(all.drop_first() =~= rest.push(node));
        assert(all[0] == nodes[0]);
        lemma_render_all_push(rest, node, style);
        assert(render_all(all, style) =~= render_all(nodes, style) + render(node, style));
    }
}

/// The bytes of a string of ASCII characters are its characters.
pub proof fn lemma_ascii_bytes(text: &str)
    requires
        is_ascii_chars(text@),
    ensures
        text.spec_bytes() == Seq::new(text@.len(), |i: int| text@[i] as u8),
{
    is_ascii_chars_encode_utf8(text@);
    assert(text.spec_bytes() =~= Seq::new(text@.len(), |i: int| text@[i] as u8));
}

/// Appends `piece` to `out`.
pub fn push(out: &mut String, piece: &str)
    ensures
        encode_utf8(final(out)@) == encode_utf8(old(out)@) + piece.spec_bytes(),
{
    proof {
        lemma_encode_concat(out@, piece@);
    }
    out.append(piece);
}

/// The bytes of the pieces of markup that the serializer writes.
pub proof fn lemma_tokens()
    ensures
        "<".spec_bytes() == seq![LT],
        ">".spec_bytes() == seq![GT],
        "<$".spec_bytes() == seq![LT, DOLLAR],
        "$>".spec_bytes() == seq![DOLLAR, GT],
        "/>".spec_bytes() == seq![SLASH, GT],
        "</".spec_bytes() == seq![LT, SLASH],
        " ".spec_bytes() == seq![SPACE],
        "=".spec_bytes() == seq![EQUALS],
        ",".spec_bytes() == seq![COMMA],
        "\"".spec_bytes() == seq![DOUBLE_QUOTE],
        "'".spec_bytes() == seq![SINGLE_QUOTE],
        "mt:".spec_bytes() == standard_prefix(),
{
    reveal_strlit("<");
    reveal_strlit(">");
    reveal_strlit("<$");
    reveal_strlit("$>");
    reveal_strlit("/>");
    reveal_strlit("</");
    reveal_strlit(" ");
    reveal_strlit("=");
    reveal_strlit(",");
    reveal_strlit("\"");
    reveal_strlit("'");
    reveal_strlit("mt:");
    lemma_ascii_bytes("<");
    lemma_ascii_bytes(">");
    lemma_ascii_bytes("<$");
    lemma_ascii_bytes("$>");
    lemma_ascii_bytes("/>");
    lemma_ascii_bytes("</");
    lemma_ascii_bytes(" ");
    lemma_ascii_bytes("=");
    lemma_ascii_bytes(",");
    lemma_ascii_bytes("\"");
    lemma_ascii_bytes("'");
    lemma_ascii_bytes("mt:");
    assert("<".spec_bytes() =~= seq![LT]);
    assert(">".spec_bytes() =~= seq![GT]);
    assert("<$".spec_bytes() =~= seq![LT, DOLLAR]);
    assert("$>".spec_bytes() =~= seq![DOLLAR, GT]);
    assert("/>".spec_bytes() =~= seq![SLASH, GT]);
    assert("</".spec_bytes() =~= seq![LT, SLASH]);
    assert(" ".spec_bytes() =~= seq![SPACE]);
    assert("=".spec_bytes() =~= seq![EQUALS]);
    assert(",".spec_bytes() =~= seq![COMMA]);
    assert("\"".spec_bytes() =~= seq![DOUBLE_QUOTE]);
    assert("'".spec_bytes() =~= seq![SINGLE_QUOTE]);
    assert("mt:".spec_bytes() =~= standard_prefix());
}

/// Whether `text` holds a double quote.
pub fn holds_double_quote(text: &str) -> (r: bool)
    ensures
        r == text.spec_bytes().contains(DOUBLE_QUOTE),
{
    let bytes = text.as_bytes();
    let mut i: usize = 0;
    while i < bytes.len()
        invariant
            i <= bytes@.len(),
            bytes@ == text.spec_bytes(),
            forall|k: int| 0 <= k < i ==> bytes@[k] != DOUBLE_QUOTE,
        decreases bytes@.len() - i,
    {
        if bytes[i] == DOUBLE_QUOTE {
            assert(bytes@[i as int] == DOUBLE_QUOTE);
            return true;
        }
        i = i + 1;
    }
    false
}

/// Appends `value` between quotes.
pub fn push_quoted(out: &mut String, value: &str)
    ensures
        encode_utf8(final(out)@) == encode_utf8(old(out)@) + quoted(value.spec_bytes()),
{
    proof {
        lemma_tokens();
    }
    let ghost before = encode_utf8(out@);
    let ghost v = value.spec_bytes();
    if holds_double_quote(value) {
        push(out, "'");
        push(out, value);
        push(out, "'");
        assert(before + seq![SINGLE_QUOTE] + v + seq![SINGLE_QUOTE] =~= before + (seq![
            SINGLE_QUOTE,
        ] + v + seq![SINGLE_QUOTE]));
    } else {
        push(out, "\"");
        push(out, value);
        push(out, "\"");
        assert(before + seq![DOUBLE_QUOTE] + v + seq![DOUBLE_QUOTE] =~= before + (seq![
            DOUBLE_QUOTE,
        ] + v + seq![DOUBLE_QUOTE]));
    }
}

/// Appends an attribute: a space, the name, `=`, and the values, each
/// quoted, with commas between them.
pub fn push_attribute(out: &mut String, attr: &Attribute)
    ensures
        encode_utf8(final(out)@) == encode_utf8(old(out)@) + render_attribute(attr@),
{
    proof {
        lemma_tokens();
    }
    let ghost before = encode_utf8(out@);
    let ghost head = seq![SPACE] + attr@.name + seq![EQUALS];
    let ghost all = value_views(attr.values@);
    push(out, " ");
    push(out, attr.name.as_str());
    push(out, "=");
    assert(encode_utf8(out@) =~= before + head + render_values(all.take(0)));
    let mut i: usize = 0;
    while i < attr.values.len()
        invariant
            i <= attr.values@.len(),
            all == value_views(attr.values@),
            encode_utf8(out@) == before + head + render_values(all.take(i as int)),
        decreases attr.values@.len() - i,
    {
        let ghost sofar = encode_utf8(out@);
        let ghost comma = if i > 0 {
            seq![COMMA]
        } else {
            Seq::<u8>::empty()
        };
        if i > 0 {
            proof {
                lemma_tokens();
            }
            push(out, ",");
        }
        assert(encode_utf8(out@) =~= sofar + comma);
        let value = &attr.values[i];
        push_quoted(out, value.value.as_str());
        proof {
            let done = all.take(i as int);
            let added = all[i as int];
            assert(added.value == encode_utf8(value.value@));
            assert(encode_utf8(out@) == sofar + comma + quoted(added.value));
            assert(all.take(i + 1) =~= done.push(added));
            lemma_render_values_push(done, added);
            assert(sofar + comma + quoted(added.value) =~= before + head + (render_values(done)
                + comma + quoted(added.value)));
        }
        i = i + 1;
    }
    assert(all.take(i as int) =~= all);
    assert(before + head + render_values(all) =~= before + render_attribute(attr@));
}

/// An attribute as text: a space, the name, `=`, and the values, each
/// quoted, with commas between them.
pub fn attribute_to_string(attr: &Attribute) -> (out: String)
    ensures
        encode_utf8(out@) == render_attribute(attr@),
{
    let mut out = String::new();
    push_attribute(&mut out, attr);
    assert(Seq::<u8>::empty() + render_attribute(attr@) =~= render_attribute(attr@));
    out
}

/// Appends the attributes of a tag.
pub fn push_attributes(out: &mut String, attributes: &Vec<Attribute>)
    ensures
        encode_utf8(final(out)@) == encode_utf8(old(out)@) + render_attributes(
            attribute_views(attributes@),
        ),
{
    let ghost before = encode_utf8(out@);
    let ghost all = attribute_views(attributes@);
    assert(before =~= before + render_attributes(all.take(0)));
    let mut i: usize = 0;
    while i < attributes.len()
        invariant
            i <= attributes@.len(),
            all == attribute_views(attributes@),
            encode_utf8(out@) == before + render_attributes(all.take(i as int)),
        decreases attributes@.len() - i,
    {
        push_attribute(out, &attributes[i]);
        proof {
            let done = all.take(i as int);
            assert(all.take(i + 1) =~= done.push(all[i as int]));
            lemma_render_attributes_push(done, all[i as int]);
            assert(before + render_attributes(done) + render_attribute(all[i as int]) =~= before
                + (render_attributes(done) + render_attribute(all[i as int])));
        }
        i = i + 1;
    }
    assert(all.take(i as int) =~= all);
}

/// Appends the opening of a tag up to its last attribute: `lead`, the
/// prefix, the name and the attributes.
pub fn push_head(
    out: &mut String,
    lead: &str,
    options: &Options,
    name: &String,
    attributes: &Vec<Attribute>,
)
    ensures
        encode_utf8(final(out)@) == encode_utf8(old(out)@) + (lead.spec_bytes() + options@.prefix
            + encode_utf8(name@) + render_attributes(attribute_views(attributes@))),
{
    let ghost before = encode_utf8(out@);
    push(out, lead);
    push(out, options.prefix.as_str());
    push(out, name.as_str());
    push_attributes(out, attributes);
    assert(encode_utf8(out@) =~= before + (lead.spec_bytes() + options@.prefix + encode_utf8(name@)
        + render_attributes(attribute_views(attributes@))));
}

/// Appends the end marker of a block.
pub fn push_end(out: &mut String, options: &Options, name: &String)
    ensures
        encode_utf8(final(out)@) == encode_utf8(old(out)@) + render_end(
            encode_utf8(name@),
            options@,
        ),
{
    proof {
        lemma_tokens();
    }
    let ghost before = encode_utf8(out@);
    push(out, "</");
    push(out, options.prefix.as_str());
    push(out, name.as_str());
    push(out, ">");
    assert(encode_utf8(out@) =~= before + render_end(encode_utf8(name@), options@));
}

/// Appends a node as text.
pub fn push_node(out: &mut String, node: &Node, options: &Options)
    ensures
        encode_utf8(final(out)@) == encode_utf8(old(out)@) + render(node@, options@),
    decreases node,
{
    proof {
        lemma_tokens();
    }
    let ghost before = encode_utf8(out@);
    let ghost style = options@;
    match node {
        Node::Root(root) => {
            push_nodes(out, &root.children, options);
        },
        Node::Text(text) => {
            push(out, text.value.as_str());
        },
        Node::FunctionTag(tag) => {
            let ghost name = encode_utf8(tag.name@);
            let ghost attributes = render_attributes(attribute_views(tag.attributes@));
            let ghost head = function_open(style) + style.prefix + name + attributes;
            match options.function_tag_style {
                FunctionTagStyle::Dollar => {
                    push_head(out, "<$", options, &tag.name, &tag.attributes);
                    push(out, "$>");
                },
                FunctionTagStyle::SelfClosing => {
                    push_head(out, "<", options, &tag.name, &tag.attributes);
                    push(out, "/>");
                },
            }
            assert(encode_utf8(out@) == before + head + function_close(style));
            assert(before + head + function_close(style) =~= before + (head + function_close(
                style,
            )));
        },
        Node::BlockTag(tag) => {
            let ghost name = encode_utf8(tag.name@);
            let ghost attributes = render_attributes(attribute_views(tag.attributes@));
            let ghost head = seq![LT] + style.prefix + name + attributes;
            let ghost inner = render_all(node_views(tag.children@), style);
            let ghost end = render_end(name, style);
            push_head(out, "<", options, &tag.name, &tag.attributes);
            push(out, ">");
            assert(encode_utf8(out@) == before + head + seq![GT]);
            assert(before + head + seq![GT] =~= before + (head + seq![GT]));
            push_nodes(out, &tag.children, options);
            assert(before + (head + seq![GT]) + inner =~= before + (head + seq![GT] + inner));
            push_end(out, options, &tag.name);
            assert(before + (head + seq![GT] + inner) + end =~= before + (head + seq![GT] + inner
                + end));
        },
    }
}

/// Appends nodes as text, one after the other.
pub fn push_nodes(out: &mut String, nodes: &Vec<Node>, options: &Options)
    ensures
        encode_utf8(final(out)@) == encode_utf8(old(out)@) + render_all(
            node_views(nodes@),
            options@,
        ),
    decreases nodes,
{
    let ghost before = encode_utf8(out@);
    let ghost all = node_views(nodes@);
    let ghost style = options@;
    assert(before =~= before + render_all(all.take(0), style));
    let mut i: usize = 0;
    while i < nodes.len()
        invariant
            i <= nodes@.len(),
            all == node_views(nodes@),
            style == options@,
            encode_utf8(out@) == before + render_all(all.take(i as int), style),
        decreases nodes@.len() - i,
    {
        push_node(out, &nodes[i], options);
        proof {
            let done = all.take(i as int);
            assert(all.take(i + 1) =~= done.push(all[i as int]));
            lemma_render_all_push(done, all[i as int], style);
            assert(before + render_all(done, style) + render(all[i as int], style) =~= before + (
            render_all(done, style) + render(all[i as int], style)));
        }
        i = i + 1;
    }
    assert(all.take(i as int) =~= all);
}

impl Default for Options {
    /// Prefix `mt:`, function tags with dollar signs.
    fn default() -> (options: Options)
        ensures
            options@ == standard_style(),
    {
        proof {
            lemma_tokens();
        }
        Options { prefix: "mt:".to_owned(), function_tag_style: FunctionTagStyle::Dollar }
    }
}

/// The style in force where `options` is given or not.
pub open spec fn style_of(options: Option<Options>) -> Style {
    match options {
        Some(o) => o@,
        None => standard_style(),
    }
}

/// Writes a tree as a document.
///
/// Text is written as it stands. A function tag is written in the style of
/// `options`, however it was written in the source. Where `options` is
/// `None`, the prefix is `mt:` and function tags carry dollar signs.
///
/// ```
/// use mtml_parser::{parse, serialize};
///
/// let root = parse("<mt:Entries><mt:EntryTitle /></mt:Entries>").unwrap();
/// assert_eq!(serialize(root, None), "<mt:Entries><$mt:EntryTitle$></mt:Entries>");
/// ```
pub fn serialize(node: Node, options: Option<Options>) -> (out: String)
    ensures
        encode_utf8(out@) == render(node@, style_of(options)),
{
    let options = match options {
        Some(o) => o,
        None => Options::default(),
    };
    let mut out = String::new();
    push_node(&mut out, &node, &options);
    assert(Seq::<u8>::empty() + render(node@, options@) =~= render(node@, options@));
    out
}

} // verus!
