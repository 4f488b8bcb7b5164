//! Locality of scanning: what a scan finds depends only on the bytes it
//! passes.

use crate::bytes::{is_name_byte, is_name_start, is_quote, BACKSLASH, LT};
use crate::grammar::{name_end, sigil_at, tag_open_at, text_end, value_end};
use vstd::prelude::*;

verus! {

/// The bytes `x` stand in `y` at offset `p`.
pub open spec fn occurs(y: Seq<u8>, p: int, x: Seq<u8>) -> bool {
    &&& 0 <= p
    &&& p + x.len() <= y.len()
    &&& forall|i: int| 0 <= i < x.len() ==> y[p + i] == #[trigger] x[i]
}

/// Two pieces stand one after the other where their concatenation stands.
pub proof fn lemma_occurs_add(y: Seq<u8>, p: int, a: Seq<u8>, b: Seq<u8>)
    requires
        occurs(y, p, a + b),
    ensures
        occurs(y, p, a),
        occurs(y, p + a.len(), b),
{
    let c = a + b;
    assert forall|i: int| 0 <= i < a.len() implies y[p + i] == #[trigger] a[i] by {
        assert(c[i] == a[i]);
    }
    assert forall|i: int| 0 <= i < b.len() implies y[p + a.len() + i] == #[trigger] b[i] by {
        assert(c[a.len() + i] == b[i]);
    }
}

/// A name: a name start followed by name bytes.
pub open spec fn is_name(name: Seq<u8>) -> bool {
    &&& name.len() > 0
    &&& is_name_start(name[0])
    &&& forall|i: int| 0 < i < name.len() ==> is_name_byte(#[trigger] name[i])
}

/// Text that holds no tag boundary and is not empty.
pub open spec fn is_text(text: Seq<u8>) -> bool {
    &&& text.len() > 0
    &&& forall|i: int| 0 <= i < text.len() ==> !tag_open_at(text, i)
}

/// Where no tag boundary lies between `p` and `q`, the text that begins at
/// `p` ends where the text that begins at `q` ends.
pub proof fn lemma_text_end_skip(y: Seq<u8>, p: int, q: int)
    requires
        0 <= p <= q <= y.len(),
        forall|i: int| p <= i < q ==> !tag_open_at(y, i),
    ensures
        text_end(y, p) == text_end(y, q),
    decreases q - p,
{
    if p < q {
        lemma_text_end_skip(y, p + 1, q);
    }
}

/// Text that stands in a document before a `<` or before its end holds no
/// tag boundary there either.
pub proof fn lemma_text_local(y: Seq<u8>, p: int, text: Seq<u8>)
    requires
        occurs(y, p, text),
        is_text(text),
        p + text.len() == y.len() || y[p + text.len()] == LT,
    ensures
        forall|i: int| p <= i < p + text.len() ==> !tag_open_at(y, i),
        text_end(y, p) == text_end(y, p + text.len()),
{
    let n = text.len() as int;
    assert forall|i: int| p <= i < p + n implies !tag_open_at(y, i) by {
        let k = i - p;
        assert(y[p + k] == text[k]);
        if tag_open_at(y, i) {
            if k + 1 < n {
                assert(y[p + (k + 1)] == text[k + 1]);
            }
            if k + 2 < n {
                assert(y[p + (k + 2)] == text[k + 2]);
            }
            if k + 3 < n {
                assert(y[p + (k + 3)] == text[k + 3]);
            }
            assert(sigil_at(y, i + 1) == sigil_at(text, k + 1));
            assert(tag_open_at(text, k));
        }
    }
    lemma_text_end_skip(y, p, p + n);
}

/// A name that stands in a document before a byte that is no name byte, or
/// before its end, ends there.
pub proof fn lemma_name_local(y: Seq<u8>, p: int, name: Seq<u8>)
    requires
        occurs(y, p, name),
        is_name(name),
        p + name.len() == y.len() || !is_name_byte(y[p + name.len()]),
    ensures
        is_name_start(y[p]),
        name_end(y, p + 1) == p + name.len(),
{
    assert(y[p + 0] == name[0]);
    lemma_name_run(y, p, name, 1);
}

/// The rest of a name, from its byte `k` on, ends where the name ends.
proof fn lemma_name_run(y: Seq<u8>, p: int, name: Seq<u8>, k: int)
    requires
        occurs(y, p, name),
        is_name(name),
        p + name.len() == y.len() || !is_name_byte(y[p + name.len()]),
        1 <= k <= name.len(),
    ensures
        name_end(y, p + k) == p + name.len(),
    decreases name.len() - k,
{
    if k < name.len() {
        assert(y[p + k] == name[k]);
        lemma_name_run(y, p, name, k + 1);
    }
}

/// A value and its closing quote that stand in a document end there where
/// they end so on their own.
pub proof fn lemma_value_local(y: Seq<u8>, p: int, w: Seq<u8>, k: int, q: u8)
    requires
        occurs(y, p, w),
        is_quote(q),
        0 <= k <= w.len(),
        value_end(w, k, q) < w.len(),
    ensures
        value_end(y, p + k, q) == p + value_end(w, k, q),
    decreases w.len() - k,
{
    if k < w.len() {
        assert(y[p + k] == w[k]);
        if k + 1 < w.len() {
            assert(y[p + (k + 1)] == w[k + 1]);
        }
        if w[k] == BACKSLASH && k + 1 < w.len() && w[k + 1] == q {
            lemma_value_local(y, p, w, k + 2, q);
        } else if w[k] == q {
        } else {
            lemma_value_local(y, p, w, k + 1, q);
        }
    }
}

} // verus!
