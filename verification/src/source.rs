//! A document as text and as bytes, and the cutting of strings out of it.

use vstd::prelude::*;
use vstd::string::StringSliceAdditionalSpecFns;
use vstd::utf8::{
    encode_utf8, encode_utf8_valid_utf8, is_char_boundary,
    is_char_boundary_iff_not_is_continuation_byte, is_char_boundary_start_end_of_seq,
    length_of_first_scalar, pop_first_scalar, valid_utf8, valid_utf8_split,
};

verus! {

/// An offset at which a document may be cut: its start, its end, or a place
/// beside an ASCII byte.
pub open spec fn is_cut(s: Seq<u8>, i: int) -> bool {
    &&& 0 <= i <= s.len()
    &&& (i == 0 || i == s.len() || s[i] < 128 || s[i - 1] < 128)
}

/// In valid UTF-8 the offset after an ASCII byte begins a character.
pub proof fn lemma_boundary_after_ascii(s: Seq<u8>, i: int)
    requires
        valid_utf8(s),
        0 <= i < s.len(),
        s[i] < 128,
    ensures
        is_char_boundary(s, i + 1),
    decreases s.len(),
{
    reveal_with_fuel(is_char_boundary, 2);
    reveal_with_fuel(valid_utf8, 2);
    let first = length_of_first_scalar(s);
    if i == 0 {
        is_char_boundary_start_end_of_seq(pop_first_scalar(s));
    } else if i < first {
    } else {
        lemma_boundary_after_ascii(pop_first_scalar(s), i - first);
    }
}

/// In valid UTF-8 every cut begins a character.
pub proof fn lemma_cut_is_boundary(s: Seq<u8>, i: int)
    requires
        valid_utf8(s),
        is_cut(s, i),
    ensures
        is_char_boundary(s, i),
{
    is_char_boundary_start_end_of_seq(s);
    if 0 < i < s.len() {
        if s[i] < 128 {
            is_char_boundary_iff_not_is_continuation_byte(s, i);
        } else {
            lemma_boundary_after_ascii(s, i - 1);
        }
    }
}

/// A document: its text and the bytes of that text.
pub struct Source<'a> {
    pub text: &'a str,
    pub bytes: &'a [u8],
}

impl<'a> View for Source<'a> {
    type V = Seq<u8>;

    open spec fn view(&self) -> Seq<u8> {
        self.bytes@
    }
}

impl<'a> Source<'a> {
    /// The bytes are those of the text.
    pub open spec fn wf(&self) -> bool {
        self.bytes@ == self.text.spec_bytes()
    }

    /// The document that `text` holds.
    pub fn new(text: &'a str) -> (src: Source<'a>)
        ensures
            src.wf(),
            src@ == text.spec_bytes(),
            src.text == text,
    {
        Source { text, bytes: text.as_bytes() }
    }

    /// The number of bytes of the document.
    pub fn len(&self) -> (n: usize)
        ensures
            n == self@.len(),
    {
        self.bytes.len()
    }

    /// The bytes from `from` to `to`, as a string of their own.
    pub fn slice(&self, from: usize, to: usize) -> (out: String)
        requires
            self.wf(),
            from <= to,
            is_cut(self@, from as int),
            is_cut(self@, to as int),
        ensures
            encode_utf8(out@) == self@.subrange(from as int, to as int),
    {
        let ghost s = self@;
        proof {
            encode_utf8_valid_utf8(self.text@);
            lemma_cut_is_boundary(s, from as int);
            lemma_cut_is_boundary(s, to as int);
            valid_utf8_split(s, from as int);
        }
        let (_, tail) = self.text.split_at(from);
        proof {
            let t = tail.spec_bytes();
            assert(t == s.subrange(from as int, s.len() as int));
            is_char_boundary_start_end_of_seq(t);
            if to < s.len() {
                is_char_boundary_iff_not_is_continuation_byte(s, to as int);
                is_char_boundary_iff_not_is_continuation_byte(t, to - from);
            }
        }
        let (middle, _) = tail.split_at(to - from);
        proof {
            assert(middle.spec_bytes() == s.subrange(from as int, to as int));
        }
        middle.to_owned()
    }
}

} // verus!
