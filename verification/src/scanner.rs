//! Scanning: finding where a run of bytes of one kind ends.

use crate::bytes::{
    is_name_start, name_byte, name_start, space, to_lower, BACKSLASH, DOLLAR, GT, LOWER_M, LOWER_T,
    LT, SLASH,
};
use crate::grammar::{
    mt_at, name_end, sigil_at, space_end, tag_close, tag_open_at, text_end, value_end,
};
use vstd::prelude::*;

verus! {

/// Whether `mt`, in either case, stands at offset `j`.
pub fn mt_here(bytes: &[u8], j: usize) -> (r: bool)
    ensures
        r == mt_at(bytes@, j as int),
{
    j < bytes.len() && bytes.len() - j >= 2 && to_lower(bytes[j]) == LOWER_M && to_lower(
        bytes[j + 1],
    ) == LOWER_T
}

/// Whether a tag boundary stands at offset `i`.
pub fn tag_opens(bytes: &[u8], i: usize) -> (r: bool)
    ensures
        r == tag_open_at(bytes@, i as int),
{
    if i >= bytes.len() || bytes[i] != LT {
        return false;
    }
    let sigil: bool = bytes.len() - i >= 2 && (bytes[i + 1] == DOLLAR || bytes[i + 1] == SLASH);
    assert(sigil == sigil_at(bytes@, i + 1));
    if sigil {
        mt_here(bytes, i + 2)
    } else {
        mt_here(bytes, i + 1)
    }
}

/// The end of the text that begins at `p`: the offset of the next tag
/// boundary, or the length of the document.
pub fn take_until_tag(bytes: &[u8], p: usize) -> (end: usize)
    requires
        p <= bytes@.len(),
    ensures
        end == text_end(bytes@, p as int),
        p <= end <= bytes@.len(),
{
    let mut i: usize = p;
    while i < bytes.len() && !tag_opens(bytes, i)
        invariant
            p <= i <= bytes@.len(),
            text_end(bytes@, p as int) == text_end(bytes@, i as int),
        decreases bytes@.len() - i,
    {
        i = i + 1;
    }
    i
}

/// The end of the name that begins at `p`, or `None` where no name begins
/// there.
pub fn name_parser(bytes: &[u8], p: usize) -> (end: Option<usize>)
    requires
        p <= bytes@.len(),
    ensures
        end is Some <==> p < bytes@.len() && is_name_start(bytes@[p as int]),
        end matches Some(e) ==> e == name_end(bytes@, p + 1) && p < e <= bytes@.len() && bytes@[e
            - 1] < 128,
{
    if p >= bytes.len() || !name_start(bytes[p]) {
        return None;
    }
    let mut i: usize = p + 1;
    while i < bytes.len() && name_byte(bytes[i])
        invariant
            p < i <= bytes@.len(),
            bytes@[i - 1] < 128,
            name_end(bytes@, p + 1) == name_end(bytes@, i as int),
        decreases bytes@.len() - i,
    {
        i = i + 1;
    }
    Some(i)
}

/// The offset of the first byte at or after `p` that is no white space.
pub fn skip_space(bytes: &[u8], p: usize) -> (end: usize)
    requires
        p <= bytes@.len(),
    ensures
        end == space_end(bytes@, p as int),
        p <= end <= bytes@.len(),
{
    let mut i: usize = p;
    while i < bytes.len() && space(bytes[i])
        invariant
            p <= i <= bytes@.len(),
            space_end(bytes@, p as int) == space_end(bytes@, i as int),
        decreases bytes@.len() - i,
    {
        i = i + 1;
    }
    i
}

/// The offset of the first `>` at or after `p`, or the length of the
/// document.
pub fn find_close(bytes: &[u8], p: usize) -> (end: usize)
    requires
        p <= bytes@.len(),
    ensures
        end == tag_close(bytes@, p as int),
        p <= end <= bytes@.len(),
        end < bytes@.len() ==> bytes@[end as int] == GT,
{
    let mut i: usize = p;
    while i < bytes.len() && bytes[i] != GT
        invariant
            p <= i <= bytes@.len(),
            tag_close(bytes@, p as int) == tag_close(bytes@, i as int),
        decreases bytes@.len() - i,
    {
        i = i + 1;
    }
    i
}

/// The offset of the quote `q` that closes the value whose content begins
/// at `p`, or the length of the document where none does.
pub fn find_quote(bytes: &[u8], p: usize, q: u8) -> (end: usize)
    requires
        p <= bytes@.len(),
    ensures
        end == value_end(bytes@, p as int, q),
        p <= end <= bytes@.len(),
        end < bytes@.len() ==> bytes@[end as int] == q,
{
    let mut i: usize = p;
    loop
        invariant
            p <= i <= bytes@.len(),
            value_end(bytes@, p as int, q) == value_end(bytes@, i as int, q),
        ensures
            p <= i <= bytes@.len(),
            i == value_end(bytes@, p as int, q),
            i < bytes@.len() ==> bytes@[i as int] == q,
        decreases bytes@.len() - i,
    {
        if i >= bytes.len() {
            break;
        }
        if bytes[i] == BACKSLASH && bytes.len() - i >= 2 && bytes[i + 1] == q {
            i = i + 2;
        } else if bytes[i] == q {
            break;
        } else {
            i = i + 1;
        }
    }
    i
}

} // verus!
