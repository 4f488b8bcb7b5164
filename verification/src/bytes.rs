//! Byte classes of the markup: the ASCII bytes that the grammar tells apart.

use vstd::prelude::*;

verus! {

/// `<`
pub const LT: u8 = 60;

/// `>`
pub const GT: u8 = 62;

/// `$`
pub const DOLLAR: u8 = 36;

/// `/`
pub const SLASH: u8 = 47;

/// `:`
pub const COLON: u8 = 58;

/// `=`
pub const EQUALS: u8 = 61;

/// `,`
pub const COMMA: u8 = 44;

/// `\`
pub const BACKSLASH: u8 = 92;

/// `"`
pub const DOUBLE_QUOTE: u8 = 34;

/// `'`
pub const SINGLE_QUOTE: u8 = 39;

/// `_`
pub const UNDERSCORE: u8 = 95;

/// `m`
pub const LOWER_M: u8 = 109;

/// `t`
pub const LOWER_T: u8 = 116;

/// `b` with an ASCII capital letter turned into its small letter.
pub open spec fn lower(b: u8) -> u8 {
    if 65 <= b <= 90 {
        (b + 32) as u8
    } else {
        b
    }
}

/// `s` with every ASCII capital letter turned into its small letter.
pub open spec fn lower_all(s: Seq<u8>) -> Seq<u8> {
    Seq::new(s.len(), |i: int| lower(s[i]))
}

/// An ASCII letter.
pub open spec fn is_letter(b: u8) -> bool {
    (65 <= b <= 90) || (97 <= b <= 122)
}

/// An ASCII digit.
pub open spec fn is_digit(b: u8) -> bool {
    48 <= b <= 57
}

/// A byte that may begin a tag or attribute name.
pub open spec fn is_name_start(b: u8) -> bool {
    is_letter(b) || b == UNDERSCORE
}

/// A byte that may follow the first byte of a name.
pub open spec fn is_name_byte(b: u8) -> bool {
    is_letter(b) || is_digit(b) || b == UNDERSCORE || b == COLON
}

/// Space, tab, line feed or carriage return.
pub open spec fn is_space(b: u8) -> bool {
    b == 32 || b == 9 || b == 10 || b == 13
}

/// Either of the two quote characters.
pub open spec fn is_quote(b: u8) -> bool {
    b == DOUBLE_QUOTE || b == SINGLE_QUOTE
}

/// Whether `a` and `b` have the same length and agree but for the case of
/// ASCII letters.
pub open spec fn same_ignoring_case(a: Seq<u8>, b: Seq<u8>) -> bool {
    lower_all(a) == lower_all(b)
}

/// `b` with an ASCII capital letter turned into its small letter.
pub fn to_lower(b: u8) -> (r: u8)
    ensures
        r == lower(b),
{
    if 65 <= b && b <= 90 {
        b + 32
    } else {
        b
    }
}

/// Whether `b` may begin a name.
pub fn name_start(b: u8) -> (r: bool)
    ensures
        r == is_name_start(b),
{
    (65 <= b && b <= 90) || (97 <= b && b <= 122) || b == UNDERSCORE
}

/// Whether `b` may follow the first byte of a name.
pub fn name_byte(b: u8) -> (r: bool)
    ensures
        r == is_name_byte(b),
{
    (65 <= b && b <= 90) || (97 <= b && b <= 122) || (48 <= b && b <= 57) || b == UNDERSCORE || b
        == COLON
}

/// Whether `b` is white space.
pub fn space(b: u8) -> (r: bool)
    ensures
        r == is_space(b),
{
    b == 32 || b == 9 || b == 10 || b == 13
}

/// Whether `b` is a quote character.
pub fn quote(b: u8) -> (r: bool)
    ensures
        r == is_quote(b),
{
    b == DOUBLE_QUOTE || b == SINGLE_QUOTE
}

} // verus!
