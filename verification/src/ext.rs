//! Contracts for the outside functions the library relies on: the Unicode
//! identifier classification of the unicode-xid crate, and a few items of
//! std that vstd leaves unspecified.

use vstd::prelude::*;

verus! {

/// Whether a character has the Unicode XID_Start property (UAX #31).
pub uninterp spec fn is_id_start(c: char) -> bool;

/// Whether a character has the Unicode XID_Continue property (UAX #31).
pub uninterp spec fn is_id_continue(c: char) -> bool;

/// Whether a character has the Unicode White_Space property.
pub uninterp spec fn is_space(c: char) -> bool;

/// Relies on unicode_xid::UnicodeXID::is_xid_start: whether the character
/// has XID_Start, a fixed classification of the character alone.
#[verifier::external_body]
pub(crate) fn xid_start(c: char) -> (r: bool)
    ensures
        r == is_id_start(c),
{
    unicode_xid::UnicodeXID::is_xid_start(c)
}

/// Relies on unicode_xid::UnicodeXID::is_xid_continue: whether the character
/// has XID_Continue, a fixed classification of the character alone.
#[verifier::external_body]
pub(crate) fn xid_continue(c: char) -> (r: bool)
    ensures
        r == is_id_continue(c),
{
    unicode_xid::UnicodeXID::is_xid_continue(c)
}

/// Relies on char::is_whitespace: whether the character has White_Space,
/// a fixed classification of the character alone.
#[verifier::external_body]
pub(crate) fn whitespace(c: char) -> (r: bool)
    ensures
        r == is_space(c),
{
    c.is_whitespace()
}

/// Relies on char::from_u32: it returns the character with the given code
/// exactly when the code is a Unicode scalar value, that is, not a
/// surrogate and at most 0x10FFFF.
#[verifier::external_body]
pub(crate) fn char_from_u32(v: u32) -> (r: Option<char>)
    ensures
        (r matches Some(c) ==> c as u32 == v),
        r is Some <==> (v < 0xD800 || (0xDFFF < v && v <= 0x10FFFF)),
{
    char::from_u32(v)
}

/// Relies on str::chars: it yields the characters of the string in order.
#[verifier::external_body]
pub(crate) fn chars_of(s: &str) -> (v: Vec<char>)
    ensures
        v@ == s@,
{
    s.chars().collect()
}

/// Relies on String::push: it appends the character to the end of the string.
pub assume_specification[ String::push ](s: &mut String, c: char)
    ensures
        final(s)@ == old(s)@.push(c),
;

} // verus!
