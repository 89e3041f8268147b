//! The character properties the engine asks of `std`.

use vstd::prelude::*;

verus! {

/// Whether a character has the Unicode `Alphabetic` property, as
/// `char::is_alphabetic` reports it.
pub uninterp spec fn alphabetic(c: char) -> bool;

/// Whether a character is in a Unicode number category (`Nd`, `Nl`, `No`),
/// as `char::is_numeric` reports it.
pub uninterp spec fn numeric(c: char) -> bool;

/// Calls `char::is_alphabetic`. Its result is named rather than stated: it
/// is a lookup in the Unicode tables `std` carries.
#[verifier::external_body]
pub fn is_alphabetic(c: char) -> (b: bool)
    ensures
        b == alphabetic(c),
{
    c.is_alphabetic()
}

/// Calls `char::is_numeric`. Its result is named rather than stated, for the
/// same reason.
#[verifier::external_body]
pub fn is_numeric(c: char) -> (b: bool)
    ensures
        b == numeric(c),
{
    c.is_numeric()
}

/// Calls `char::from_u32`, which is `Some` exactly for Unicode scalar values
/// and then holds the character with that value.
#[verifier::external_body]
pub fn char_from_u32(v: u32) -> (r: Option<char>)
    ensures
        r is Some <==> vstd::utf8::is_scalar(v),
        r matches Some(c) ==> c as u32 == v,
{
    char::from_u32(v)
}

} // verus!
