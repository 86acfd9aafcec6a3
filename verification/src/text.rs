//! Paths and names as text.

use crate::component::copy_bytes;
use crate::error::{Error, ErrorKind};
use std::str::Utf8Error;
use vstd::prelude::*;
use vstd::string::StringSliceAdditionalSpecFns;
use vstd::utf8::{decode_utf8, encode_utf8_decode_utf8, is_ascii_chars, valid_utf8};

verus! {

/// `core::str::Utf8Error`, carried and never looked into.
#[verifier::external_type_specification]
#[verifier::external_body]
pub struct ExUtf8Error(Utf8Error);

/// `core::str::from_utf8`: succeeds on exactly the byte strings that are
/// valid UTF-8, and then gives the text whose encoding the bytes are.
#[verifier::external_body]
fn utf8_text<'a>(bytes: &'a [u8]) -> (r: Result<&'a str, Utf8Error>)
    ensures
        r is Ok <==> valid_utf8(bytes@),
        r matches Ok(text) ==> text.spec_bytes() == bytes@,
{
    core::str::from_utf8(bytes)
}

/// The text of a path, if the path is valid UTF-8.
pub fn path_to_str<'a>(path: &'a [u8]) -> (r: Result<&'a str, Error>)
    ensures
        match r {
            Ok(text) => valid_utf8(path@) && text@ == decode_utf8(path@) && text.spec_bytes()
                == path@,
            Err(e) => !valid_utf8(path@) && e.kind == ErrorKind::InvalidUnicode && e.path@
                == path@,
        },
{
    match utf8_text(path) {
        Ok(text) => {
            proof {
                encode_utf8_decode_utf8(text@);
            }
            Ok(text)
        },
        Err(_) => Err(Error { kind: ErrorKind::InvalidUnicode, path: copy_bytes(path) }),
    }
}

/// The lower-case form of an ASCII character; any other character
/// unchanged.
pub open spec fn ascii_lower(c: char) -> char {
    if 'A' <= c <= 'Z' {
        ((c as u8) + 32) as u8 as char
    } else {
        c
    }
}

/// A text with each ASCII letter in its lower-case form.
pub open spec fn ascii_lowercased(text: Seq<char>) -> Seq<char> {
    text.map_values(|c: char| ascii_lower(c))
}

/// The lower-case form of a text by the rules of Unicode, as
/// `str::to_lowercase` gives it.
pub uninterp spec fn unicode_lowercase(text: Seq<char>) -> Seq<char>;

/// `str::to_ascii_lowercase`: the letters `A` to `Z` become `a` to `z`, every
/// other character stays.
#[verifier::external_body]
fn ascii_lowercase(text: &str) -> (r: String)
    ensures
        r@ == ascii_lowercased(text@),
{
    text.to_ascii_lowercase()
}

/// `str::to_lowercase`: the result is named, not stated.
#[verifier::external_body]
fn full_lowercase(text: &str) -> (r: String)
    ensures
        r@ == unicode_lowercase(text@),
{
    text.to_lowercase()
}

/// The lower-case form of a text: letter by letter where the text is
/// ASCII, by the rules of Unicode otherwise.
pub open spec fn lowercase(text: Seq<char>) -> Seq<char> {
    if is_ascii_chars(text) {
        ascii_lowercased(text)
    } else {
        unicode_lowercase(text)
    }
}

/// Converts a text to lower case.
pub fn to_lowercase(text: &str) -> (r: String)
    ensures
        r@ == lowercase(text@),
{
    if text.is_ascii() {
        ascii_lowercase(text)
    } else {
        full_lowercase(text)
    }
}

} // verus!
