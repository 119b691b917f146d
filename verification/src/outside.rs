//! What the library takes from other crates and from the standard library
//! without proof.

use vstd::prelude::*;
use vstd::utf8::{encode_utf8, valid_utf8};

verus! {

/// `memchr::memchr`: the index of the first occurrence of `needle` in
/// `haystack`, or `None` if there is none.
pub assume_specification[ memchr::memchr ](needle: u8, haystack: &[u8]) -> (r: Option<usize>)
    ensures
        match r {
            Some(i) => {
                &&& i < haystack@.len()
                &&& haystack@[i as int] == needle
                &&& forall|k: int| 0 <= k < i ==> haystack@[k] != needle
            },
            None => forall|k: int| 0 <= k < haystack@.len() ==> haystack@[k] != needle,
        },
;

/// The columns that a terminal shows `s` in: wide glyphs count as two,
/// zero-width and combining marks as none.
pub uninterp spec fn display_width(s: Seq<char>) -> usize;

/// `unicode_width::UnicodeWidthStr::width`: the displayed width of a string, a
/// function of its characters alone.
#[verifier::external_body]
pub(crate) fn vis_width(s: &str) -> (r: usize)
    ensures
        r == display_width(s@),
{
    unicode_width::UnicodeWidthStr::width(s)
}

/// `s` in double quotes, escaped as a string literal is.
pub uninterp spec fn debug_quoted(s: Seq<char>) -> Seq<char>;

/// `format!("{:?}", s)`: the debug form of a string, a function of its
/// characters alone.
#[verifier::external_body]
pub(crate) fn debug_str(s: &str) -> (r: String)
    ensures
        r@ == debug_quoted(s@),
{
    format!("{:?}", s)
}

/// Whether `text` holds a match of the regular expression `pattern`, or `None`
/// when that is not one.
pub uninterp spec fn regex_found(pattern: Seq<char>, text: Seq<char>) -> Option<bool>;

/// `regex::Regex::is_match` of the pattern that `regex::Regex::new` compiles, or
/// `None` where it refuses the pattern: a function of the pattern and the text
/// alone.
#[verifier::external_body]
pub(crate) fn regex_search(pattern: &str, text: &str) -> (r: Option<bool>)
    ensures
        r == regex_found(pattern@, text@),
{
    match regex::Regex::new(pattern) {
        Ok(re) => Some(re.is_match(text)),
        Err(_) => None,
    }
}

/// What is wrong with a regular expression, when something is.
pub uninterp spec fn regex_fault(pattern: Seq<char>) -> Option<Seq<char>>;

/// The message of the error that `regex::Regex::new` refuses a pattern with, or
/// `None` where it takes it: a function of the pattern alone.
#[verifier::external_body]
pub(crate) fn regex_error(pattern: &str) -> (r: Option<String>)
    ensures
        crate::text::opt_text(r) == regex_fault(pattern@),
{
    regex::Regex::new(pattern).err().map(|e| e.to_string())
}

/// What is wrong with bytes that are not UTF-8.
pub uninterp spec fn utf8_fault(bytes: Seq<u8>) -> Seq<char>;

/// How long the first sequence is that is not UTF-8, or `None` when the bytes
/// end inside a character.
pub uninterp spec fn utf8_bad_len(bytes: Seq<u8>) -> Option<usize>;

/// Where bytes are not UTF-8, and what is said of it.
pub struct Utf8Fault {
    pub start: usize,
    pub len: Option<usize>,
    pub message: String,
}

/// `std::str::from_utf8`: the text that the bytes encode, or, when they are not
/// UTF-8, the error's `valid_up_to` (the longest front of the bytes that is
/// UTF-8), its `error_len` and its message, functions of the bytes alone.
#[verifier::external_body]
pub(crate) fn utf8_text(bytes: &[u8]) -> (r: Result<String, Utf8Fault>)
    ensures
        match r {
            Ok(s) => valid_utf8(bytes@) && encode_utf8(s@) == bytes@,
            Err(e) => {
                &&& !valid_utf8(bytes@)
                &&& e.message@ == utf8_fault(bytes@)
                &&& e.len == utf8_bad_len(bytes@)
                &&& e.start < bytes@.len()
                &&& valid_utf8(bytes@.take(e.start as int))
                &&& forall|i: int|
                    e.start < i <= bytes@.len() ==> !valid_utf8(#[trigger] bytes@.take(i))
                &&& e.len matches Some(n) ==> e.start + n <= bytes@.len()
            },
        },
{
    match std::str::from_utf8(bytes) {
        Ok(s) => Ok(s.to_string()),
        Err(e) => Err(
            Utf8Fault { start: e.valid_up_to(), len: e.error_len(), message: e.to_string() },
        ),
    }
}

/// Bytes as text, with a mark in place of each sequence that is not UTF-8.
pub uninterp spec fn utf8_lossy(bytes: Seq<u8>) -> Seq<char>;

/// `String::from_utf8_lossy`: the text that the bytes encode, with a mark in place
/// of each sequence that is not UTF-8, a function of the bytes alone.
#[verifier::external_body]
pub(crate) fn lossy_text(bytes: &[u8]) -> (r: String)
    ensures
        r@ == utf8_lossy(bytes@),
{
    String::from_utf8_lossy(bytes).into_owned()
}

/// A text in upper case.
pub uninterp spec fn upper_form(s: Seq<char>) -> Seq<char>;

/// `str::to_uppercase`: the upper-case form of a text, a function of its characters
/// alone.
#[verifier::external_body]
pub(crate) fn upper_text(s: &str) -> (r: String)
    ensures
        r@ == upper_form(s@),
{
    s.to_uppercase()
}

/// A text in lower case.
pub uninterp spec fn lower_form(s: Seq<char>) -> Seq<char>;

/// `str::to_lowercase`: the lower-case form of a text, a function of its characters
/// alone.
#[verifier::external_body]
pub(crate) fn lower_text(s: &str) -> (r: String)
    ensures
        r@ == lower_form(s@),
{
    s.to_lowercase()
}

/// `std::char::from_u32`: the character with that code, or `None` where the code
/// is no character's: a surrogate's, or past the last one.
pub assume_specification[ std::char::from_u32 ](i: u32) -> (r: Option<char>)
    ensures
        match r {
            Some(c) => c as u32 == i,
            None => 0xd800 <= i <= 0xdfff || i > 0x10ffff,
        },
;

} // verus!
