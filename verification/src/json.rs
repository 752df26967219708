//! The text of a record's body, which `serde_json` writes and reads.
//!
//! A body holds four things: the tag of the command, its key, its value if it
//! has one, and whether the record is deleted. The text is the JSON array
//! `[[tag, key, value], deleted]`, with `null` for a value that is not there.

use vstd::prelude::*;

verus! {

/// The text that `serde_json::to_vec` writes for a body, or `None` where it
/// reports an error.
pub uninterp spec fn json_text(
    tag: Seq<char>,
    key: Seq<char>,
    value: Option<Seq<char>>,
    deleted: bool,
) -> Option<Seq<u8>>;

/// The tag, key, value and flag that `serde_json::from_slice` reads from a
/// text, or `None` where it reports an error.
pub uninterp spec fn json_body(text: Seq<u8>) -> Option<
    (Seq<char>, Seq<char>, Option<Seq<char>>, bool),
>;

/// The characters of a string that may be absent.
pub open spec fn opt_chars(s: Option<String>) -> Option<Seq<char>> {
    match s {
        Some(s) => Some(s@),
        None => None,
    }
}

/// The characters of a borrowed string that may be absent.
pub open spec fn opt_ref_chars(s: Option<&String>) -> Option<Seq<char>> {
    match s {
        Some(s) => Some(s@),
        None => None,
    }
}

/// `serde_json::to_vec`, on a tuple of a tuple and a flag. The contract only
/// names what it returns: the text is `json_text` of the four values, and an
/// error comes exactly where `json_text` is `None`.
#[verifier::external_body]
pub(crate) fn write_json(tag: &str, key: &str, value: Option<&String>, deleted: bool) -> (r:
    Result<Vec<u8>, serde_json::Error>)
    ensures
        match r {
            Ok(text) => json_text(tag@, key@, opt_ref_chars(value), deleted) == Some(text@),
            Err(_) => json_text(tag@, key@, opt_ref_chars(value), deleted) is None,
        },
{
    serde_json::to_vec(&((tag, key, value), deleted))
}

/// `serde_json::from_slice`, to a tuple of a tuple and a flag. The contract
/// only names what it returns: the four values are `json_body` of the text,
/// and an error comes exactly where `json_body` is `None`.
#[verifier::external_body]
pub(crate) fn read_json(text: &[u8]) -> (r: Result<
    ((String, String, Option<String>), bool),
    serde_json::Error,
>)
    ensures
        match r {
            Ok(((tag, key, value), deleted)) => json_body(text@) == Some(
                (tag@, key@, opt_chars(value), deleted),
            ),
            Err(_) => json_body(text@) is None,
        },
{
    serde_json::from_slice(text)
}

/// `serde::de::Error::custom` of `serde_json::Error`: an error of the reader
/// with a message of the caller's. Nothing is stated of it.
#[verifier::external_body]
pub(crate) fn json_error(message: &str) -> serde_json::Error {
    serde::de::Error::custom(message)
}

} // verus!
