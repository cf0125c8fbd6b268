//! What the JSON files of the sources hold, by pointer: a JSON Pointer such as
//! `/layouts/3/id` names a value of a document.

use vstd::prelude::*;
use crate::text;

verus! {

/// The string at a pointer of a document, where both are there.
pub uninterp spec fn text_at(doc: Seq<char>, pointer: Seq<char>) -> Option<Seq<char>>;

/// The number at a pointer, where it is one without sign and fits 64 bits.
pub uninterp spec fn whole_at(doc: Seq<char>, pointer: Seq<char>) -> Option<u64>;

/// The number at a pointer, where it is a signed one of 64 bits.
pub uninterp spec fn signed_at(doc: Seq<char>, pointer: Seq<char>) -> Option<i64>;

/// The items of the array at a pointer, each as a document of its own.
pub uninterp spec fn items_at(doc: Seq<char>, pointer: Seq<char>) -> Option<Seq<Seq<char>>>;

pub open spec fn strings(v: Seq<String>) -> Seq<Seq<char>> {
    Seq::new(v.len(), |i: int| v[i]@)
}

/// `serde_json::from_str`, then `Value::pointer` and `Value::as_str`: a
/// function of the document and the pointer, nothing where the document is not
/// JSON, has no such value, or the value is no string.
#[verifier::external_body]
pub(crate) fn json_text(doc: &str, pointer: &str) -> (r: Option<String>)
    ensures
        match r {
            Some(s) => text_at(doc@, pointer@) == Some(s@),
            None => text_at(doc@, pointer@) is None,
        },
{
    let value: serde_json::Value = serde_json::from_str(doc).ok()?;
    value.pointer(pointer)?.as_str().map(String::from)
}

/// `serde_json::from_str`, then `Value::pointer` and `Value::as_u64`: a
/// function of the document and the pointer, nothing where the document is not
/// JSON, has no such value, or the value is no such number.
#[verifier::external_body]
pub(crate) fn json_whole(doc: &str, pointer: &str) -> (r: Option<u64>)
    ensures
        r == whole_at(doc@, pointer@),
{
    let value: serde_json::Value = serde_json::from_str(doc).ok()?;
    value.pointer(pointer)?.as_u64()
}

/// `serde_json::from_str`, then `Value::pointer` and `Value::as_i64`: a
/// function of the document and the pointer, nothing where the document is not
/// JSON, has no such value, or the value is no such number.
#[verifier::external_body]
pub(crate) fn json_signed(doc: &str, pointer: &str) -> (r: Option<i64>)
    ensures
        r == signed_at(doc@, pointer@),
{
    let value: serde_json::Value = serde_json::from_str(doc).ok()?;
    value.pointer(pointer)?.as_i64()
}

/// `serde_json::from_str`, then `Value::pointer` and `Value::as_array`, each
/// item written out by `Value::to_string`: a function of the document and the
/// pointer, nothing where the document is not JSON, has no such value, or the
/// value is no array.
#[verifier::external_body]
pub(crate) fn json_items(doc: &str, pointer: &str) -> (r: Option<Vec<String>>)
    ensures
        match r {
            Some(v) => items_at(doc@, pointer@) == Some(strings(v@)),
            None => items_at(doc@, pointer@) is None,
        },
{
    let value: serde_json::Value = serde_json::from_str(doc).ok()?;
    let items = value.pointer(pointer)?.as_array()?;
    Some(items.iter().map(|v| v.to_string()).collect())
}

/// The pointer to a member of an object.
pub open spec fn member(name: Seq<char>) -> Seq<char> {
    "/"@ + text::replaced(text::replaced(name, "~"@, "~0"@), "/"@, "~1"@)
}

/// The pointer to a member of an object, with what has a meaning in pointers
/// written otherwise.
pub fn member_pointer(name: &str) -> (p: String)
    ensures
        p@ == member(name@),
{
    proof {
        reveal_strlit("~");
        reveal_strlit("/");
    }
    let tilde = text::replace(&text::chars_of(name), "~", "~0");
    let slash = text::replace(&tilde, "/", "~1");
    let mut p = text::chars_of("/");
    text::append(&mut p, &slash);
    text::string_of(&p)
}

} // verus!
