//! Identifiers of documents, folders and libraries.

use vstd::prelude::*;

verus! {

/// Whether a text is a UUID in one of the forms that `uuid` reads.
pub uninterp spec fn is_uuid_text(s: Seq<char>) -> bool;

/// Calls `uuid::Uuid::new_v4` and writes the identifier in its hyphenated form, which has
/// thirty-six characters and reads back as an identifier. It is random: nothing else is claimed
/// of it.
#[verifier::external_body]
fn new_v4() -> (s: String)
    ensures
        s@.len() == 36,
        is_uuid_text(s@),
{
    uuid::Uuid::new_v4().to_string()
}

/// Calls `uuid::Uuid::parse_str` and keeps whether it succeeded.
#[verifier::external_body]
fn parses_as_uuid(s: &str) -> (r: bool)
    ensures
        r == is_uuid_text(s@),
{
    uuid::Uuid::parse_str(s).is_ok()
}

/// A fresh random identifier.
pub fn fresh_id() -> (s: String)
    ensures
        s@.len() == 36,
        is_uuid_text(s@),
{
    new_v4()
}

/// Whether `s` is a UUID.
pub fn is_uuid(s: &str) -> (r: bool)
    ensures
        r == is_uuid_text(s@),
{
    parses_as_uuid(s)
}

} // verus!
