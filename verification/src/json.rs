//! Texts out of JSON objects.

use vstd::prelude::*;

verus! {

/// A JSON value.
#[verifier::external_type_specification]
#[verifier::external_body]
pub struct ExValue(serde_json::Value);

/// The members of a JSON object that are texts; nothing for a value that is not
/// an object.
pub uninterp spec fn text_members(value: serde_json::Value) -> Map<Seq<char>, Seq<char>>;

/// The members that are texts of the JSON value that `serde_json::from_slice`
/// reads from bytes; nothing where it reads none.
pub uninterp spec fn json_members(bytes: Seq<u8>) -> Option<Map<Seq<char>, Seq<char>>>;

/// `serde_json::from_slice` reads a JSON value, or fails. Which, and what it
/// reads, depend on the bytes alone.
#[verifier::external_body]
pub(crate) fn parse_json(bytes: &[u8]) -> (value: Option<serde_json::Value>)
    ensures
        json_members(bytes@) == (match value {
            Some(value) => Some(text_members(value)),
            None => None,
        }),
{
    serde_json::from_slice(bytes).ok()
}

/// `serde_json::Value::get` finds a member of an object by its name, and
/// `serde_json::Value::as_str` gives the text of a value that is one: together
/// they find the member among those that are texts.
#[verifier::external_body]
fn find_text_member(value: &serde_json::Value, name: &str) -> (text: Option<String>)
    ensures
        text is Some <==> text_members(*value).contains_key(name@),
        text matches Some(t) ==> t@ == text_members(*value)[name@],
{
    value.get(name).and_then(|v| v.as_str()).map(|s| s.to_string())
}

/// The text under a name, or the empty text where there is none.
pub open spec fn member_or_empty(members: Map<Seq<char>, Seq<char>>, name: Seq<char>) -> Seq<char> {
    if members.contains_key(name) {
        members[name]
    } else {
        ""@
    }
}

/// The text under a name of a JSON object, or the empty text where there is
/// none.
pub(crate) fn text_member_or_empty(value: &serde_json::Value, name: &str) -> (text: String)
    ensures
        text@ == member_or_empty(text_members(*value), name@),
{
    match find_text_member(value, name) {
        Some(text) => text,
        None => "".to_owned(),
    }
}

/// The text under a name of the JSON object that bytes hold, if they hold one
/// and it has such a text.
pub fn text_member(bytes: &[u8], name: &str) -> (text: Option<String>)
    ensures
        crate::state::text_view(text) == (match json_members(bytes@) {
            Some(members) => if members.contains_key(name@) {
                Some(members[name@])
            } else {
                None
            },
            None => None,
        }),
{
    match parse_json(bytes) {
        Some(value) => find_text_member(&value, name),
        None => None,
    }
}

/// A member that is a text is found under its name; any other name gives the empty
/// text.
pub proof fn law_members_are_found_by_name(
    members: Map<Seq<char>, Seq<char>>,
    name: Seq<char>,
    text: Seq<char>,
)
    ensures
        member_or_empty(members.insert(name, text), name) == text,
        member_or_empty(members.remove(name), name).len() == 0,
{
    reveal_strlit("");
}

} // verus!
