//! Lists of strings stored as JSON text in the payload of a stored chunk.
use vstd::prelude::*;
use crate::text::views;

verus! {

/// The list of strings that `serde_json` reads from `text`, or `None` where
/// `text` is not a JSON array of strings.
pub uninterp spec fn spec_parse_string_list(text: Seq<char>) -> Option<Seq<Seq<char>>>;

/// The JSON text that `serde_json` writes for a list of strings.
pub uninterp spec fn spec_string_list_json(list: Seq<Seq<char>>) -> Seq<char>;

/// Calls `serde_json::from_str::<Vec<String>>`. The contract names the
/// result.
#[verifier::external_body]
pub(crate) fn parse_string_list(text: &str) -> (r: Option<Vec<String>>)
    ensures
        match r {
            Some(v) => spec_parse_string_list(text@) == Some(views(v@)),
            None => spec_parse_string_list(text@) is None,
        },
{
    serde_json::from_str::<Vec<String>>(text).ok()
}

/// Calls `serde_json::to_string` on a list of strings. Writing such a list
/// cannot fail, and `serde_json` reads back from the text the list it wrote:
/// the contract names the text and states that read.
#[verifier::external_body]
pub(crate) fn string_list_to_json(list: &Vec<String>) -> (r: String)
    ensures
        r@ == spec_string_list_json(views(list@)),
        spec_parse_string_list(r@) == Some(views(list@)),
{
    serde_json::to_string(list).unwrap_or_default()
}

} // verus!
