//! JSON documents, as the `serde_json` crate reads them.

use vstd::prelude::*;

verus! {

/// What a JSON value holds.
pub enum JsonTree {
    Text(Seq<char>),
    /// A number, as the bits of the double that `as_f64` gives for it.
    Number(u64),
    Object(Map<Seq<char>, JsonTree>),
    /// A list, a truth value or null.
    Other,
}

impl JsonTree {
    /// The entry of an object under a key.
    pub open spec fn entry(self, key: Seq<char>) -> Option<JsonTree> {
        match self {
            JsonTree::Object(m) => if m.contains_key(key) {
                Some(m[key])
            } else {
                None
            },
            _ => None,
        }
    }
}

/// A JSON value of the `serde_json` crate.
#[verifier::external_type_specification]
#[verifier::external_body]
pub struct ExJsonValue(serde_json::Value);

/// What a value of the `serde_json` crate holds.
pub uninterp spec fn json_tree(v: serde_json::Value) -> JsonTree;

/// What `serde_json::from_str` makes of a text: the document, where the text is
/// well-formed.
pub uninterp spec fn json_document(text: Seq<char>) -> Option<JsonTree>;

/// `serde_json::from_str`, read into a `serde_json::Value`: the document where the
/// text is well-formed.
#[verifier::external_body]
pub(crate) fn parse_json(text: &str) -> (res: Option<serde_json::Value>)
    ensures
        match res {
            Some(v) => json_document(text@) == Some(json_tree(v)),
            None => json_document(text@) is None,
        },
{
    serde_json::from_str::<serde_json::Value>(text).ok()
}

/// `serde_json::Value::get` with a text: the entry of an object under that key;
/// nothing for a value of another kind.
#[verifier::external_body]
pub(crate) fn json_entry<'a>(v: &'a serde_json::Value, key: &str) -> (res: Option<
    &'a serde_json::Value,
>)
    ensures
        match res {
            Some(x) => json_tree(*v).entry(key@) == Some(json_tree(*x)),
            None => json_tree(*v).entry(key@) is None,
        },
{
    v.get(key)
}

/// `serde_json::Value::as_str`: the text of a text.
#[verifier::external_body]
pub(crate) fn json_text(v: &serde_json::Value) -> (res: Option<&str>)
    ensures
        match res {
            Some(s) => json_tree(*v) == JsonTree::Text(s@),
            None => !(json_tree(*v) is Text),
        },
{
    v.as_str()
}

/// `serde_json::Value::as_f64`: a number as a double, given by its bits.
#[verifier::external_body]
pub(crate) fn json_number(v: &serde_json::Value) -> (res: Option<u64>)
    ensures
        match res {
            Some(bits) => json_tree(*v) == JsonTree::Number(bits),
            None => !(json_tree(*v) is Number),
        },
{
    v.as_f64().map(|n| n.to_bits())
}

/// `serde_json::Value::as_object` and the keys of the map: each key of an object
/// once, in an order that is not stated.
#[verifier::external_body]
pub(crate) fn json_keys(v: &serde_json::Value) -> (res: Option<Vec<String>>)
    ensures
        match res {
            Some(keys) => json_tree(*v) matches JsonTree::Object(m) && m.dom()
                == crate::text::texts(keys@).to_set() && crate::text::texts(keys@).no_duplicates(),
            None => !(json_tree(*v) is Object),
        },
{
    v.as_object().map(|m| m.keys().cloned().collect())
}

} // verus!
