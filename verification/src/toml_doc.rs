//! TOML documents, as the `toml` crate reads them.

use vstd::prelude::*;

verus! {

/// What a TOML value holds.
pub enum TomlTree {
    Text(Seq<char>),
    Integer(int),
    Boolean(bool),
    List(Seq<TomlTree>),
    Table(Map<Seq<char>, TomlTree>),
    /// A float or a date.
    Other,
}

impl TomlTree {
    /// The entry of a table under a key.
    pub open spec fn entry(self, key: Seq<char>) -> Option<TomlTree> {
        match self {
            TomlTree::Table(m) => if m.contains_key(key) {
                Some(m[key])
            } else {
                None
            },
            _ => None,
        }
    }
}

/// A TOML value of the `toml` crate.
#[verifier::external_type_specification]
#[verifier::external_body]
pub struct ExTomlValue(toml::Value);

/// What a value of the `toml` crate holds.
pub uninterp spec fn toml_tree(v: toml::Value) -> TomlTree;

/// What `toml::from_str` makes of a text: the document, or the words of its
/// complaint.
pub uninterp spec fn toml_document(text: Seq<char>) -> Result<TomlTree, Seq<char>>;

/// What each of a list of values holds.
pub open spec fn trees(items: Seq<toml::Value>) -> Seq<TomlTree> {
    Seq::new(items.len(), |i: int| toml_tree(items[i]))
}

/// A value told apart by its kind.
pub enum TomlNode<'a> {
    Text(&'a str),
    Integer(i64),
    Boolean(bool),
    List(&'a Vec<toml::Value>),
    Table,
    Other,
}

/// `toml::from_str`, read into a `toml::Value`: the document where the text is
/// well-formed, else the words of the error.
#[verifier::external_body]
pub(crate) fn parse_document(text: &str) -> (res: Result<toml::Value, String>)
    ensures
        match res {
            Ok(v) => toml_document(text@) == Ok::<TomlTree, Seq<char>>(toml_tree(v)),
            Err(words) => toml_document(text@) == Err::<TomlTree, Seq<char>>(words@),
        },
{
    match toml::from_str::<toml::Value>(text) {
        Ok(v) => Ok(v),
        Err(e) => Err(e.to_string()),
    }
}

/// `toml::Value::get` with a text: the entry of a table under that key; nothing
/// for a value of another kind.
#[verifier::external_body]
pub(crate) fn entry<'a>(v: &'a toml::Value, key: &str) -> (res: Option<&'a toml::Value>)
    ensures
        match res {
            Some(x) => toml_tree(*v).entry(key@) == Some(toml_tree(*x)),
            None => toml_tree(*v).entry(key@) is None,
        },
{
    v.get(key)
}

/// The variants of `toml::Value`, one for one; floats and dates are not told
/// apart.
#[verifier::external_body]
pub(crate) fn node(v: &toml::Value) -> (res: TomlNode<'_>)
    ensures
        match res {
            TomlNode::Text(s) => toml_tree(*v) == TomlTree::Text(s@),
            TomlNode::Integer(n) => toml_tree(*v) == TomlTree::Integer(n as int),
            TomlNode::Boolean(b) => toml_tree(*v) == TomlTree::Boolean(b),
            TomlNode::List(items) => toml_tree(*v) == TomlTree::List(trees(items@)),
            TomlNode::Table => toml_tree(*v) is Table,
            TomlNode::Other => toml_tree(*v) is Other,
        },
{
    match v {
        toml::Value::String(s) => TomlNode::Text(s.as_str()),
        toml::Value::Integer(n) => TomlNode::Integer(*n),
        toml::Value::Boolean(b) => TomlNode::Boolean(*b),
        toml::Value::Array(items) => TomlNode::List(items),
        toml::Value::Table(_) => TomlNode::Table,
        toml::Value::Float(_) | toml::Value::Datetime(_) => TomlNode::Other,
    }
}

} // verus!
