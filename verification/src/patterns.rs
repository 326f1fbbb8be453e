//! Searching texts for regular expressions, as the `regex` crate does.

use crate::text::texts;
use vstd::prelude::*;

verus! {

/// Whether a text holds a match of a regular expression; nothing where the pattern
/// is none.
pub uninterp spec fn regex_search(pattern: Seq<char>, text: Seq<char>) -> Option<bool>;

/// `regex::Regex::new` and `is_match`: a function of the pattern and the text.
#[verifier::external_body]
pub(crate) fn search(pattern: &str, text: &str) -> (res: Option<bool>)
    ensures
        res == regex_search(pattern@, text@),
{
    regex::Regex::new(pattern).ok().map(|r| r.is_match(text))
}

/// Whether a text holds a match of any of some regular expressions; nothing where one
/// of them is none.
pub uninterp spec fn regex_set_search(
    patterns: Seq<Seq<char>>,
    text: Seq<char>,
) -> Option<bool>;

/// `regex::RegexSet::new` and `is_match`: a function of the patterns and the text.
/// Whether the patterns make a set does not depend on the text.
#[verifier::external_body]
pub(crate) fn search_any(patterns: &[String], text: &str) -> (res: Option<bool>)
    ensures
        res == regex_set_search(texts(patterns@), text@),
        forall|t: Seq<char>|
            (#[trigger] regex_set_search(texts(patterns@), t) is Some) == (res is Some),
{
    regex::RegexSet::new(patterns).ok().map(|r| r.is_match(text))
}

/// Whether a character has a meaning of its own in a regular expression.
pub open spec fn is_meta(c: char) -> bool {
    c == '\\' || c == '.' || c == '+' || c == '*' || c == '?' || c == '(' || c == ')' || c == '|' || c
        == '[' || c == ']' || c == '{' || c == '}' || c == '^' || c == '$' || c == '#' || c == '&' || c
        == '-' || c == '~'
}

/// A text with a backslash before every character that has a meaning of its own.
pub open spec fn backslashed(s: Seq<char>) -> Seq<char>
    decreases s.len(),
{
    if s.len() == 0 {
        Seq::empty()
    } else if is_meta(s.last()) {
        backslashed(s.drop_last()) + seq!['\\', s.last()]
    } else {
        backslashed(s.drop_last()) + seq![s.last()]
    }
}

/// `regex::escape`: it puts a backslash before every character that has a meaning of
/// its own in a regular expression, and changes nothing else.
#[verifier::external_body]
pub(crate) fn escape(text: &str) -> (res: String)
    ensures
        res@ == backslashed(text@),
{
    regex::escape(text)
}

} // verus!
