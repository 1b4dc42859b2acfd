//! Matching text against a regular expression.

use vstd::prelude::*;

verus! {

/// What the regular-expression engine answers when `pattern` is matched
/// against `text`: `Some(true)` for a match, `Some(false)` for none, and
/// `None` where the pattern does not compile or the engine gives up on the
/// text. The answer depends on the two texts alone.
pub uninterp spec fn regex_verdict(pattern: Seq<char>, text: Seq<char>) -> Option<bool>;

/// The characters a name is made of: ASCII letters, ASCII digits and `_`.
pub open spec fn is_name_char(c: char) -> bool {
    ||| 'a' <= c <= 'z'
    ||| 'A' <= c <= 'Z'
    ||| '0' <= c <= '9'
    ||| c == '_'
}

/// A name: at least one character, each of them a name character.
pub open spec fn is_identifier(s: Seq<char>) -> bool {
    &&& s.len() > 0
    &&& forall|i: int| 0 <= i < s.len() ==> is_name_char(#[trigger] s[i])
}

/// The pattern that describes a name.
pub open spec fn name_pattern() -> Seq<char> {
    "^[A-Za-z0-9_]+$"@
}

/// Compiles `pattern` with `fancy_regex::Regex::new` and asks
/// `fancy_regex::Regex::is_match` whether it matches somewhere in `text`.
/// An error of either call is reported as `None`.
///
/// Trusted: the answer is the one named `regex_verdict`; and for the pattern
/// `^[A-Za-z0-9_]+$`, which is anchored at both ends of the text and repeats
/// one character class, the engine always answers, with a match exactly for
/// the non-empty texts made of characters of that class.
#[verifier::external_body]
pub(crate) fn regex_is_match(pattern: &str, text: &str) -> (verdict: Option<bool>)
    ensures
        verdict == regex_verdict(pattern@, text@),
        pattern@ == name_pattern() ==> verdict == Some(is_identifier(text@)),
{
    match fancy_regex::Regex::new(pattern) {
        Ok(regex) => regex.is_match(text).ok(),
        Err(_) => None,
    }
}

} // verus!
