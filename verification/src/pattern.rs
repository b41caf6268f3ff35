//! Regular expressions, as the regex crate matches them.

use vstd::prelude::*;

verus! {

/// Whether the regular expression `pattern` matches somewhere in `text`, or
/// the message of the error with which the pattern fails to compile.
pub uninterp spec fn regex_match(pattern: Seq<char>, text: Seq<char>) -> Result<bool, Seq<char>>;

/// Compiles `pattern` with `regex::Regex::new` and asks `Regex::is_match`
/// about `text`; a pattern that does not compile gives the error's own
/// message. The claim is only that the outcome is a function of the two texts.
#[verifier::external_body]
pub(crate) fn regex_is_match(pattern: &str, text: &str) -> (r: Result<bool, String>)
    ensures
        match r {
            Ok(found) => regex_match(pattern@, text@) == Ok::<bool, Seq<char>>(found),
            Err(message) => regex_match(pattern@, text@) == Err::<bool, Seq<char>>(message@),
        },
{
    match regex::Regex::new(pattern) {
        Ok(compiled) => Ok(compiled.is_match(text)),
        Err(error) => Err(error.to_string()),
    }
}

/// Whether a match found the pattern; a pattern that is none is found
/// nowhere.
pub fn was_found(outcome: &Result<bool, String>) -> (r: bool)
    ensures
        r == (*outcome matches Ok(found) && found),
{
    match outcome {
        Ok(found) => *found,
        Err(_) => false,
    }
}

} // verus!
