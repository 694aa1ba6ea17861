//! Small helpers for paths.

use vstd::prelude::*;
use crate::strings::push_char;

verus! {

/// A path with every `/` and every `\` replaced by `separator`.
pub open spec fn normalised(path: Seq<char>, separator: char) -> Seq<char> {
    path.map_values(
        |c: char|
            if c == '/' || c == '\\' {
                separator
            } else {
                c
            },
    )
}

/// Reads `std::path::MAIN_SEPARATOR`, the character that this platform
/// writes between the parts of a path.
#[verifier::external_body]
pub(crate) fn main_separator() -> char {
    std::path::MAIN_SEPARATOR
}

/// Writes a path with `separator` wherever it has `/` or `\`.
pub fn normalise_path_with(input: &str, separator: char) -> (path: String)
    ensures
        path@ == normalised(input@, separator),
{
    broadcast use vstd::string::group_string_axioms;

    let mut path = String::new();
    for c in it: input.chars()
        invariant
            it.seq() == input@,
            path@ == normalised(input@.take(it.index() as int), separator),
    {
        assert(input@.take(it.index() + 1) == input@.take(it.index() as int).push(c));
        if c == '/' || c == '\\' {
            push_char(&mut path, separator);
        } else {
            push_char(&mut path, c);
        }
        assert(path@ == normalised(input@.take(it.index() + 1), separator));
    }
    assert(input@.take(input@.len() as int) == input@);
    path
}

/// Writes a path the way the running operating system expects it: with the
/// platform's separator wherever it has `/` or `\`.
pub fn normalise_path(input: &str) -> (path: String)
    ensures
        exists|separator: char| path@ == normalised(input@, separator),
{
    normalise_path_with(input, main_separator())
}

} // verus!
