//! Strings: what the library takes from `std` for them, and small helpers
//! built on it.

use vstd::prelude::*;
use vstd::utf8::decode_utf8;
use vstd::utf8::valid_utf8;

verus! {

/// Whether a character from U+0080 on has Unicode's White_Space property.
pub uninterp spec fn unicode_white_space(c: char) -> bool;

/// White space as `char::is_whitespace` sees it, which goes by Unicode's
/// White_Space property: below U+0080 the space and the characters from
/// U+0009 to U+000D, from there on what the property marks.
pub open spec fn is_white_space(c: char) -> bool {
    if c <= '\x7f' {
        c == ' ' || ('\t' <= c && c <= '\r')
    } else {
        unicode_white_space(c)
    }
}

/// The lowercase form of an ASCII capital letter; any other character as it is.
pub open spec fn ascii_lower(c: char) -> char {
    if 'A' <= c && c <= 'Z' {
        ((c as u8) + 32) as char
    } else {
        c
    }
}

/// A string without its leading white space.
pub open spec fn trim_start(s: Seq<char>) -> Seq<char>
    decreases s.len(),
{
    if s.len() > 0 && is_white_space(s.first()) {
        trim_start(s.drop_first())
    } else {
        s
    }
}

/// A string without its trailing white space.
pub open spec fn trim_end(s: Seq<char>) -> Seq<char>
    decreases s.len(),
{
    if s.len() > 0 && is_white_space(s.last()) {
        trim_end(s.drop_last())
    } else {
        s
    }
}

/// A string without leading and trailing white space.
pub open spec fn trimmed(s: Seq<char>) -> Seq<char> {
    trim_end(trim_start(s))
}

/// Whether `prop` holds of every character of a string.
pub open spec fn each_char(s: Seq<char>, prop: spec_fn(char) -> bool) -> bool {
    forall|i: int| 0 <= i < s.len() ==> prop(#[trigger] s[i])
}

/// What holds of every character of a string holds of every character of
/// what is left without the white space around it.
pub proof fn trimmed_keeps(s: Seq<char>, prop: spec_fn(char) -> bool)
    requires
        each_char(s, prop),
    ensures
        each_char(trim_start(s), prop),
        each_char(trim_end(s), prop),
        each_char(trimmed(s), prop),
    decreases s.len(),
{
    if s.len() > 0 {
        assert forall|i: int| 0 <= i < s.drop_first().len() implies prop(
            #[trigger] s.drop_first()[i],
        ) by {
            assert(s.drop_first()[i] == s[i + 1]);
        }
        assert forall|i: int| 0 <= i < s.drop_last().len() implies prop(
            #[trigger] s.drop_last()[i],
        ) by {
            assert(s.drop_last()[i] == s[i]);
        }
        trimmed_keeps(s.drop_first(), prop);
        trimmed_keeps(s.drop_last(), prop);
    }
    trim_start_shortens(s);
    if trim_start(s).len() < s.len() {
        trimmed_keeps(trim_start(s), prop);
    }
}

/// A string without its leading white space is no longer than the string,
/// and is the string where it is as long.
pub proof fn trim_start_shortens(s: Seq<char>)
    ensures
        trim_start(s).len() <= s.len(),
        trim_start(s).len() == s.len() ==> trim_start(s) == s,
    decreases s.len(),
{
    if s.len() > 0 && is_white_space(s.first()) {
        trim_start_shortens(s.drop_first());
    }
}

/// A string without its leading white space is empty or begins with
/// something else.
pub proof fn trim_start_begins(s: Seq<char>)
    ensures
        trim_start(s).len() == 0 || !is_white_space(trim_start(s).first()),
    decreases s.len(),
{
    if s.len() > 0 && is_white_space(s.first()) {
        trim_start_begins(s.drop_first());
    }
}

/// A string without its trailing white space is empty or ends with
/// something else, and where the string begins with something else it still
/// begins with it.
pub proof fn trim_end_ends(s: Seq<char>)
    ensures
        trim_end(s).len() == 0 || !is_white_space(trim_end(s).last()),
        s.len() > 0 && !is_white_space(s.first()) ==> trim_end(s).len() > 0 && trim_end(s).first()
            == s.first(),
    decreases s.len(),
{
    if s.len() > 0 && is_white_space(s.last()) {
        trim_end_ends(s.drop_last());
        if !is_white_space(s.first()) {
            assert(s.len() > 1);
            assert(s.drop_last().first() == s.first());
        }
    }
}

/// Nothing more is removed from a string that has lost the white space
/// around it.
pub proof fn trimmed_is_trimmed(s: Seq<char>)
    ensures
        trimmed(trimmed(s)) == trimmed(s),
{
    trim_start_begins(s);
    trim_end_ends(trim_start(s));
}

/// Calls `char::is_whitespace`, which holds of the characters with
/// Unicode's White_Space property. Below U+0080 these are the space and the
/// characters from U+0009 to U+000D; for the others the result is named.
#[verifier::external_body]
pub(crate) fn char_is_whitespace(c: char) -> (b: bool)
    ensures
        c <= '\x7f' ==> b == (c == ' ' || ('\t' <= c && c <= '\r')),
        c > '\x7f' ==> b == unicode_white_space(c),
{
    c.is_whitespace()
}

/// Calls `str::trim`, which returns the slice between the first and the last
/// character that is not white space.
#[verifier::external_body]
pub(crate) fn trim(s: &str) -> (r: &str)
    ensures
        r@ == trimmed(s@),
{
    s.trim()
}

/// Calls `String::push`, which appends one character.
#[verifier::external_body]
pub(crate) fn push_char(s: &mut String, c: char)
    ensures
        final(s)@ == old(s)@.push(c),
{
    s.push(c)
}

/// Compares two string slices with `==` of `str`, which holds when they have
/// the same characters.
#[verifier::external_body]
pub(crate) fn str_eq(a: &str, b: &str) -> (r: bool)
    ensures
        r == (a@ == b@),
{
    a == b
}

/// Calls `std::str::from_utf8`, which gives the text that the bytes encode
/// where they are valid UTF-8, and an error where they are not.
#[verifier::external_body]
pub(crate) fn from_utf8(bytes: &[u8]) -> (r: Option<&str>)
    ensures
        r is Some <==> valid_utf8(bytes@),
        r is Some ==> r->0@ == decode_utf8(bytes@),
{
    std::str::from_utf8(bytes).ok()
}

/// The characters of a string slice.
pub fn to_chars(s: &str) -> (chars: Vec<char>)
    ensures
        chars@ == s@,
{
    broadcast use vstd::string::group_string_axioms;

    let mut chars: Vec<char> = Vec::new();
    for c in it: s.chars()
        invariant
            it.seq() == s@,
            chars@ == s@.take(it.index() as int),
    {
        chars.push(c);
    }
    assert(s@.take(s@.len() as int) == s@);
    chars
}

/// The string of the characters from `from` on.
pub(crate) fn string_from(chars: &Vec<char>, from: usize) -> (s: String)
    requires
        from <= chars.len(),
    ensures
        s@ == chars@.skip(from as int),
{
    string_between(chars, from, chars.len())
}

/// Whether `text` begins with `prefix`.
pub fn starts_with(text: &str, prefix: &str) -> (b: bool)
    ensures
        b == prefix@.is_prefix_of(text@),
{
    let whole = to_chars(text);
    let start = to_chars(prefix);
    if start.len() > whole.len() {
        return false;
    }
    let mut i: usize = 0;
    while i < start.len()
        invariant
            i <= start.len() <= whole.len(),
            whole@ == text@,
            start@ == prefix@,
            forall|k: int| 0 <= k < i ==> whole[k] == start[k],
        decreases start.len() - i,
    {
        if whole[i] != start[i] {
            assert(text@.subrange(0, prefix@.len() as int)[i as int] != prefix@[i as int]);
            return false;
        }
        i += 1;
    }
    assert(prefix@ == text@.subrange(0, prefix@.len() as int));
    true
}

/// The string of the characters from `from` up to, but without, `to`.
pub(crate) fn string_between(chars: &Vec<char>, from: usize, to: usize) -> (s: String)
    requires
        from <= to <= chars.len(),
    ensures
        s@ == chars@.subrange(from as int, to as int),
{
    let mut s = String::new();
    let mut i: usize = from;
    while i < to
        invariant
            from <= i <= to <= chars.len(),
            s@ == chars@.subrange(from as int, i as int),
        decreases to - i,
    {
        push_char(&mut s, chars[i]);
        i += 1;
    }
    s
}

/// The decimal digits of a number, without leading zeros.
pub open spec fn decimal_digits(n: nat) -> Seq<char>
    decreases n,
{
    if n < 10 {
        seq![('0' as u8 + n) as char]
    } else {
        decimal_digits(n / 10).push(('0' as u8 + n % 10) as char)
    }
}

/// Calls `usize::to_string`, which writes a number in decimal digits.
#[verifier::external_body]
pub(crate) fn usize_to_string(n: usize) -> (s: String)
    ensures
        s@ == decimal_digits(n as nat),
{
    n.to_string()
}

} // verus!
