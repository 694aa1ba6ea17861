//! The records of a word's index file: one line for each page that holds the
//! word, written as the URL of the page, `::`, and the number of occurrences.

use vstd::prelude::*;
use vstd::string::StringExecFns;
use vstd::string::StringSliceAdditionalSpecFns;
use crate::error::CeridwenError;
use crate::keys::text_bytes;
use crate::page_index::join;
use crate::page_index::joined;
use crate::strings::decimal_digits;
use crate::strings::push_char;
use crate::strings::string_between;
use crate::strings::to_chars;
use crate::strings::usize_to_string;
use crate::utils::main_separator;

verus! {

/// Whether `::` stands at position `i` of `s`.
pub open spec fn separator_at(s: Seq<char>, i: int) -> bool {
    0 <= i && i + 1 < s.len() && s[i] == ':' && s[i + 1] == ':'
}

/// Whether `::` stands somewhere in `s`.
pub open spec fn has_separator(s: Seq<char>) -> bool {
    exists|i: int| separator_at(s, i)
}

/// Whether the first `::` of `s` stands at position `i`.
pub open spec fn is_first_separator(s: Seq<char>, i: int) -> bool {
    separator_at(s, i) && forall|j: int| 0 <= j < i ==> !separator_at(s, j)
}

/// The two fields of a record: what stands before its only `::` and what
/// stands after it. A line with no `::`, or with more than one, has none.
pub open spec fn record_fields(line: Seq<char>) -> Option<(Seq<char>, Seq<char>)> {
    if exists|i: int| is_first_separator(line, i) {
        let i = choose|i: int| is_first_separator(line, i);
        if has_separator(line.skip(i + 2)) {
            None
        } else {
            Some((line.take(i), line.skip(i + 2)))
        }
    } else {
        None
    }
}

/// The value of a decimal digit.
pub open spec fn digit_value(c: char) -> Option<nat> {
    if '0' <= c && c <= '9' {
        Some((c as u8 - '0' as u8) as nat)
    } else {
        None
    }
}

/// The number that a string of decimal digits writes; none for the empty
/// string and for one that holds anything but digits.
pub open spec fn digits_value(s: Seq<char>) -> Option<nat>
    decreases s.len(),
{
    if s.len() == 0 {
        None
    } else if s.len() == 1 {
        digit_value(s[0])
    } else {
        match (digits_value(s.drop_last()), digit_value(s.last())) {
            (Some(high), Some(low)) => Some(10 * high + low),
            _ => None,
        }
    }
}

/// The number that a string writes in decimal digits, with or without a `+`
/// before them.
pub open spec fn decimal_value(s: Seq<char>) -> Option<nat> {
    if s.len() > 0 && s[0] == '+' {
        digits_value(s.skip(1))
    } else {
        digits_value(s)
    }
}

/// A string of digits writes a number that is at least the number that any
/// of its beginnings writes.
pub proof fn digits_value_grows(s: Seq<char>, n: int)
    requires
        0 < n <= s.len(),
        digits_value(s) is Some,
    ensures
        digits_value(s.take(n)) is Some,
        digits_value(s.take(n))->0 <= digits_value(s)->0,
    decreases s.len(),
{
    if n == s.len() {
        assert(s.take(n) == s);
    } else {
        assert(s.drop_last().take(n) == s.take(n));
        digits_value_grows(s.drop_last(), n);
    }
}

fn digit(c: char) -> (d: Option<usize>)
    ensures
        match d {
            Some(v) => digit_value(c) == Some(v as nat) && v <= 9,
            None => digit_value(c) is None,
        },
{
    if '0' <= c && c <= '9' {
        Some((c as u8 - '0' as u8) as usize)
    } else {
        None
    }
}

/// Reads a number in decimal digits, which a `+` may precede. Anything else
/// in the text, and a number that does not fit, gives nothing.
pub fn parse_usize(text: &str) -> (value: Option<usize>)
    ensures
        match value {
            Some(n) => decimal_value(text@) == Some(n as nat),
            None => decimal_value(text@) is None || decimal_value(text@)->0 > usize::MAX,
        },
{
    let chars = to_chars(text);
    let start: usize = if chars.len() > 0 && chars[0] == '+' {
        1
    } else {
        0
    };
    let ghost digits = chars@.skip(start as int);
    assert(chars@.skip(0) == chars@);
    assert(decimal_value(text@) == digits_value(digits));
    if start == chars.len() {
        return None;
    }
    let mut value: usize = 0;
    let mut i: usize = start;
    while i < chars.len()
        invariant
            start <= i <= chars.len(),
            start < chars.len(),
            digits == chars@.skip(start as int),
            decimal_value(text@) == digits_value(digits),
            i > start ==> digits_value(digits.take(i - start)) == Some(value as nat),
            i == start ==> value == 0,
        decreases chars.len() - i,
    {
        let ghost read = digits.take(i - start);
        let ghost longer = digits.take(i + 1 - start);
        proof {
            assert(longer.drop_last() == read);
            assert(longer.last() == chars[i as int]);
            if digits_value(digits) is Some {
                digits_value_grows(digits, i + 1 - start);
            }
        }
        let low = match digit(chars[i]) {
            Some(low) => low,
            None => {
                return None;
            },
        };
        let shifted = match value.checked_mul(10) {
            Some(shifted) => shifted,
            None => {
                return None;
            },
        };
        value = match shifted.checked_add(low) {
            Some(sum) => sum,
            None => {
                return None;
            },
        };
        i += 1;
    }
    assert(digits.take(chars.len() - start) == digits);
    Some(value)
}

/// One record of a word's index file: a page and how often the word occurs
/// in it.
#[derive(Debug, Clone, PartialEq, Eq)]
pub struct WordIndexEntry {
    pub url: String,
    pub count: usize,
}

/// The position of the first `::` at or after `from`.
fn find_separator(chars: &Vec<char>, from: usize) -> (found: Option<usize>)
    requires
        from <= chars.len(),
    ensures
        match found {
            Some(i) => from <= i && separator_at(chars@, i as int) && forall|j: int|
                from <= j < i ==> !separator_at(chars@, j),
            None => forall|j: int| from <= j ==> !separator_at(chars@, j),
        },
{
    if chars.len() < 2 {
        return None;
    }
    let mut i: usize = from;
    while i < chars.len() - 1
        invariant
            from <= i <= chars.len(),
            chars.len() >= 2,
            forall|j: int| from <= j < i ==> !separator_at(chars@, j),
        decreases chars.len() - i,
    {
        if chars[i] == ':' && chars[i + 1] == ':' {
            return Some(i);
        }
        i += 1;
    }
    None
}

impl WordIndexEntry {
    /// Reads a record: the URL, `::`, and the count in decimal digits.
    ///
    /// A line that does not hold `::` exactly once is a bad record; one
    /// whose second field is no number that fits is refused as such.
    pub fn from_string(line: &str) -> (r: Result<WordIndexEntry, CeridwenError>)
        ensures
            match r {
                Ok(entry) => record_fields(line@) matches Some((url, number)) && entry.url@ == url
                    && decimal_value(number) == Some(entry.count as nat),
                Err(CeridwenError::BadIndexRecord) => record_fields(line@) is None,
                Err(CeridwenError::ParseInt(text)) => record_fields(line@) matches Some((_, number))
                    && text@ == number && (decimal_value(number) is None || decimal_value(
                    number,
                )->0 > usize::MAX),
                Err(_) => false,
            },
    {
        let chars = to_chars(line);
        let first = match find_separator(&chars, 0) {
            Some(first) => first,
            None => {
                assert(forall|i: int| !is_first_separator(line@, i));
                return Err(CeridwenError::BadIndexRecord);
            },
        };
        proof {
            assert(is_first_separator(line@, first as int));
            let i = choose|i: int| is_first_separator(line@, i);
            assert(i == first) by {
                if i < first {
                    assert(!separator_at(line@, i));
                }
                if first < i {
                    assert(!separator_at(line@, first as int));
                }
            }
        }
        let ghost rest = line@.skip(first + 2);
        assert(first + 1 < chars.len());
        match find_separator(&chars, first + 2) {
            Some(second) => {
                assert(separator_at(rest, second - (first + 2)));
                return Err(CeridwenError::BadIndexRecord);
            },
            None => {
                assert forall|j: int| !separator_at(rest, j) by {
                    if separator_at(rest, j) {
                        assert(separator_at(line@, j + first + 2));
                    }
                }
            },
        }
        let url = string_between(&chars, 0, first);
        let number = string_between(&chars, first + 2, chars.len());
        assert(url@ == line@.take(first as int));
        assert(number@ == rest);
        match parse_usize(number.as_str()) {
            Some(count) => Ok(WordIndexEntry { url, count }),
            None => Err(CeridwenError::ParseInt(number)),
        }
    }

    /// A record for a page and a count.
    pub fn new(url: String, count: usize) -> (entry: WordIndexEntry)
        ensures
            entry.url == url,
            entry.count == count,
    {
        WordIndexEntry { url, count }
    }

    /// The record as a line: the URL, `::`, and the count in decimal digits.
    pub fn to_record(&self) -> (line: String)
        ensures
            line@ == self.url@ + seq![':', ':'] + decimal_digits(self.count as nat),
    {
        let mut line = self.url.clone();
        push_char(&mut line, ':');
        push_char(&mut line, ':');
        let digits = usize_to_string(self.count);
        line.append(digits.as_str());
        assert(line@ == self.url@ + seq![':', ':'] + decimal_digits(self.count as nat));
        line
    }
}

/// The path of the index file of a word: under `words`, the first character
/// of the word and the number of its bytes, the word with the extension
/// `index`. The empty word has none.
pub open spec fn word_path(root_dir: Seq<char>, word: Seq<char>, separator: char) -> Option<
    Seq<char>,
> {
    if word.len() == 0 {
        None
    } else {
        Some(
            joined(
                joined(
                    joined(joined(root_dir, "words"@, separator), seq![word.first()], separator),
                    decimal_digits(text_bytes(word).len()),
                    separator,
                ),
                word + ".index"@,
                separator,
            ),
        )
    }
}

/// The path of the index file of a word, with the given separator between
/// its parts.
pub fn word_to_path_with(root_dir: &str, word: &str, separator: char) -> (path: Option<String>)
    ensures
        match path {
            Some(path) => word_path(root_dir@, word@, separator) == Some(path@),
            None => word_path(root_dir@, word@, separator) is None,
        },
{
    let chars = to_chars(word);
    if chars.len() == 0 {
        return None;
    }
    let mut path = root_dir.to_string();
    join(&mut path, "words", separator);
    let mut first = String::new();
    push_char(&mut first, chars[0]);
    assert(first@ == seq![word@.first()]);
    join(&mut path, first.as_str(), separator);
    let length = usize_to_string(word.as_bytes().len());
    join(&mut path, length.as_str(), separator);
    let mut name = word.to_string();
    name.append(".index");
    join(&mut path, name.as_str(), separator);
    Some(path)
}

/// The path of the index file of a word, as this platform writes paths.
pub fn word_to_path(root_dir: &str, word: &str) -> (path: Option<String>)
    ensures
        match path {
            Some(path) => exists|separator: char| #[trigger]
                word_path(root_dir@, word@, separator) == Some(path@),
            None => word@.len() == 0,
        },
{
    word_to_path_with(root_dir, word, main_separator())
}

} // verus!
