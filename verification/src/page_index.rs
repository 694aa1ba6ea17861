//! Where the files of a page are kept in an index that is laid out as a
//! tree of directories: under the host of its URL, the parts of the host in
//! reverse, then under the segments of its path, in a file that is named by
//! a hash of its query and fragment.

use vstd::prelude::*;
use vstd::string::StringExecFns;
use crate::data::PageUrl;
use crate::data::UrlParts;
use crate::error::CeridwenError;
use crate::keys::bytes_of;
use crate::keys::text_bytes;
use crate::strings::push_char;
use crate::strings::string_from;
use crate::strings::to_chars;
use crate::utils::main_separator;

verus! {

/// The hexadecimal digit of a number below sixteen, in lower case.
pub open spec fn hex_digit(n: int) -> char {
    if n < 10 {
        ('0' as u8 + n) as char
    } else {
        ('a' as u8 + n - 10) as char
    }
}

/// Bytes written in hexadecimal digits, two for each byte, in lower case.
pub open spec fn hex_of(bytes: Seq<u8>) -> Seq<char>
    decreases bytes.len(),
{
    if bytes.len() == 0 {
        Seq::empty()
    } else {
        hex_of(bytes.drop_last()).push(hex_digit(bytes.last() as int / 16)).push(
            hex_digit(bytes.last() as int % 16),
        )
    }
}

/// Calls `hex::encode`, which writes each byte with two hexadecimal digits in
/// lower case.
#[verifier::external_body]
fn hex_encode(bytes: &[u8]) -> (text: String)
    ensures
        text@ == hex_of(bytes@),
{
    hex::encode(bytes)
}

/// The SHA3-256 digest of a string of bytes, as `sha3::Sha3_256` computes it.
pub uninterp spec fn sha3_256_digest(data: Seq<u8>) -> Seq<u8>;

/// Calls `sha3::Sha3_256::digest`; the digest is named `sha3_256_digest`.
#[verifier::external_body]
fn sha3_256(data: &[u8]) -> (digest: Vec<u8>)
    ensures
        digest@ == sha3_256_digest(data@),
{
    <sha3::Sha3_256 as sha3::Digest>::digest(data).to_vec()
}

/// A path with one more part: the separator stands between them, but where
/// the path is empty or ends with it already. An empty part adds nothing.
pub open spec fn joined(path: Seq<char>, part: Seq<char>, separator: char) -> Seq<char> {
    if part.len() == 0 {
        path
    } else if path.len() == 0 || path.last() == separator {
        path + part
    } else {
        path.push(separator) + part
    }
}

/// A path with more parts, in their order.
pub open spec fn joined_all(path: Seq<char>, parts: Seq<Seq<char>>, separator: char) -> Seq<char>
    decreases parts.len(),
{
    if parts.len() == 0 {
        path
    } else {
        joined_all(joined(path, parts.first(), separator), parts.drop_first(), separator)
    }
}

/// A path with more parts, the last of them first.
pub open spec fn joined_back(path: Seq<char>, parts: Seq<Seq<char>>, separator: char) -> Seq<char>
    decreases parts.len(),
{
    if parts.len() == 0 {
        path
    } else {
        joined_back(joined(path, parts.last(), separator), parts.drop_last(), separator)
    }
}

/// The pieces of a text between the occurrences of a character, where
/// `current` holds the characters of a piece that has begun before `rest`.
pub open spec fn pieces_from(current: Seq<char>, rest: Seq<char>, at: char) -> Seq<Seq<char>>
    decreases rest.len(),
{
    if rest.len() == 0 {
        seq![current]
    } else if rest.first() == at {
        seq![current] + pieces_from(Seq::empty(), rest.drop_first(), at)
    } else {
        pieces_from(current.push(rest.first()), rest.drop_first(), at)
    }
}

/// The pieces of a text between the occurrences of a character: one more
/// than there are occurrences.
pub open spec fn pieces(text: Seq<char>, at: char) -> Seq<Seq<char>> {
    pieces_from(Seq::empty(), text, at)
}

/// The segments of the path of a URL: what stands between its slashes, after
/// the first.
pub open spec fn path_segments(path: Seq<char>) -> Seq<Seq<char>> {
    if path.len() > 0 && path.first() == '/' {
        pieces(path.skip(1), '/')
    } else {
        Seq::empty()
    }
}

/// What is hashed for the name of a page's file: the query and the fragment
/// of its URL, or words that say that there is none.
pub open spec fn hashed_part(url: UrlParts) -> Seq<u8> {
    text_bytes(
        match url.query {
            Some(query) => query,
            None => "no query"@,
        },
    ) + text_bytes(
        match url.fragment {
            Some(fragment) => fragment,
            None => "no fragment"@,
        },
    )
}

/// The path of the files of a page, without their extension; none for a URL
/// without a host.
pub open spec fn page_path(root_path: Seq<char>, url: UrlParts, separator: char) -> Option<
    Seq<char>,
> {
    match url.host {
        Some(host) => Some(
            joined(
                joined_all(
                    joined_back(
                        joined(root_path, "pages"@, separator),
                        pieces(host, '.'),
                        separator,
                    ),
                    path_segments(url.path),
                    separator,
                ),
                hex_of(sha3_256_digest(hashed_part(url))),
                separator,
            ),
        ),
        None => None,
    }
}

/// The pieces of a text between the occurrences of a character.
pub fn split(text: &str, at: char) -> (parts: Vec<String>)
    ensures
        parts.deep_view() == pieces(text@, at),
{
    broadcast use vstd::string::group_string_axioms;

    let mut parts: Vec<String> = Vec::new();
    let mut current = String::new();
    assert(text@.skip(0) == text@);
    assert(parts.deep_view() + pieces_from(current@, text@, at) == pieces_from(current@, text@, at));
    for c in it: text.chars()
        invariant
            it.seq() == text@,
            pieces(text@, at) == parts.deep_view() + pieces_from(
                current@,
                text@.skip(it.index() as int),
                at,
            ),
    {
        let ghost rest = text@.skip(it.index() as int);
        let ghost before = parts.deep_view();
        proof {
            assert(rest.first() == c);
            assert(rest.drop_first() == text@.skip(it.index() + 1));
        }
        if c == at {
            let ghost after = pieces_from(Seq::empty(), rest.drop_first(), at);
            let ghost piece = current@;
            parts.push(current);
            assert(parts.deep_view() == before.push(piece));
            assert(before.push(piece) + after == before + (seq![piece] + after));
            current = String::new();
            assert(current@ == Seq::<char>::empty());
        } else {
            push_char(&mut current, c);
        }
    }
    assert(text@.skip(text@.len() as int).len() == 0);
    let ghost before = parts.deep_view();
    let ghost piece = current@;
    parts.push(current);
    assert(parts.deep_view() == before.push(piece));
    assert(before.push(piece) == before + seq![piece]);
    parts
}

/// Adds a part to a path.
pub(crate) fn join(path: &mut String, part: &str, separator: char)
    ensures
        final(path)@ == joined(old(path)@, part@, separator),
{
    if part.is_empty() {
        return ;
    }
    let so_far = to_chars(path.as_str());
    if so_far.len() > 0 && so_far[so_far.len() - 1] != separator {
        push_char(path, separator);
    }
    path.append(part);
}

/// The path of the files of a page, without their extension, with the given
/// separator between its parts. A URL without a host has none.
pub fn url_to_path_with(root_path: &str, url: &PageUrl, separator: char) -> (r: Result<
    String,
    CeridwenError,
>)
    ensures
        match r {
            Ok(path) => page_path(root_path@, url@, separator) == Some(path@),
            Err(CeridwenError::MissingHost(text)) => url@.host is None && text@ == url@.text,
            Err(_) => false,
        },
{
    let host = match url.host_str() {
        Some(host) => host,
        None => {
            return Err(CeridwenError::MissingHost(url.as_str().to_string()));
        },
    };
    let mut path = root_path.to_string();
    join(&mut path, "pages", separator);

    let domain_parts = split(host, '.');
    let mut i: usize = domain_parts.len();
    assert(domain_parts.deep_view().take(i as int) == domain_parts.deep_view());
    while i > 0
        invariant
            i <= domain_parts.len(),
            joined_back(joined(root_path@, "pages"@, separator), domain_parts.deep_view(), separator)
                == joined_back(path@, domain_parts.deep_view().take(i as int), separator),
        decreases i,
    {
        let ghost parts = domain_parts.deep_view().take(i as int);
        i -= 1;
        proof {
            assert(parts.last() == domain_parts[i as int]@);
            assert(parts.drop_last() == domain_parts.deep_view().take(i as int));
        }
        join(&mut path, domain_parts[i].as_str(), separator);
    }
    let ghost under_host = path@;

    let url_path = to_chars(url.path());
    if url_path.len() > 0 && url_path[0] == '/' {
        let rest = string_from(&url_path, 1);
        let segments = split(rest.as_str(), '/');
        let mut k: usize = 0;
        assert(segments.deep_view().skip(0) == segments.deep_view());
        while k < segments.len()
            invariant
                k <= segments.len(),
                segments.deep_view() == path_segments(url@.path),
                joined_all(under_host, path_segments(url@.path), separator) == joined_all(
                    path@,
                    segments.deep_view().skip(k as int),
                    separator,
                ),
            decreases segments.len() - k,
        {
            let ghost left = segments.deep_view().skip(k as int);
            proof {
                assert(left.first() == segments[k as int]@);
                assert(left.drop_first() == segments.deep_view().skip(k + 1));
            }
            join(&mut path, segments[k].as_str(), separator);
            k += 1;
        }
    }
    let mut hashed = bytes_of(
        match url.query() {
            Some(query) => query,
            None => "no query",
        },
    );
    let mut fragment = bytes_of(
        match url.fragment() {
            Some(fragment) => fragment,
            None => "no fragment",
        },
    );
    hashed.append(&mut fragment);
    let digest = sha3_256(hashed.as_slice());
    let name = hex_encode(digest.as_slice());
    join(&mut path, name.as_str(), separator);
    Ok(path)
}

/// The path of the files of a page, without their extension, as this
/// platform writes paths.
pub fn url_to_path(root_path: &str, url: &PageUrl) -> (r: Result<String, CeridwenError>)
    ensures
        match r {
            Ok(path) => exists|separator: char| #[trigger]
                page_path(root_path@, url@, separator) == Some(path@),
            Err(CeridwenError::MissingHost(text)) => url@.host is None && text@ == url@.text,
            Err(_) => false,
        },
{
    url_to_path_with(root_path, url, main_separator())
}

/// The path of the file that lists the words of a page.
pub fn url_to_words_path(root_path: &str, url: &PageUrl) -> (r: Result<String, CeridwenError>)
    ensures
        match r {
            Ok(path) => exists|separator: char| #[trigger]
                page_path(root_path@, url@, separator) matches Some(stem) && path@ == stem
                    + ".words"@,
            Err(CeridwenError::MissingHost(text)) => url@.host is None && text@ == url@.text,
            Err(_) => false,
        },
{
    let separator = main_separator();
    match url_to_path_with(root_path, url, separator) {
        Ok(mut path) => {
            path.append(".words");
            assert(page_path(root_path@, url@, separator) is Some);
            Ok(path)
        },
        Err(e) => Err(e),
    }
}

/// The path of the file that holds the record of a page.
pub fn url_to_page_path(root_path: &str, url: &PageUrl) -> (r: Result<String, CeridwenError>)
    ensures
        match r {
            Ok(path) => exists|separator: char| #[trigger]
                page_path(root_path@, url@, separator) matches Some(stem) && path@ == stem
                    + ".page"@,
            Err(CeridwenError::MissingHost(text)) => url@.host is None && text@ == url@.text,
            Err(_) => false,
        },
{
    let separator = main_separator();
    match url_to_path_with(root_path, url, separator) {
        Ok(mut path) => {
            path.append(".page");
            assert(page_path(root_path@, url@, separator) is Some);
            Ok(path)
        },
        Err(e) => Err(e),
    }
}

} // verus!
