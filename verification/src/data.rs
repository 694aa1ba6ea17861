//! The documents that are indexed and the records that are kept of them.

use vstd::prelude::*;
use crate::clock::Timestamp;
use crate::error::CeridwenError;
use crate::strings::push_char;

verus! {

/// What `url::Url::parse` makes of a text: the parts of the URL, or nothing
/// where the text is no URL.
pub uninterp spec fn url_parse(input: Seq<char>) -> Option<UrlParts>;

/// The parts of a parsed URL that the library reads.
pub struct UrlParts {
    /// The URL as it is written after parsing.
    pub text: Seq<char>,
    pub scheme: Seq<char>,
    pub host: Option<Seq<char>>,
    pub path: Seq<char>,
    /// What follows the `?`, where the URL has one.
    pub query: Option<Seq<char>>,
    /// What follows the `#`, where the URL has one.
    pub fragment: Option<Seq<char>>,
}

/// An absolute URL, parsed.
#[derive(Debug, Clone)]
pub struct PageUrl {
    text: String,
    scheme: String,
    host: Option<String>,
    path: String,
    query: Option<String>,
    fragment: Option<String>,
}

impl View for PageUrl {
    type V = UrlParts;

    closed spec fn view(&self) -> UrlParts {
        UrlParts {
            text: self.text@,
            scheme: self.scheme@,
            host: match self.host {
                Some(h) => Some(h@),
                None => None,
            },
            path: self.path@,
            query: match self.query {
                Some(q) => Some(q@),
                None => None,
            },
            fragment: match self.fragment {
                Some(f) => Some(f@),
                None => None,
            },
        }
    }
}

/// Calls `url::Url::parse` and copies out the serialization, the scheme, the
/// host, the path, the query and the fragment of the URL that it returns.
/// What it makes of a text is named `url_parse`.
#[verifier::external_body]
fn parse_url(input: &str) -> (r: Result<PageUrl, url::ParseError>)
    ensures
        match r {
            Ok(u) => url_parse(input@) == Some(u@),
            Err(_) => url_parse(input@) is None,
        },
{
    let u = url::Url::parse(input)?;
    Ok(
        PageUrl {
            text: u.as_str().to_string(),
            scheme: u.scheme().to_string(),
            host: u.host_str().map(|h| h.to_string()),
            path: u.path().to_string(),
            query: u.query().map(|q| q.to_string()),
            fragment: u.fragment().map(|f| f.to_string()),
        },
    )
}

impl PageUrl {
    /// Parses an absolute URL.
    pub fn parse(input: &str) -> (r: Result<PageUrl, CeridwenError>)
        ensures
            match r {
                Ok(u) => url_parse(input@) == Some(u@),
                Err(e) => url_parse(input@) is None && e is UrlParsing,
            },
    {
        match parse_url(input) {
            Ok(u) => Ok(u),
            Err(e) => Err(CeridwenError::UrlParsing(e)),
        }
    }

    /// A copy of the URL.
    pub fn duplicate(&self) -> (copy: PageUrl)
        ensures
            copy@ == self@,
    {
        PageUrl {
            text: self.text.clone(),
            scheme: self.scheme.clone(),
            host: match &self.host {
                Some(host) => Some(host.clone()),
                None => None,
            },
            path: self.path.clone(),
            query: match &self.query {
                Some(query) => Some(query.clone()),
                None => None,
            },
            fragment: match &self.fragment {
                Some(fragment) => Some(fragment.clone()),
                None => None,
            },
        }
    }

    /// The URL as text.
    pub fn as_str(&self) -> (s: &str)
        ensures
            s@ == self@.text,
    {
        self.text.as_str()
    }

    /// The scheme, without the colon.
    pub fn scheme(&self) -> (s: &str)
        ensures
            s@ == self@.scheme,
    {
        self.scheme.as_str()
    }

    /// The host, where the URL has one.
    pub fn host_str(&self) -> (h: Option<&str>)
        ensures
            match h {
                Some(s) => self@.host == Some(s@),
                None => self@.host is None,
            },
    {
        match &self.host {
            Some(h) => Some(h.as_str()),
            None => None,
        }
    }

    /// The path, which starts with `/` where the URL has a host.
    pub fn path(&self) -> (s: &str)
        ensures
            s@ == self@.path,
    {
        self.path.as_str()
    }

    /// The query, where the URL has one.
    pub fn query(&self) -> (q: Option<&str>)
        ensures
            match q {
                Some(s) => self@.query == Some(s@),
                None => self@.query is None,
            },
    {
        match &self.query {
            Some(q) => Some(q.as_str()),
            None => None,
        }
    }

    /// The fragment, where the URL has one.
    pub fn fragment(&self) -> (f: Option<&str>)
        ensures
            match f {
                Some(s) => self@.fragment == Some(s@),
                None => self@.fragment is None,
            },
    {
        match &self.fragment {
            Some(f) => Some(f.as_str()),
            None => None,
        }
    }
}

/// A page on the internet that is to be indexed.
#[derive(Debug)]
pub struct Page {
    pub url: PageUrl,
    pub title: String,
    /// The text of the page, free of the markup of its source.
    pub content: String,
}

/// A page as a value of specifications: its URL as text, its title and its
/// text.
pub struct PageView {
    pub url: Seq<char>,
    pub title: Seq<char>,
    pub content: Seq<char>,
}

impl View for Page {
    type V = PageView;

    open spec fn view(&self) -> PageView {
        PageView { url: self.url@.text, title: self.title@, content: self.content@ }
    }
}

/// What is kept of an indexed page, as a value of specifications.
pub struct Record {
    pub url: Seq<char>,
    pub title: Seq<char>,
    pub description: Seq<char>,
    pub last_index: Timestamp,
}

/// What is kept of an indexed page, and what a search returns for it.
#[derive(Debug, Clone, PartialEq)]
pub struct SearchResult {
    pub url: String,
    pub title: String,
    /// The first 250 characters of the page's text.
    pub description: String,
    /// When the page was last indexed.
    pub last_index: Timestamp,
}

impl DeepView for SearchResult {
    type V = Record;

    open spec fn deep_view(&self) -> Record {
        Record {
            url: self.url@,
            title: self.title@,
            description: self.description@,
            last_index: self.last_index,
        }
    }
}

/// The number of characters of a page's text that are kept as its description.
pub const DESCRIPTION_LENGTH: usize = 250;

/// The beginning of a text: its first `DESCRIPTION_LENGTH` characters, or all
/// of it where it has fewer.
pub open spec fn description_of(content: Seq<char>) -> Seq<char> {
    if content.len() <= DESCRIPTION_LENGTH {
        content
    } else {
        content.take(DESCRIPTION_LENGTH as int)
    }
}

/// The record of a page that is indexed at the instant `now`.
pub open spec fn record_for(page: PageView, now: Timestamp) -> Record {
    Record {
        url: page.url,
        title: page.title,
        description: description_of(page.content),
        last_index: now,
    }
}

/// The JSON text that `serde_json::to_vec` writes for a record: an object with
/// the members `url`, `title`, `description` and `last_index`. There is none
/// where the instant is one that the `time` crate cannot hold.
pub uninterp spec fn record_json(record: Record) -> Option<Seq<u8>>;

/// The record that `serde_json::from_slice` reads from a JSON text, where the
/// text is an object with the members of a record.
pub uninterp spec fn record_of_json(bytes: Seq<u8>) -> Option<Record>;

/// Whether a record can be kept in the page store: it can be written as
/// JSON, and what is written is read back as the same record.
pub open spec fn can_be_kept(record: Record) -> bool {
    record_json(record) is Some && record_of_json(record_json(record)->0) == Some(record)
}

/// Builds the JSON object of a record and calls `serde_json::to_vec` on it.
/// The instant is handed over as a `time::OffsetDateTime`, which is written
/// the way the `time` crate serialises it. What comes out is named
/// `record_json`.
#[verifier::external_body]
fn encode_record(record: &SearchResult) -> (bytes: Option<Vec<u8>>)
    ensures
        match bytes {
            Some(bytes) => record_json(record.deep_view()) == Some(bytes@),
            None => record_json(record.deep_view()) is None,
        },
{
    let at = time::OffsetDateTime::from_unix_timestamp_nanos(record.last_index.unix_nanos).ok()?;
    let members = [
        ("url", serde_json::Value::from(record.url.as_str())),
        ("title", serde_json::Value::from(record.title.as_str())),
        ("description", serde_json::Value::from(record.description.as_str())),
        ("last_index", serde_json::to_value(at).ok()?),
    ];
    serde_json::to_vec(&serde_json::Value::from_iter(members)).ok()
}

/// Calls `serde_json::from_slice` and takes the members of a record out of
/// the JSON value that it returns. What comes out is named `record_of_json`.
#[verifier::external_body]
fn decode_record(bytes: &[u8]) -> (record: Option<SearchResult>)
    ensures
        record.deep_view() == record_of_json(bytes@),
{
    let value: serde_json::Value = serde_json::from_slice(bytes).ok()?;
    let at: time::OffsetDateTime = serde_json::from_value(value.get("last_index")?.clone()).ok()?;
    Some(
        SearchResult {
            url: value.get("url")?.as_str()?.to_string(),
            title: value.get("title")?.as_str()?.to_string(),
            description: value.get("description")?.as_str()?.to_string(),
            last_index: Timestamp { unix_nanos: at.unix_timestamp_nanos() },
        },
    )
}

impl SearchResult {
    /// The record of a page that is indexed at the instant `now`.
    pub fn from_page(page: &Page, now: Timestamp) -> (record: SearchResult)
        ensures
            record.deep_view() == record_for(page@, now),
    {
        broadcast use vstd::string::group_string_axioms;

        let mut description = String::new();
        let mut taken: usize = 0;
        for c in it: page.content.as_str().chars()
            invariant
                it.seq() == page.content@,
                taken <= DESCRIPTION_LENGTH,
                taken <= it.index(),
                taken < DESCRIPTION_LENGTH ==> taken == it.index(),
                description@ == page.content@.take(taken as int),
        {
            if taken < DESCRIPTION_LENGTH {
                assert(page.content@.take(taken + 1) == page.content@.take(taken as int).push(c));
                push_char(&mut description, c);
                taken += 1;
            }
        }
        assert(page.content@.take(page.content@.len() as int) == page.content@);
        SearchResult {
            url: page.url.as_str().to_string(),
            title: page.title.clone(),
            description,
            last_index: now,
        }
    }

    /// The record as the bytes that are kept in the page store. There are
    /// none where the record cannot be kept: see `can_be_kept`.
    pub fn to_bytes(&self) -> (bytes: Option<Vec<u8>>)
        ensures
            match bytes {
                Some(bytes) => can_be_kept(self.deep_view()) && record_json(self.deep_view())
                    == Some(bytes@),
                None => !can_be_kept(self.deep_view()),
            },
    {
        let bytes = match encode_record(self) {
            Some(bytes) => bytes,
            None => {
                return None;
            },
        };
        match decode_record(bytes.as_slice()) {
            Some(back) => {
                if back.url == self.url && back.title == self.title && back.description
                    == self.description && back.last_index == self.last_index {
                    Some(bytes)
                } else {
                    None
                }
            },
            None => None,
        }
    }

    /// The record that bytes of the page store hold, where they hold one.
    pub fn from_bytes(bytes: &[u8]) -> (record: Option<SearchResult>)
        ensures
            record.deep_view() == record_of_json(bytes@),
    {
        decode_record(bytes)
    }
}

} // verus!
