//! The one error type of the library.

use vstd::prelude::*;
use crate::strings::str_eq;

verus! {

/// `url::ParseError`, which is carried along and never looked into.
#[verifier::external_type_specification]
#[verifier::external_body]
pub struct ExUrlParseError(url::ParseError);

/// `quick_xml::escape::EscapeError`, which is carried along and never looked
/// into.
#[verifier::external_type_specification]
#[verifier::external_body]
pub struct ExEscapeError(quick_xml::escape::EscapeError);

/// `time::error::Parse`, which is carried along and never looked into.
#[verifier::external_type_specification]
#[verifier::external_body]
pub struct ExTimeParseError(time::error::Parse);

/// `rss::Error`, which is carried along and never looked into.
#[verifier::external_type_specification]
#[verifier::external_body]
pub struct ExRssError(rss::Error);

/// Everything that can go wrong in the library.
#[derive(Debug)]
pub enum CeridwenError {
    /// A record of the index does not have the shape that it was written in.
    BadIndexRecord,
    /// A URL has no host.
    MissingHost(String),
    /// A page was not found (404).
    PageNotFound(String),
    /// An ingester has a type that is not known.
    UnknownIngester(String),
    /// An ingester that needs a base URL has none.
    MissingBaseUrl,
    /// The Wikipedia dump feed names no date.
    WikipediaMissingDate,
    /// The page reader met an event that its state does not allow.
    InvalidState(String),
    /// An HTTP request was answered with a status that is no success.
    Request(u16),
    /// Fewer bytes were written to a file than were handed over.
    IncompleteWrite(String, u64),
    /// A text that should be a number is none, or one that does not fit.
    ParseInt(String),
    /// Input could not be read as text.
    IOError(String),
    /// A URL could not be parsed.
    UrlParsing(url::ParseError),
    /// A store of the index failed.
    SledError(sled::Error),
    /// The text of an XML element is not UTF-8, or it holds an escape that
    /// is none.
    InvalidXML(Option<quick_xml::escape::EscapeError>),
    /// A date could not be parsed.
    TimeParsing(time::error::Parse),
    /// An instant could not be written as a date.
    TimeFormatting,
    /// A feed could not be parsed.
    RSSError(rss::Error),
}

/// Two errors are taken for the same where they are of the same kind; two
/// pages that were not found have to be the same page as well.
impl PartialEq for CeridwenError {
    fn eq(&self, other: &Self) -> (same: bool) {
        match self {
            CeridwenError::PageNotFound(a) => match other {
                CeridwenError::PageNotFound(b) => str_eq(a.as_str(), b.as_str()),
                _ => false,
            },
            CeridwenError::BadIndexRecord => match other {
                CeridwenError::BadIndexRecord => true,
                _ => false,
            },
            CeridwenError::MissingHost(_) => match other {
                CeridwenError::MissingHost(_) => true,
                _ => false,
            },
            CeridwenError::UnknownIngester(_) => match other {
                CeridwenError::UnknownIngester(_) => true,
                _ => false,
            },
            CeridwenError::MissingBaseUrl => match other {
                CeridwenError::MissingBaseUrl => true,
                _ => false,
            },
            CeridwenError::WikipediaMissingDate => match other {
                CeridwenError::WikipediaMissingDate => true,
                _ => false,
            },
            CeridwenError::InvalidState(_) => match other {
                CeridwenError::InvalidState(_) => true,
                _ => false,
            },
            CeridwenError::Request(_) => match other {
                CeridwenError::Request(_) => true,
                _ => false,
            },
            CeridwenError::IncompleteWrite(_, _) => match other {
                CeridwenError::IncompleteWrite(_, _) => true,
                _ => false,
            },
            CeridwenError::ParseInt(_) => match other {
                CeridwenError::ParseInt(_) => true,
                _ => false,
            },
            CeridwenError::IOError(_) => match other {
                CeridwenError::IOError(_) => true,
                _ => false,
            },
            CeridwenError::UrlParsing(_) => match other {
                CeridwenError::UrlParsing(_) => true,
                _ => false,
            },
            CeridwenError::SledError(_) => match other {
                CeridwenError::SledError(_) => true,
                _ => false,
            },
            CeridwenError::InvalidXML(_) => match other {
                CeridwenError::InvalidXML(_) => true,
                _ => false,
            },
            CeridwenError::TimeParsing(_) => match other {
                CeridwenError::TimeParsing(_) => true,
                _ => false,
            },
            CeridwenError::TimeFormatting => match other {
                CeridwenError::TimeFormatting => true,
                _ => false,
            },
            CeridwenError::RSSError(_) => match other {
                CeridwenError::RSSError(_) => true,
                _ => false,
            },
        }
    }
}

impl vstd::std_specs::cmp::PartialEqSpecImpl for CeridwenError {
    open spec fn obeys_eq_spec() -> bool {
        true
    }

    open spec fn eq_spec(&self, other: &Self) -> bool {
        match self {
            CeridwenError::PageNotFound(a) => match other {
                CeridwenError::PageNotFound(b) => a@ == b@,
                _ => false,
            },
            CeridwenError::BadIndexRecord => match other {
                CeridwenError::BadIndexRecord => true,
                _ => false,
            },
            CeridwenError::MissingHost(_) => match other {
                CeridwenError::MissingHost(_) => true,
                _ => false,
            },
            CeridwenError::UnknownIngester(_) => match other {
                CeridwenError::UnknownIngester(_) => true,
                _ => false,
            },
            CeridwenError::MissingBaseUrl => match other {
                CeridwenError::MissingBaseUrl => true,
                _ => false,
            },
            CeridwenError::WikipediaMissingDate => match other {
                CeridwenError::WikipediaMissingDate => true,
                _ => false,
            },
            CeridwenError::InvalidState(_) => match other {
                CeridwenError::InvalidState(_) => true,
                _ => false,
            },
            CeridwenError::Request(_) => match other {
                CeridwenError::Request(_) => true,
                _ => false,
            },
            CeridwenError::IncompleteWrite(_, _) => match other {
                CeridwenError::IncompleteWrite(_, _) => true,
                _ => false,
            },
            CeridwenError::ParseInt(_) => match other {
                CeridwenError::ParseInt(_) => true,
                _ => false,
            },
            CeridwenError::IOError(_) => match other {
                CeridwenError::IOError(_) => true,
                _ => false,
            },
            CeridwenError::UrlParsing(_) => match other {
                CeridwenError::UrlParsing(_) => true,
                _ => false,
            },
            CeridwenError::SledError(_) => match other {
                CeridwenError::SledError(_) => true,
                _ => false,
            },
            CeridwenError::InvalidXML(_) => match other {
                CeridwenError::InvalidXML(_) => true,
                _ => false,
            },
            CeridwenError::TimeParsing(_) => match other {
                CeridwenError::TimeParsing(_) => true,
                _ => false,
            },
            CeridwenError::TimeFormatting => match other {
                CeridwenError::TimeFormatting => true,
                _ => false,
            },
            CeridwenError::RSSError(_) => match other {
                CeridwenError::RSSError(_) => true,
                _ => false,
            },
        }
    }
}

} // verus!
