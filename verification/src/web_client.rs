//! The decisions of the fetch client: what a status means, and how a
//! download to a file goes on chunk by chunk.

use vstd::prelude::*;
use crate::error::CeridwenError;

verus! {

/// The user agent that the crawler names itself with.
pub const USER_AGENT: &'static str = "ceridwen-crawler";

/// The number of bytes after which the progress of a download is reported
/// where its length is not known.
pub const REPORT_EVERY: u64 = 100_000_000;

/// Whether a status is one of success: 200 to 299.
pub open spec fn is_success(status: u16) -> bool {
    200 <= status < 300
}

/// What the status of a response means for the request: 404 is a page that
/// was not found, any other status that is no success is an error of the
/// request.
pub fn check_status(status: u16, url: &str) -> (r: Result<(), CeridwenError>)
    ensures
        match r {
            Ok(()) => is_success(status),
            Err(CeridwenError::PageNotFound(page)) => status == 404 && page@ == url@,
            Err(CeridwenError::Request(code)) => code == status && status != 404 && !is_success(
                status,
            ),
            Err(_) => false,
        },
{
    if status == 404 {
        Err(CeridwenError::PageNotFound(url.to_string()))
    } else if !(200 <= status && status < 300) {
        Err(CeridwenError::Request(status))
    } else {
        Ok(())
    }
}

/// How far a download has come.
#[derive(Debug, Clone, Copy, PartialEq, Eq, Structural)]
pub struct Download {
    /// The length of the whole, where the server has named it.
    pub total: Option<u64>,
    /// The bytes written so far.
    pub downloaded: u64,
    /// The bytes that were written when the progress was last reported.
    pub reported: u64,
}

/// Whether the progress of a download is to be reported: more than one
/// percent of the whole was written since the last report, or more than
/// `REPORT_EVERY` bytes where the whole is not known.
pub open spec fn is_report_due(total: Option<u64>, downloaded: u64, reported: u64) -> bool {
    match total {
        Some(total) => (downloaded - reported) * 100 > total,
        None => downloaded - reported > REPORT_EVERY,
    }
}

/// The sum of two numbers of bytes, or the highest number where the sum is
/// higher.
pub open spec fn capped(a: u64, b: u64) -> u64 {
    if a + b > u64::MAX {
        u64::MAX
    } else {
        (a + b) as u64
    }
}

impl Download {
    /// A download of which nothing is written yet.
    pub fn new(total: Option<u64>) -> (download: Download)
        ensures
            download == (Download { total, downloaded: 0, reported: 0 }),
    {
        Download { total, downloaded: 0, reported: 0 }
    }

    /// Takes note of a chunk of `chunk` bytes of which `written` were
    /// written to the file at `path`, and says whether the progress is to be
    /// reported now.
    ///
    /// A chunk that was not written whole is an incomplete write, at the
    /// number of bytes that were written in all.
    pub fn record_chunk(&mut self, path: &str, chunk: u64, written: u64) -> (r: Result<
        bool,
        CeridwenError,
    >)
        ensures
            final(self).total == old(self).total,
            match r {
                Ok(report) => {
                    &&& written == chunk
                    &&& final(self).downloaded == capped(old(self).downloaded, chunk)
                    &&& report == is_report_due(
                        old(self).total,
                        final(self).downloaded,
                        old(self).reported,
                    )
                    &&& final(self).reported == if report {
                        final(self).downloaded
                    } else {
                        old(self).reported
                    }
                },
                Err(CeridwenError::IncompleteWrite(file, at)) => {
                    &&& written != chunk
                    &&& file@ == path@
                    &&& at == capped(old(self).downloaded, written)
                    &&& *final(self) == *old(self)
                },
                Err(_) => false,
            },
    {
        if written != chunk {
            return Err(
                CeridwenError::IncompleteWrite(
                    path.to_string(),
                    self.downloaded.saturating_add(written),
                ),
            );
        }
        self.downloaded = self.downloaded.saturating_add(chunk);
        let since = if self.downloaded >= self.reported {
            self.downloaded - self.reported
        } else {
            0
        };
        let report = match self.total {
            Some(total) => {
                let since: u128 = since as u128;
                since * 100 > total as u128
            },
            None => since > REPORT_EVERY,
        };
        if report {
            self.reported = self.downloaded;
        }
        Ok(report)
    }
}

} // verus!
