//! The offline basemap archive: where it lives, and the decisions of
//! downloading it once, resumably, with its length checked.

use vstd::prelude::*;
use crate::text::{owned, decimal, with_unsigned};
use crate::embeddings_db::{joined, join_path};

verus! {

/// The pinned basemap build: a world vector archive, zooms 0 through 8,
/// attached as a release asset of the project.
pub const BASEMAP_URL: &'static str =
    "https://github.com/erhangundogan/videre/releases/download/basemap-v1/world-z0-8.pmtiles";

/// The archive under a directory: `<dir>/basemap/basemap.pmtiles`.
pub open spec fn archive_under(dir: Seq<char>) -> Seq<char> {
    joined(joined(dir, "basemap"@), "basemap.pmtiles"@)
}

/// The archive path for one library: the per-library override under the
/// state directory when it exists, else the machine-shared archive under
/// the geo cache.
pub fn archive_path(geo: &str, state_dir: &str, override_exists: bool) -> (r: String)
    ensures
        r@ == if override_exists {
            archive_under(state_dir@)
        } else {
            archive_under(geo@)
        },
{
    let dir = if override_exists {
        state_dir
    } else {
        geo
    };
    let b = join_path(dir, "basemap");
    join_path(b.as_str(), "basemap.pmtiles")
}

/// The download state of the archive. `Partial` means a `.part` sibling
/// exists from an interrupted download and the next attempt resumes it.
#[derive(Debug, Clone, Copy, PartialEq, Eq, Structural)]
pub enum BasemapStatus {
    Absent,
    Partial { bytes: u64 },
    Ready { bytes: u64 },
}

/// The status from what is on disk: the `.part` file's length if there is
/// one, else the archive's length if there is one.
pub fn status_of(part_len: Option<u64>, archive_len: Option<u64>) -> (r: BasemapStatus)
    ensures
        r == match (part_len, archive_len) {
            (Some(b), _) => BasemapStatus::Partial { bytes: b },
            (None, Some(b)) => BasemapStatus::Ready { bytes: b },
            (None, None) => BasemapStatus::Absent,
        },
{
    match (part_len, archive_len) {
        (Some(b), _) => BasemapStatus::Partial { bytes: b },
        (None, Some(b)) => BasemapStatus::Ready { bytes: b },
        (None, None) => BasemapStatus::Absent,
    }
}

/// The `Range` header that asks for the rest after `partial` bytes.
pub fn range_header(partial: u64) -> (r: String)
    ensures
        r@ == "bytes="@ + decimal(partial as nat) + "-"@,
{
    let mut s = with_unsigned("bytes=", partial);
    s.append("-");
    s
}

/// One download in progress: how much a resumed `.part` file already held,
/// whether the server honored the range, the full length expected and the
/// bytes on disk so far.
#[derive(Debug, Clone, Copy, PartialEq, Eq, Structural)]
pub struct Download {
    pub partial: u64,
    pub resume: bool,
    pub total: u64,
    pub done: u64,
}

/// Why a download could not go on.
#[derive(Debug, Clone, PartialEq, Eq)]
pub enum DownloadError {
    /// The response carried no usable content length; holds the URL.
    NoContentLength(String),
    /// The stream ended before the expected length: bytes done, bytes
    /// expected.
    EndedEarly(u64, u64),
}

impl DownloadError {
    /// The message a reader sees.
    pub fn message(&self) -> (r: String)
        ensures
            r@ == match self {
                DownloadError::NoContentLength(url) => "the basemap response carried no content-length ("@
                    + url@ + ")"@,
                DownloadError::EndedEarly(done, total) => "the basemap download ended early: "@
                    + decimal(*done as nat) + " of "@ + decimal(*total as nat) + " bytes"@,
            },
    {
        match self {
            DownloadError::NoContentLength(url) => {
                let mut m = owned("the basemap response carried no content-length (");
                m.append(url.as_str());
                m.append(")");
                m
            },
            DownloadError::EndedEarly(done, total) => {
                let mut m = with_unsigned("the basemap download ended early: ", *done);
                let t = with_unsigned(" of ", *total);
                m.append(t.as_str());
                m.append(" bytes");
                m
            },
        }
    }
}

/// Whether a response resumes the `.part` file: only when the server
/// answered the range (status 206) and something was already on disk. A
/// server that ignored the range restarts the download from zero.
pub fn resumes(status: u16, partial: u64) -> (r: bool)
    ensures
        r == (status == 206 && partial > 0),
{
    status == 206 && partial > 0
}

impl Download {
    /// The download a response starts: it resumes only when the server
    /// answered the range (status 206) and something was already on disk;
    /// the expected length is the response's plus what is kept.
    pub fn start(status: u16, partial: u64, content_length: Option<u64>, url: &str) -> (r: Result<
        Download,
        DownloadError,
    >)
        requires
            content_length matches Some(len) ==> (status == 206 && partial > 0 ==> len + partial
                <= u64::MAX),
        ensures
            match content_length {
                None => r matches Err(DownloadError::NoContentLength(u)) && u@ == url@,
                Some(len) => r matches Ok(d) && d.resume == (status == 206 && partial > 0)
                    && d.partial == partial && d.total == len + (if d.resume {
                    partial
                } else {
                    0
                }) && d.done == (if d.resume {
                    partial
                } else {
                    0
                }),
            },
    {
        let resume = resumes(status, partial);
        match content_length {
            None => Err(DownloadError::NoContentLength(owned(url))),
            Some(len) => {
                let kept = if resume {
                    partial
                } else {
                    0
                };
                Ok(Download { partial, resume, total: len + kept, done: kept })
            },
        }
    }

    /// Count `n` more bytes written, and give what progress reports: bytes
    /// done, and the total, never below what is done.
    pub fn advance(&mut self, n: u64) -> (r: (u64, u64))
        requires
            old(self).done + n <= u64::MAX,
        ensures
            final(self).done == old(self).done + n,
            final(self).partial == old(self).partial,
            final(self).resume == old(self).resume,
            final(self).total == old(self).total,
            r.0 == final(self).done,
            r.1 == if final(self).done >= final(self).total {
                final(self).done
            } else {
                final(self).total
            },
    {
        self.done = self.done + n;
        let shown = if self.done >= self.total {
            self.done
        } else {
            self.total
        };
        (self.done, shown)
    }

    /// Whether the stream delivered everything expected.
    pub fn finish(&self) -> (r: Result<(), DownloadError>)
        ensures
            r is Ok <==> self.done >= self.total,
            r matches Err(e) ==> e == DownloadError::EndedEarly(self.done, self.total),
    {
        if self.done < self.total {
            Err(DownloadError::EndedEarly(self.done, self.total))
        } else {
            Ok(())
        }
    }
}

} // verus!
