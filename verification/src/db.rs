//! Change detection over the stored file rows.

use vstd::prelude::*;

verus! {

/// The stored facts change-detection needs about one row, so scan and watch can
/// decide whether to skip a file without opening it.
#[derive(Clone, Debug)]
pub struct RowSig {
    pub size_bytes: u64,
    pub modified_at: Option<String>,
    pub has_mime: bool,
    pub has_phash: bool,
}

/// The row is unchanged (same size, and a stored mtime equal to a known
/// current one) and complete (a known mime, and a phash when asked for).
pub open spec fn row_is_current(
    sig: RowSig,
    cur_size: u64,
    cur_mtime: Option<Seq<char>>,
    want_similar: bool,
) -> bool {
    &&& sig.has_mime
    &&& (!want_similar || sig.has_phash)
    &&& sig.size_bytes == cur_size
    &&& cur_mtime is Some
    &&& sig.modified_at is Some
    &&& sig.modified_at->0@ == cur_mtime->0
}

/// The view of an optional string slice.
pub open spec fn opt_str_view(s: Option<&str>) -> Option<Seq<char>> {
    match s {
        Some(s) => Some(s@),
        None => None,
    }
}

/// True when the stored row is current for the requested work, so the file can
/// be skipped without reading it: unchanged (same size and mtime) AND complete
/// (a known mime, and a phash when `--similar` needs one). A file the walk sees
/// but cannot stat, or a row with no stored mtime, is never current.
pub fn is_current(sig: &RowSig, cur_size: u64, cur_mtime: Option<&str>, want_similar: bool) -> (r:
    bool)
    ensures
        r == row_is_current(*sig, cur_size, opt_str_view(cur_mtime), want_similar),
{
    if !sig.has_mime || (want_similar && !sig.has_phash) || sig.size_bytes != cur_size {
        return false;
    }
    match (cur_mtime, &sig.modified_at) {
        (Some(cur), Some(stored)) => crate::text::str_equal(stored.as_str(), cur),
        _ => false,
    }
}

/// What `chrono` writes for the UTC moment `secs` seconds and `nanos`
/// nanoseconds after the Unix epoch, with `to_rfc3339`; `None` when it
/// names no moment chrono can hold.
pub uninterp spec fn utc_rfc3339_of(secs: i64, nanos: u32) -> Option<Seq<char>>;

/// `chrono::DateTime::<Utc>::from_timestamp(secs, nanos)` then `to_rfc3339`.
/// Claimed: the result is `utc_rfc3339_of` of the arguments; a moment from
/// the epoch through the end of year 9999 with fewer than a full second of
/// nanoseconds is one chrono holds; and every text ends with the UTC offset
/// `+00:00`, which for such a moment with no fraction of a second comes
/// right after the 19 characters `YYYY-MM-DDTHH:MM:SS`.
#[verifier::external_body]
fn utc_rfc3339(secs: i64, nanos: u32) -> (r: Option<String>)
    ensures
        crate::error_log::opt_view(r) == utc_rfc3339_of(secs, nanos),
        0 <= secs <= 253_402_300_799 && nanos < 1_000_000_000 ==> r is Some,
        r matches Some(s) ==> s@.len() >= 6 && s@.skip(s@.len() - 6) == "+00:00"@,
        r matches Some(s) ==> (0 <= secs <= 253_402_300_799 && nanos == 0 ==> s@.len() == 25),
{
    chrono::DateTime::<chrono::Utc>::from_timestamp(secs, nanos).map(|d| d.to_rfc3339())
}

/// The stored form of a file's modification time, given as whole seconds
/// since the Unix epoch (negative before it) and the nanoseconds past them:
/// the UTC moment written as rfc3339. A time taken when a file was scanned
/// and the same time read again later give the same text, so stored and
/// current times compare as equal strings.
pub fn mtime_iso(secs: i64, nanos: u32) -> (r: Option<String>)
    ensures
        crate::error_log::opt_view(r) == utc_rfc3339_of(secs, nanos),
        0 <= secs <= 253_402_300_799 && nanos < 1_000_000_000 ==> r is Some,
        r matches Some(s) ==> s@.len() >= 6 && s@.skip(s@.len() - 6) == "+00:00"@,
{
    utc_rfc3339(secs, nanos)
}

} // verus!
