use std::path::PathBuf;
use videre_core::basemap::{
    archive_path, range_header, resumes, status_of, BasemapStatus, Download, DownloadError,
};
use videre_core::disk::{journal_usage, library_usage, usage_report, Measured, Usage};
use videre_core::fix_dates_target::target_modified_at;

fn row(label: &'static str, bytes: u64) -> Usage {
    Usage {
        label,
        path: PathBuf::from(format!("/x/{label}")),
        bytes,
        files: 1,
        rebuildable: false,
    }
}

#[test]
fn usage_lists_what_takes_space_largest_first() {
    let rows = vec![
        row("database", 10),
        row("embeddings", 0),
        row("thumbnails", 30),
        row("locks", 10),
        row("place names (shared)", 20),
    ];
    let out = usage_report(rows);
    assert_eq!(
        out.iter().map(|u| u.label).collect::<Vec<_>>(),
        vec!["thumbnails", "place names (shared)", "database", "locks"]
    );
}

#[test]
fn the_journal_counts_both_files_when_they_hold_anything() {
    let u = journal_usage((3, 1), (4, 1), PathBuf::from("/db-wal")).unwrap();
    assert_eq!((u.label, u.bytes, u.files, u.rebuildable), ("database journal", 7, 2, true));
    assert!(journal_usage((0, 1), (0, 1), PathBuf::from("/db-wal")).is_none());
}

#[test]
fn archive_path_prefers_an_existing_per_library_override() {
    assert_eq!(
        archive_path("/cache/geo", "/lib/.videre", true),
        "/lib/.videre/basemap/basemap.pmtiles"
    );
    assert_eq!(
        archive_path("/cache/geo", "/lib/.videre", false),
        "/cache/geo/basemap/basemap.pmtiles"
    );
}

#[test]
fn status_reports_absent_partial_and_ready() {
    assert_eq!(status_of(None, None), BasemapStatus::Absent);
    assert_eq!(status_of(Some(3), Some(9)), BasemapStatus::Partial { bytes: 3 });
    assert_eq!(status_of(None, Some(9)), BasemapStatus::Ready { bytes: 9 });
}

#[test]
fn a_download_resumes_only_when_the_server_honors_the_range() {
    assert_eq!(range_header(42), "bytes=42-");
    let d = Download::start(206, 10, Some(90), "u").unwrap();
    assert_eq!((d.resume, d.total, d.done), (true, 100, 10));
    let d = Download::start(200, 10, Some(90), "u").unwrap();
    assert_eq!((d.resume, d.total, d.done), (false, 90, 0));
    assert_eq!(
        Download::start(206, 0, None, "http://h/b").unwrap_err().message(),
        "the basemap response carried no content-length (http://h/b)"
    );
}

#[test]
fn a_short_download_is_an_error() {
    let mut d = Download::start(200, 0, Some(10), "u").unwrap();
    assert_eq!(d.advance(4), (4, 10));
    assert_eq!(
        d.finish().unwrap_err(),
        DownloadError::EndedEarly(4, 10)
    );
    assert_eq!(
        DownloadError::EndedEarly(4, 10).message(),
        "the basemap download ended early: 4 of 10 bytes"
    );
    assert_eq!(d.advance(8), (12, 12));
    assert!(d.finish().is_ok());
}

#[test]
fn target_is_none_for_garbage_and_some_for_a_valid_exif_date() {
    assert_eq!(target_modified_at("not-a-date"), None);
    assert_eq!(target_modified_at(""), None);
    let t = target_modified_at("2021-07-04T15:30:00");
    assert!(t.is_some() && t.unwrap().starts_with("2021-07-04T15:30:00"));
}

#[test]
fn target_is_none_for_a_wrong_shape_that_would_otherwise_parse() {
    assert_eq!(target_modified_at("2021-07-04T15:30:00+02:00"), None);
}

#[test]
fn target_is_none_for_an_impossible_calendar_date() {
    assert_eq!(target_modified_at("2021-02-30T10:00:00"), None);
    assert_eq!(target_modified_at("2021-07-04 15:30:00"), None);
}

fn is_offset(s: &str) -> bool {
    let b = s.as_bytes();
    b.len() == 6
        && (b[0] == b'+' || b[0] == b'-')
        && b[1].is_ascii_digit()
        && b[2].is_ascii_digit()
        && b[3] == b':'
        && b[4].is_ascii_digit()
        && b[5].is_ascii_digit()
}

#[test]
fn a_target_is_the_wall_clock_followed_by_the_local_offset() {
    for text in ["2021-07-04T15:30:00", "2000-02-29T00:00:00", "0999-12-31T23:59:59"] {
        if let Some(t) = target_modified_at(text) {
            assert_eq!(t.len(), 25);
            assert_eq!(&t[..19], text);
            assert!(is_offset(&t[19..]), "{t}");
        }
    }
    assert_eq!(target_modified_at("2021-13-01T00:00:00"), None);
    assert_eq!(target_modified_at("2021-02-29T00:00:00"), None);
    assert_eq!(target_modified_at("2021-07-04T24:00:00"), None);
    assert_eq!(target_modified_at("2021-07-04T12:60:00"), None);
}

#[test]
fn a_leap_second_is_kept_as_second_sixty() {
    if let Some(t) = target_modified_at("2016-12-31T23:59:60") {
        assert_eq!(&t[..19], "2016-12-31T23:59:60");
        assert!(is_offset(&t[19..]), "{t}");
    }
    assert_eq!(target_modified_at("2016-12-31T23:59:61"), None);
}

fn measured(path: &str, bytes: u64, files: u64) -> Measured {
    Measured {
        path: PathBuf::from(path),
        bytes,
        files,
    }
}

#[test]
fn library_usage_labels_each_store_and_puts_the_largest_first() {
    let rows = library_usage(
        measured("/lib/videre.db", 16, 1),
        measured("/lib/videre.db-wal", 8, 1),
        measured("/lib/videre.db-shm", 4, 1),
        measured("/lib/embeddings", 32, 2),
        measured("/cache/thumbnails", 64, 3),
        measured("/cache/geo", 0, 0),
        measured("/lib/locks", 1, 1),
    );
    let seen: Vec<(&str, u64, u64, bool)> = rows
        .iter()
        .map(|u| (u.label, u.bytes, u.files, u.rebuildable))
        .collect();
    assert_eq!(
        seen,
        vec![
            ("thumbnails", 64, 3, true),
            ("embeddings", 32, 2, false),
            ("database", 16, 1, false),
            ("database journal", 12, 2, true),
            ("locks", 1, 1, true),
        ]
    );
    assert_eq!(rows[3].path, PathBuf::from("/lib/videre.db-wal"));
}

#[test]
fn a_restarted_download_ignores_what_was_on_disk() {
    assert!(resumes(206, 1));
    assert!(!resumes(206, 0));
    assert!(!resumes(200, 5));
    let d = Download::start(200, u64::MAX, Some(10), "u").unwrap();
    assert!(!d.resume);
    assert_eq!((d.total, d.done), (10, 0));
}
