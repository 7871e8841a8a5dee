use videre_core::db::{is_current, mtime_iso, RowSig};
use videre_core::classify::non_video_hashes;
use videre_core::face_learning::training::{pair_identity_keys, sort_exclusions, TrainingExclusion};
use videre_core::disk::human_bytes;
use videre_core::embeddings::{is_video_ext, resolve_model_id_in, DEFAULT_MODEL_ID};
use videre_core::embeddings_db::{
    db_path_in, join_path, model_from_file_name, model_from_slug, model_slug, models_in_listing,
};
use videre_core::error_kind::ErrorKind;
use videre_core::face_db::{faces_ddl_for, migration_plan, person_migration_plan, select_unscanned};

#[test]
fn is_current_only_when_unchanged_and_complete() {
    let base = RowSig {
        size_bytes: 10,
        modified_at: Some("2024-01-01T00:00:00+00:00".to_string()),
        has_mime: true,
        has_phash: false,
    };
    let m = base.modified_at.as_deref();
    // unchanged + known mime, not asking for similar -> current (skip)
    assert!(is_current(&base, 10, m, false));
    // size differs -> not current
    assert!(!is_current(&base, 11, m, false));
    // mtime differs -> not current
    assert!(!is_current(
        &base,
        10,
        Some("2024-02-02T00:00:00+00:00"),
        false
    ));
    // missing mtime on disk -> not current
    assert!(!is_current(&base, 10, None, false));
    // mime unknown -> not current even if unchanged (backfill mime)
    let no_mime = RowSig {
        has_mime: false,
        ..base.clone()
    };
    assert!(!is_current(&no_mime, 10, m, false));
    // --similar with no phash -> not current (backfill phash)
    assert!(!is_current(&base, 10, m, true));
    // --similar with phash present -> current
    let with_phash = RowSig {
        has_phash: true,
        ..base.clone()
    };
    assert!(is_current(&with_phash, 10, m, true));
}

#[test]
fn bytes_read_the_way_a_person_says_them() {
    assert_eq!(human_bytes(0), "0 B");
    assert_eq!(human_bytes(512), "512 B");
    assert_eq!(human_bytes(1024), "1.0 KB");
    assert_eq!(human_bytes(1_048_576), "1.0 MB");
    assert_eq!(human_bytes(1_503_238_553), "1.4 GB");
}

/// The size as a double, divided down and printed with one decimal, the
/// way the figure is meant to read.
fn through_a_double(bytes: u64) -> String {
    const UNITS: [&str; 5] = ["B", "KB", "MB", "GB", "TB"];
    if bytes < 1024 {
        return format!("{bytes} B");
    }
    let mut v = bytes as f64;
    let mut unit = 0;
    while v >= 1024.0 && unit < UNITS.len() - 1 {
        v /= 1024.0;
        unit += 1;
    }
    format!("{v:.1} {}", UNITS[unit])
}

#[test]
fn human_bytes_agrees_with_double_rounding_at_ties_and_extremes() {
    let mut samples: Vec<u64> = vec![
        1023,
        1024,
        1075,
        1126,
        1177,
        1280,
        1331,
        1536,
        1587,
        2304,
        3328,
        10_240,
        1_048_575,
        1_048_576,
        1_310_720,
        5 * 1024 * 1024 / 4,
        1_503_238_553,
        1u64 << 40,
        (1u64 << 40) * 1023 + (1u64 << 39),
        (1u64 << 53) - 1,
        1u64 << 53,
        (1u64 << 53) + 1,
        (1u64 << 53) + 3,
        (1u64 << 60) + 12345,
        u64::MAX - 1,
        u64::MAX,
    ];
    let mut x: u64 = 0x9e37_79b9_7f4a_7c15;
    for _ in 0..2000 {
        x = x.wrapping_mul(6364136223846793005).wrapping_add(1442695040888963407);
        samples.push(x >> (x % 60));
    }
    for k in 0..4096u64 {
        samples.push(1024 + k * 5);
        samples.push((1 << 20) + k * 1280);
    }
    for b in samples {
        assert_eq!(human_bytes(b), through_a_double(b), "{b}");
    }
}

#[test]
fn human_bytes_names_the_largest_unit_up_to_terabytes() {
    assert_eq!(human_bytes(1_099_511_627_776), "1.0 TB");
    assert_eq!(human_bytes(1_125_899_906_842_624), "1024.0 TB");
    assert_eq!(human_bytes(1023), "1023 B");
    assert_eq!(human_bytes(1536), "1.5 KB");
}

#[test]
fn default_model_id_is_a_siglip_checkpoint() {
    assert!(
        DEFAULT_MODEL_ID.starts_with("google/"),
        "{DEFAULT_MODEL_ID}"
    );
    assert!(DEFAULT_MODEL_ID.contains("siglip"), "{DEFAULT_MODEL_ID}");
    assert_eq!(
        DEFAULT_MODEL_ID.matches('/').count(),
        1,
        "{DEFAULT_MODEL_ID}"
    );
}

#[test]
fn is_video_ext_matches_mov_and_mp4_case_insensitively() {
    assert!(is_video_ext("mov"));
    assert!(is_video_ext("MP4"));
    assert!(is_video_ext("Mov"));
    assert!(!is_video_ext("jpg"));
    assert!(!is_video_ext(""));
}

#[test]
fn the_explicit_model_wins_over_the_configured_one() {
    assert_eq!(
        resolve_model_id_in(Some("owner/explicit"), Some("owner/configured".to_string())),
        "owner/explicit"
    );
    assert_eq!(
        resolve_model_id_in(None, Some("owner/configured".to_string())),
        "owner/configured"
    );
    assert_eq!(resolve_model_id_in(None, None), DEFAULT_MODEL_ID);
}

#[test]
fn model_slug_replaces_the_owner_separator() {
    assert_eq!(
        model_slug("google/siglip2-base-patch16-384"),
        "google--siglip2-base-patch16-384"
    );
}

#[test]
fn model_slug_round_trips_through_model_from_slug() {
    for id in [
        "google/siglip2-base-patch16-384",
        "google/siglip-so400m-patch14-384",
        "google/siglip-base-patch16-224",
    ] {
        assert_eq!(model_from_slug(&model_slug(id)), id);
    }
}

#[test]
fn model_slug_contains_no_path_separator() {
    assert!(!model_slug("google/siglip2-base-patch16-384").contains('/'));
}

#[test]
fn db_path_in_joins_the_embeddings_dir_and_model_slug() {
    let p = db_path_in("/lib/.videre/embeddings", "google/siglip2-base-patch16-384");
    assert_eq!(
        p,
        "/lib/.videre/embeddings/google--siglip2-base-patch16-384.db"
    );
    let p = std::path::PathBuf::from(p);
    assert_eq!(
        p.file_name().unwrap(),
        "google--siglip2-base-patch16-384.db"
    );
    assert_eq!(
        p.parent().unwrap(),
        std::path::Path::new("/lib/.videre/embeddings")
    );
}

#[test]
fn join_path_adds_one_separator() {
    assert_eq!(join_path("/a", "b"), "/a/b");
    assert_eq!(join_path("/a/", "b"), "/a/b");
    assert_eq!(join_path("", "b"), "b");
    assert_eq!(
        std::path::Path::new("/a").join("b").to_str().unwrap(),
        join_path("/a", "b")
    );
}

#[test]
fn codes_are_unique_and_snake_case() {
    let mut seen = std::collections::HashSet::new();
    for kind in ErrorKind::all() {
        let code = kind.code();
        assert!(seen.insert(code), "duplicate code {code}");
        assert!(
            code.chars().all(|c| c.is_ascii_lowercase() || c == '_'),
            "{code}"
        );
    }
}

#[test]
fn every_kind_has_a_label_and_only_some_a_remediation() {
    assert_eq!(
        ErrorKind::SourceUnavailable.label(),
        "the file could not be read from its drive"
    );
    assert!(ErrorKind::SourceUnavailable
        .remediation()
        .unwrap()
        .starts_with("Reconnect"));
    assert_eq!(ErrorKind::Database.remediation(), None);
    assert_eq!(ErrorKind::all().len(), 8);
}

#[test]
fn select_unscanned_skips_dedups_and_limits() {
    // Two paths share hash "a"; "b" is skipped; "c","d","e" remain.
    let all = vec![
        ("/1.jpg".to_string(), "a".to_string()),
        ("/1copy.jpg".to_string(), "a".to_string()),
        ("/2.jpg".to_string(), "b".to_string()),
        ("/3.jpg".to_string(), "c".to_string()),
        ("/4.jpg".to_string(), "d".to_string()),
        ("/5.jpg".to_string(), "e".to_string()),
    ];
    let skip: Vec<String> = vec!["b".to_string()];
    // No limit: one path per unscanned hash (a,c,d,e), b excluded.
    let out = select_unscanned(&all, &skip, None);
    assert_eq!(
        out.iter().map(|(_, h)| h.clone()).collect::<Vec<_>>(),
        vec!["a", "c", "d", "e"]
    );
    // Limit 2: first two unscanned hashes only.
    let out2 = select_unscanned(&all, &skip, Some(2));
    assert_eq!(
        out2.iter().map(|(_, h)| h.clone()).collect::<Vec<_>>(),
        vec!["a", "c"]
    );
}

#[test]
fn select_unscanned_keeps_the_first_path_of_each_hash() {
    let all = vec![
        ("/1.jpg".to_string(), "a".to_string()),
        ("/1copy.jpg".to_string(), "a".to_string()),
    ];
    let out = select_unscanned(&all, &[], Some(1));
    assert_eq!(out, vec![("/1.jpg".to_string(), "a".to_string())]);
}

#[test]
fn select_unscanned_with_a_cap_of_zero_selects_nothing() {
    let all = vec![
        ("/1.jpg".to_string(), "a".to_string()),
        ("/2.jpg".to_string(), "b".to_string()),
    ];
    assert!(select_unscanned(&all, &[], Some(0)).is_empty());
}

#[test]
fn the_faces_ddl_names_its_table_and_guards_creation_on_request() {
    let body = " (
            id            INTEGER PRIMARY KEY,
            hash          TEXT NOT NULL,
            bbox          TEXT NOT NULL,
            landmark      TEXT,
            embedding     BLOB NOT NULL,
            cluster_id    INTEGER,
            person_label  TEXT,
            confirmed     INTEGER DEFAULT 0,
            is_primary    INTEGER DEFAULT 0,
            det_score     REAL,
            blur          REAL,
            oriented      INTEGER,
            FOREIGN KEY (person_label) REFERENCES people(name)
                ON DELETE RESTRICT ON UPDATE RESTRICT
        );";
    assert_eq!(
        faces_ddl_for("faces", true),
        format!("CREATE TABLE IF NOT EXISTS faces{body}")
    );
    assert_eq!(
        faces_ddl_for("faces_new", false),
        format!("CREATE TABLE faces_new{body}")
    );
}

#[test]
fn model_listing_is_sorted_and_ignores_unrelated_files() {
    let names: Vec<String> = [
        "google--siglip2-base-patch16-384.db",
        "google--siglip2-base-patch16-384.db-wal",
        "notes.txt",
        "google--siglip-base-patch16-224.db",
        "google--siglip-base-patch16-224.db-shm",
    ]
    .iter()
    .map(|s| s.to_string())
    .collect();
    assert_eq!(
        models_in_listing(&names),
        vec![
            "google/siglip-base-patch16-224".to_string(),
            "google/siglip2-base-patch16-384".to_string(),
        ]
    );
    assert!(models_in_listing(&[]).is_empty());
}

#[test]
fn a_model_file_name_needs_a_stem_and_the_db_extension() {
    assert_eq!(
        model_from_file_name("owner--name.db"),
        Some("owner/name".to_string())
    );
    assert_eq!(model_from_file_name("plain.db"), Some("plain".to_string()));
    assert_eq!(model_from_file_name("a.b.db"), Some("a.b".to_string()));
    assert_eq!(model_from_file_name(".db"), None);
    assert_eq!(model_from_file_name("db"), None);
    assert_eq!(model_from_file_name("model.DB"), None);
    assert_eq!(model_from_file_name("model.db.bak"), None);
}

#[test]
fn model_listing_does_not_depend_on_directory_order() {
    let forward: Vec<String> = ["b--y.db", "a--x.db", "c.txt", "a--z.db"]
        .iter()
        .map(|s| s.to_string())
        .collect();
    let mut backward = forward.clone();
    backward.reverse();
    assert_eq!(models_in_listing(&forward), models_in_listing(&backward));
    assert_eq!(
        models_in_listing(&forward),
        vec!["a/x".to_string(), "a/z".to_string(), "b/y".to_string()]
    );
}

#[test]
fn path_computation_creates_nothing() {
    let root = tempfile::tempdir().unwrap();
    let embeddings = root.path().join("library").join(".videre").join("embeddings");
    let _ = db_path_in(
        &embeddings.to_string_lossy(),
        "google/siglip2-base-patch16-384",
    );
    assert!(
        !embeddings.exists(),
        "path computation must not create {:?}",
        embeddings
    );
}

#[test]
fn mtime_iso_writes_the_utc_moment_as_rfc3339() {
    assert_eq!(mtime_iso(0, 0).as_deref(), Some("1970-01-01T00:00:00+00:00"));
    assert_eq!(mtime_iso(1_431_648_000, 0).as_deref(), Some("2015-05-15T00:00:00+00:00"));
    assert_eq!(
        mtime_iso(1_431_648_000, 500_000_000).as_deref(),
        Some("2015-05-15T00:00:00.500+00:00")
    );
    assert_eq!(mtime_iso(-1, 999_999_999).as_deref(), Some("1969-12-31T23:59:59.999999999+00:00"));
}

#[test]
fn mtime_iso_gives_the_same_text_for_the_same_moment() {
    let scanned = mtime_iso(1_700_000_123, 42).unwrap();
    let later = mtime_iso(1_700_000_123, 42).unwrap();
    assert_eq!(scanned, later);
    assert_ne!(scanned, mtime_iso(1_700_000_124, 42).unwrap());
}

#[test]
fn mtime_iso_refuses_a_moment_chrono_cannot_hold() {
    assert_eq!(mtime_iso(i64::MAX, 0), None);
    assert_eq!(mtime_iso(0, 2_000_000_000), None);
}

fn strings(xs: &[&str]) -> Vec<String> {
    xs.iter().map(|s| s.to_string()).collect()
}

#[test]
fn exclude_video_hashes_filters_out_mov_and_mp4() {
    // Rows for /a/1.jpg, /a/clip.mp4 and /a/clip.mov: only the jpg is not a video.
    let rows = vec![("h1".to_string(), false), ("h2".to_string(), true), ("h3".to_string(), true)];
    let all = strings(&["h1", "h2", "h3"]);
    assert_eq!(non_video_hashes(&all, &rows), strings(&["h1"]));
}

#[test]
fn exclude_video_hashes_keeps_hashes_with_no_file_hashes_row() {
    let all = strings(&["orphan-hash"]);
    assert_eq!(non_video_hashes(&all, &[]), strings(&["orphan-hash"]));
}

#[test]
fn non_video_hashes_keeps_input_order_and_repeats() {
    let rows = vec![("v".to_string(), true), ("p".to_string(), false)];
    let all = strings(&["p", "x", "v", "p", "v", "a"]);
    assert_eq!(non_video_hashes(&all, &rows), strings(&["p", "x", "p", "a"]));
}

#[test]
fn non_video_hashes_lets_the_last_row_of_a_hash_decide() {
    let video_last = vec![("h".to_string(), false), ("h".to_string(), true)];
    assert_eq!(non_video_hashes(&strings(&["h"]), &video_last), Vec::<String>::new());
    let photo_last = vec![("h".to_string(), true), ("h".to_string(), false)];
    assert_eq!(non_video_hashes(&strings(&["h"]), &photo_last), strings(&["h"]));
}

fn counted(xs: &[(&str, i64)]) -> Vec<(String, i64)> {
    xs.iter().map(|(s, n)| (s.to_string(), *n)).collect()
}

fn pairs(xs: &[(&str, &str)]) -> Vec<(String, String)> {
    xs.iter().map(|(a, b)| (a.to_string(), b.to_string())).collect()
}

#[test]
fn migration_plan_turns_labels_into_identities() {
    let (kept, firsts, merged) =
        person_migration_plan(&counted(&[("Işıl Özyeğin", 1), ("Erhan", 1)]));
    assert_eq!(kept, pairs(&[("Erhan", "erhan"), ("Işıl Özyeğin", "isil_ozyegin")]));
    assert_eq!(firsts, strings(&["Erhan", "Işıl Özyeğin"]));
    assert_eq!(merged, 0);
}

#[test]
fn migration_plan_merges_case_variants_keeping_the_more_used_spelling() {
    let (kept, firsts, merged) = person_migration_plan(&counted(&[("alice", 1), ("Alice", 2)]));
    assert_eq!(kept, pairs(&[("Alice", "alice"), ("alice", "alice")]));
    assert_eq!(firsts, strings(&["Alice"]));
    assert_eq!(merged, 1);
}

#[test]
fn migration_plan_prefers_the_capitalised_spelling_on_a_tie() {
    // By label order `sefik` would come first; the upper-case `Ş` wins the tie.
    let (kept, firsts, merged) = person_migration_plan(&counted(&[("sefik", 1), ("Şefik", 1)]));
    assert_eq!(kept, pairs(&[("Şefik", "sefik"), ("sefik", "sefik")]));
    assert_eq!(firsts, strings(&["Şefik"]));
    assert_eq!(merged, 1);
}

#[test]
fn migration_plan_lets_the_accented_spelling_with_more_faces_win() {
    let (_, firsts, merged) = person_migration_plan(&counted(&[("Sefik", 1), ("Şefik", 2)]));
    assert_eq!(firsts, strings(&["Şefik"]));
    assert_eq!(merged, 1);
}

#[test]
fn migration_plan_leaves_a_label_with_no_identity_alone() {
    let (kept, firsts, merged) = person_migration_plan(&counted(&[("!!!", 1), ("Erhan", 1)]));
    assert_eq!(kept, pairs(&[("Erhan", "erhan")]));
    assert_eq!(firsts, strings(&["Erhan"]));
    assert_eq!(merged, 0);
}

#[test]
fn migration_plan_of_no_labels_is_empty() {
    assert_eq!(person_migration_plan(&[]), (Vec::new(), Vec::new(), 0));
}

#[test]
fn migration_plan_takes_upper_case_flags_as_given() {
    let flagged = vec![("b".to_string(), 3, false), ("a".to_string(), 3, true), ("c".to_string(), 5, false)];
    let (kept, firsts, merged) = migration_plan(&flagged);
    assert_eq!(kept, pairs(&[("c", "c"), ("a", "a"), ("b", "b")]));
    assert_eq!(firsts, strings(&["c", "a", "b"]));
    assert_eq!(merged, 0);
}

#[test]
fn sort_order_is_stable_by_key() {
    let keys = vec![
        ("b".to_string(), "x".to_string()),
        ("a".to_string(), "z".to_string()),
        ("b".to_string(), "a".to_string()),
        ("a".to_string(), "z".to_string()),
        ("".to_string(), "q".to_string()),
    ];
    assert_eq!(videre_core::order::sort_order(&keys), vec![4, 1, 3, 2, 0]);
    let numbered = vec![(3i64, "b".to_string()), (1, "z".to_string()), (3, "a".to_string())];
    assert_eq!(videre_core::order::sort_order(&numbered), vec![1, 2, 0]);
}

#[test]
fn exclusions_sort_by_event_then_reason() {
    let x = |id: i64, reason: &str| TrainingExclusion { event_id: id, reason: reason.to_string() };
    let sorted = sort_exclusions(&[x(7, "ineligible"), x(2, "per_identity_cap"), x(7, "duplicate_event")]);
    assert_eq!(sorted, vec![x(2, "per_identity_cap"), x(7, "duplicate_event"), x(7, "ineligible")]);
}

#[test]
fn a_derived_pair_names_its_identities_in_order_once_each() {
    assert_eq!(pair_identity_keys("grace", "ada"), strings(&["ada", "grace"]));
    assert_eq!(pair_identity_keys("ada", "grace"), strings(&["ada", "grace"]));
    assert_eq!(pair_identity_keys("ada", "ada"), strings(&["ada"]));
}
