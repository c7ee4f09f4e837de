use rehydrate::db::{migrations, pending_migrations};
use rehydrate::error::CoreError;
use rehydrate::ids;
use rehydrate::library::opening::{DirectoryProbe, LibraryMeta, StampFile, LIBRARY_SCHEMA};
use rehydrate::library::types::LibraryPathKind;
use rehydrate::library::Library;
use rehydrate::paths::LibraryPaths;

fn probe(root_exists: bool, stamp: StampFile, entries: &[&str]) -> DirectoryProbe {
    DirectoryProbe {
        root_exists,
        stamp,
        entries: entries.iter().map(|s| s.to_string()).collect(),
    }
}

fn paths() -> LibraryPaths {
    LibraryPaths::new("/lib")
}

fn stamp() -> StampFile {
    StampFile::Read(LibraryMeta::fresh("2026-01-02T03:04:05Z".to_string()))
}

#[test]
fn probe_path_classifies_directories() {
    let empty = probe(true, StampFile::Absent, &[]);
    assert_eq!(Library::probe_path(&paths(), &empty).unwrap(), LibraryPathKind::Empty);

    let missing = probe(false, StampFile::Absent, &[]);
    assert_eq!(Library::probe_path(&paths(), &missing).unwrap(), LibraryPathKind::Empty);

    let stamped = probe(true, stamp(), &["library.json", "blobs"]);
    assert_eq!(Library::probe_path(&paths(), &stamped).unwrap(), LibraryPathKind::Existing);

    let foreign = probe(true, StampFile::Absent, &["notes.txt"]);
    assert!(matches!(
        Library::probe_path(&paths(), &foreign),
        Err(CoreError::InvalidPath(_))
    ));

    let hidden = probe(true, StampFile::Absent, &[".DS_Store"]);
    assert_eq!(Library::probe_path(&paths(), &hidden).unwrap(), LibraryPathKind::Empty);
}

#[test]
fn refuses_non_empty_foreign_directory() {
    let foreign = probe(true, StampFile::Absent, &["foreign.txt"]);
    let result = Library::validate_library_path(&paths(), &foreign);
    assert!(matches!(result, Err(CoreError::InvalidPath(_))));
}

#[test]
fn rejects_existing_library_json_with_bad_stamp() {
    let bad = probe(
        true,
        StampFile::Malformed("key must be a string".to_string()),
        &["library.json"],
    );
    match Library::validate_library_path(&paths(), &bad) {
        Err(CoreError::InvalidPath(m)) => {
            assert_eq!(m, "/lib has a malformed library.json: key must be a string")
        }
        other => panic!("expected InvalidPath, got {other:?}"),
    }
}

#[test]
fn manually_truncated_library_json_is_rejected_not_silently_overwritten() {
    let bad = probe(
        true,
        StampFile::Malformed("EOF while parsing a value".to_string()),
        &["library.json"],
    );
    let err = Library::validate_library_path(&paths(), &bad)
        .err()
        .expect("zero-length library.json must NOT silently parse / succeed");
    assert!(matches!(err, CoreError::InvalidPath(_)), "got {err:?}");
}

#[test]
fn stamps_of_other_layouts_are_refused() {
    let mut meta = LibraryMeta::new(ids::fresh_id(), "now".to_string());
    meta.schema = 2;
    let other = probe(true, StampFile::Read(meta), &["library.json"]);
    match Library::validate_library_path(&paths(), &other) {
        Err(CoreError::InvalidPath(m)) => assert_eq!(m, "/lib has library schema 2 (expected 1)"),
        r => panic!("expected InvalidPath, got {r:?}"),
    }
    let nameless = LibraryMeta::new("not a uuid".to_string(), "now".to_string());
    let other = probe(true, StampFile::Read(nameless), &["library.json"]);
    match Library::validate_library_path(&paths(), &other) {
        Err(CoreError::InvalidPath(m)) => assert_eq!(m, "/lib has an invalid library_id stamp"),
        r => panic!("expected InvalidPath, got {r:?}"),
    }
    let unread = probe(true, StampFile::Unreadable("denied".to_string()), &["library.json"]);
    assert!(matches!(
        Library::validate_library_path(&paths(), &unread),
        Err(CoreError::InvalidPath(_))
    ));
}

#[test]
fn a_fresh_stamp_is_complete() {
    let meta = LibraryMeta::fresh("now".to_string());
    assert_eq!(meta.schema, LIBRARY_SCHEMA);
    assert!(ids::is_uuid(&meta.library_id));
    assert_eq!(meta.library_id.len(), 36);
    assert_ne!(meta.library_id, LibraryMeta::fresh("now".to_string()).library_id);
    assert!(!ids::is_uuid("not a uuid"));
}

#[test]
fn reopen_is_idempotent() {
    let none: Vec<String> = Vec::new();
    let first = pending_migrations(&none);
    assert_eq!(first, migrations());
    assert!(pending_migrations(&first).is_empty());
}

#[test]
fn only_missing_migrations_are_pending() {
    let all = migrations();
    let some: Vec<String> = all.iter().take(6).cloned().collect();
    assert_eq!(
        pending_migrations(&some),
        vec!["0007_folder_revert_state".to_string(), "0008_device_deletion_queue".to_string()]
    );
}

#[test]
fn every_error_has_its_message() {
    let s = |x: &str| x.to_string();
    let cases = vec![
        (CoreError::Io(s("disk")), "io: disk"),
        (CoreError::Sqlite(s("busy")), "sqlite: busy"),
        (CoreError::Json(s("eof")), "serde_json: eof"),
        (
            CoreError::Corrupt { path: s("/lib"), reason: s("bad hash") },
            "library at /lib is corrupt: bad hash",
        ),
        (CoreError::MissingBlob(s("aa")), "manifest references unknown blob aa"),
        (
            CoreError::BlobCorrupt { expected: s("aa"), actual: s("bb") },
            "blob aa corrupt: bytes hash to bb",
        ),
        (CoreError::NotFound(s("document d")), "not found: document d"),
        (CoreError::InvalidPath(s("/x")), "invalid library path: /x"),
        (CoreError::InvalidArgument(s("n")), "invalid argument: n"),
        (CoreError::AlreadyOpen(s("/lib")), "library at /lib is already open by another process"),
        (CoreError::AlreadyExists(s("/out/a")), "destination already exists: /out/a"),
        (
            CoreError::DocumentArchived(s("d")),
            "document d is archived; unarchive before recording a new version",
        ),
    ];
    for (e, expected) in cases {
        assert_eq!(e.message(), expected);
    }
}
