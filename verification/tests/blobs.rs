use rehydrate::blob::{directories_to_fsync, BlobStore, PutOutcome};
use rehydrate::error::CoreError;
use rehydrate::hash::{Sha256Hex, StreamingHasher};
use rehydrate::paths::{DirPath, LibraryPaths};

fn store() -> BlobStore {
    BlobStore::new(LibraryPaths::new("/lib"))
}

#[test]
fn put_get_roundtrip() {
    let mut bs = store();
    let r = bs.put_bytes(b"hello world");
    assert_eq!(r.outcome, PutOutcome::Stored);
    assert_eq!(r.size, 11);
    assert!(bs.has(&r.hash));
    assert_eq!(bs.read_to_vec(&r.hash, Some(b"hello world".to_vec())).unwrap(), b"hello world");
}

#[test]
fn put_is_idempotent() {
    let mut bs = store();
    let a = bs.put_bytes(b"same");
    let b = bs.put_bytes(b"same");
    assert_eq!(a.hash.as_str(), b.hash.as_str());
    assert_eq!(b.outcome, PutOutcome::Deduplicated);
}

#[test]
fn distinct_inputs_distinct_hashes() {
    let mut bs = store();
    let a = bs.put_bytes(b"alpha");
    let b = bs.put_bytes(b"beta");
    assert_ne!(a.hash.as_str(), b.hash.as_str());
}

#[test]
fn directories_to_fsync_covers_full_chain_inclusive() {
    let root = DirPath::parse("/lib/blobs");
    let leaf = DirPath::parse("/lib/blobs/aa/bb");
    let dirs = directories_to_fsync(Some(&leaf), &root);
    let texts: Vec<String> = dirs.iter().map(|d| d.to_text()).collect();
    assert_eq!(
        texts,
        vec![
            "/lib/blobs/aa/bb".to_string(),
            "/lib/blobs/aa".to_string(),
            "/lib/blobs".to_string(),
        ],
        "walk must yield leaf, mid, root — in that order",
    );
}

#[test]
fn directories_to_fsync_does_not_escape_root() {
    let root = DirPath::parse("/lib/blobs");
    let leaf = DirPath::parse("/lib/blobs/aa/bb");
    let dirs = directories_to_fsync(Some(&leaf), &root);
    assert!(!dirs.is_empty());
    for d in &dirs {
        assert!(d.starts_with(&root), "{} escaped the blob-store root", d.to_text());
    }
}

#[test]
fn directories_to_fsync_refuses_paths_outside_root() {
    let root = DirPath::parse("/lib/blobs");
    let stray = DirPath::parse("/etc/passwd.d");
    let dirs = directories_to_fsync(Some(&stray), &root);
    assert!(dirs.is_empty(), "walk on a path outside the blob root must yield nothing");
}

#[test]
fn directories_to_fsync_without_a_start_is_empty() {
    let root = DirPath::parse("/lib/blobs");
    assert!(directories_to_fsync(None, &root).is_empty());
}

#[test]
fn read_to_vec_detects_on_disk_corruption() {
    let mut bs = store();
    let r = bs.put_bytes(b"original contents");
    let err = bs.read_to_vec(&r.hash, Some(b"tampered contents".to_vec()));
    assert!(
        matches!(err, Err(CoreError::BlobCorrupt { .. })),
        "tampered blob must surface BlobCorrupt, got {err:?}",
    );
    if let Err(CoreError::BlobCorrupt { expected, actual }) = err {
        assert_eq!(expected, r.hash.as_str());
        assert_eq!(actual, Sha256Hex::from_bytes(b"tampered contents").as_str());
    }
}

#[test]
fn a_blob_that_is_gone_is_missing() {
    let mut bs = store();
    let r = bs.put_bytes(b"gone");
    match bs.read_to_vec(&r.hash, None) {
        Err(CoreError::MissingBlob(h)) => assert_eq!(h, r.hash.as_str()),
        other => panic!("expected MissingBlob, got {other:?}"),
    }
    bs.forget(&r.hash);
    assert!(!bs.has(&r.hash));
}

#[test]
fn digests_are_sha256() {
    assert_eq!(
        Sha256Hex::from_bytes(b"abc").as_str(),
        "ba7816bf8f01cfea414140de5dae2223b00361a396177a9cb410ff61f20015ad"
    );
    assert_eq!(
        Sha256Hex::from_bytes(b"").as_str(),
        "e3b0c44298fc1c149afbf4c8996fb92427ae41e4649b934ca495991b7852b855"
    );
    let mut h = StreamingHasher::new();
    h.update(b"a");
    h.update(b"bc");
    let (digest, size) = h.finish();
    assert_eq!(digest.as_str(), Sha256Hex::from_bytes(b"abc").as_str());
    assert_eq!(size, 3);
}

#[test]
fn only_sixty_four_lower_case_digits_are_a_digest() {
    let good = "ba7816bf8f01cfea414140de5dae2223b00361a396177a9cb410ff61f20015ad";
    assert_eq!(Sha256Hex::from_hex(good).unwrap().as_str(), good);
    assert!(Sha256Hex::from_hex(&good.to_uppercase()).is_none());
    assert!(Sha256Hex::from_hex(&good[1..]).is_none());
    assert!(Sha256Hex::from_hex("").is_none());
}

#[test]
fn blobs_lie_two_directories_down() {
    let bs = store();
    let h = Sha256Hex::from_bytes(b"abc");
    assert_eq!(
        bs.path_for(&h),
        "/lib/blobs/ba/78/ba7816bf8f01cfea414140de5dae2223b00361a396177a9cb410ff61f20015ad"
    );
    assert_eq!(bs.paths().blobs, "/lib/blobs");
}
