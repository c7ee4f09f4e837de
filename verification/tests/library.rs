use std::collections::HashMap;

use rehydrate::blob::{PutOutcome, PutResult};
use rehydrate::error::CoreError;
use rehydrate::hash::Sha256Hex;
use rehydrate::ids;
use rehydrate::library::documents::EditRequest;
use rehydrate::library::import::ImportKind;
use rehydrate::library::maintenance::{
    collection_report, permit_export, BlobAge, BlobContents, BlobFile,
};
use rehydrate::library::rows::{ArchiveRow, DocumentRow, SortIndex, VersionRow};
use rehydrate::library::types::{
    ArchiveReason, DeleteFolderOutcome, DocumentSummary, FolderEntry, FolderPushKind, FolderPushOp,
    GarbageCollectReport, ReconstructOptions, RecordOutcome, Source, VerifyReport,
};
use rehydrate::library::Library;
use rehydrate::manifest::{Manifest, ManifestFile};
use rehydrate::paths::LibraryPaths;

const NOW: &str = "2026-01-02T03:04:05Z";
const NOW_MS: i64 = 1_767_323_045_000;

/// A library whose blobs are kept in memory.
struct Desk {
    lib: Library,
    disk: HashMap<String, Vec<u8>>,
    manifests: HashMap<String, Manifest>,
}

fn position(x: f64) -> SortIndex {
    SortIndex { bits: x.to_bits() }
}

fn number(s: SortIndex) -> f64 {
    f64::from_bits(s.bits)
}

fn object(fields: Vec<(&str, serde_json::Value)>) -> serde_json::Value {
    let mut map = serde_json::Map::new();
    for (k, v) in fields {
        map.insert(k.to_string(), v);
    }
    serde_json::Value::Object(map)
}

fn text(s: &str) -> serde_json::Value {
    serde_json::Value::from(s)
}

fn canonical(m: &Manifest) -> Vec<u8> {
    let files: Vec<serde_json::Value> = m
        .files
        .iter()
        .map(|f| {
            object(vec![
                ("path", text(&f.path)),
                ("sha256", text(f.sha256.as_str())),
                ("size", serde_json::Value::from(f.size)),
                ("mode", serde_json::Value::from(f.mode)),
                ("derived", serde_json::Value::from(f.derived)),
            ])
        })
        .collect();
    let v = object(vec![
        ("document_id", text(&m.document_id)),
        ("doc_type", text(&m.doc_type)),
        ("visible_name", text(&m.visible_name)),
        (
            "parent",
            match &m.parent {
                Some(p) => text(p),
                None => serde_json::Value::Null,
            },
        ),
        ("metadata", m.metadata.clone()),
        ("content_meta", m.content_meta.clone()),
        ("files", serde_json::Value::Array(files)),
    ]);
    serde_json::to_vec(&v).unwrap()
}

impl Desk {
    fn open() -> Desk {
        Desk {
            lib: Library::new(LibraryPaths::new("/lib")),
            disk: HashMap::new(),
            manifests: HashMap::new(),
        }
    }

    fn put_blob(&mut self, bytes: &[u8]) -> PutResult {
        let r = self.lib.put_blob(bytes);
        self.disk.insert(r.hash.as_str().to_string(), bytes.to_vec());
        r
    }

    fn store_manifest(&mut self, m: &Manifest) -> PutResult {
        let bytes = canonical(m);
        let r = self.lib.put_manifest(m.clone(), &bytes);
        self.disk.insert(r.hash.as_str().to_string(), bytes);
        self.manifests.insert(r.hash.as_str().to_string(), m.clone());
        r
    }

    fn put_manifest(&mut self, m: &Manifest) -> Sha256Hex {
        self.store_manifest(m).hash
    }

    fn read_blob(&self, hash: &Sha256Hex) -> Result<Vec<u8>, CoreError> {
        self.lib.read_blob(hash, self.disk.get(hash.as_str()).cloned())
    }

    fn manifest(&self, hash: &Sha256Hex) -> &Manifest {
        &self.manifests[hash.as_str()]
    }

    fn lose_blob(&mut self, hash: &Sha256Hex) {
        self.disk.remove(hash.as_str());
        self.lib.forget_blob(hash);
    }

    fn record_version(&mut self, m: &Manifest, source: Source) -> Result<RecordOutcome, CoreError> {
        let hash = self.put_manifest(m);
        self.lib.record_version(m, &hash, source, NOW)
    }

    fn edit(&mut self, request: EditRequest) -> Result<RecordOutcome, CoreError> {
        let bytes = self.read_blob(request.metadata_blob())?;
        let edited = request.apply(&bytes, NOW_MS)?;
        self.put_blob(&edited.metadata_bytes);
        let hash = self.put_manifest(&edited.manifest);
        self.lib.record_metadata_change(&edited, &hash, NOW)
    }

    fn move_document(&mut self, id: &str, parent: Option<&str>) -> Result<RecordOutcome, CoreError> {
        let request = self.lib.move_document(id, parent)?;
        self.edit(request)
    }

    fn rename_document(&mut self, id: &str, name: &str) -> Result<RecordOutcome, CoreError> {
        let request = self.lib.rename_document(id, name)?;
        self.edit(request)
    }

    fn archive_document(&mut self, id: &str, reason: ArchiveReason) -> Result<(), CoreError> {
        match self.lib.archive_document(id, reason)? {
            Some(request) => self.edit(request).map(|_| ()),
            None => Ok(()),
        }
    }

    fn unarchive_document(&mut self, id: &str) -> Result<DocumentSummary, CoreError> {
        let back = self.lib.unarchive_document(id)?;
        let outcome = self.edit(back.request)?;
        Ok(self.lib.unarchived_summary(id, back.visible_name, back.doc_type, back.parent, &outcome))
    }

    fn next_position(&self, parent: Option<&str>) -> SortIndex {
        let last = match self.lib.last_position(parent) {
            Some(s) => number(s),
            None => 0.0,
        };
        position(last + 1.0)
    }

    fn create_folder(&mut self, name: &str, parent: Option<&str>) -> Result<FolderEntry, CoreError> {
        let at = self.next_position(parent);
        self.lib.create_folder(ids::fresh_id(), name, parent, at, NOW_MS)
    }

    fn upsert_folder(&mut self, id: &str, parent: Option<&str>, name: &str, json: &str) {
        let at = self.next_position(parent);
        self.lib.upsert_folder(id, parent, name, json, at);
    }

    fn reorder_folder(&mut self, id: &str, parent: Option<&str>, at: f64) -> Result<(), CoreError> {
        self.lib.reorder_folder(id, parent, position(at), NOW_MS)
    }

    fn rename_folder(&mut self, id: &str, name: &str) -> Result<(), CoreError> {
        self.lib.rename_folder(id, name, NOW_MS)
    }

    fn delete_folder(&mut self, id: &str) -> Result<DeleteFolderOutcome, CoreError> {
        let deletion = self.lib.delete_folder(id, NOW_MS)?;
        let outcome = deletion.outcome();
        if !deletion.already_deleted {
            for doc in &deletion.documents {
                self.move_document(doc, deletion.new_parent.as_deref())?;
            }
            self.lib.finish_delete_folder(id, NOW_MS)?;
        }
        Ok(outcome)
    }

    fn blob_files(&self) -> Vec<BlobFile> {
        let mut names: Vec<&String> = self.disk.keys().collect();
        names.sort();
        names
            .into_iter()
            .map(|name| BlobFile {
                path: format!("/lib/blobs/{name}"),
                name: name.clone(),
                size: self.disk[name].len() as u64,
                age: BlobAge::Nanos(0),
                contents: BlobContents::Digest(
                    Sha256Hex::from_bytes(&self.disk[name]).as_str().to_string(),
                ),
            })
            .collect()
    }

    fn verify(&self) -> VerifyReport {
        self.lib.verify(&self.blob_files())
    }

    fn collect(&mut self, grace_nanos: u128) -> GarbageCollectReport {
        let files = self.blob_files();
        let doomed = self.lib.garbage_collect_with_grace(&files, grace_nanos);
        let mut results = Vec::new();
        for i in doomed {
            let hash = Sha256Hex::from_hex(&files[i].name).unwrap();
            self.lose_blob(&hash);
            results.push((files[i].size, true));
        }
        collection_report(files.len(), &results)
    }

    fn record_derived(&mut self, id: &str, path: &str, bytes: &[u8]) -> Result<RecordOutcome, CoreError> {
        let artefact = self.lib.attach_derived_artefact(id, path, bytes)?;
        self.put_blob(bytes);
        let hash = self.put_manifest(&artefact.manifest);
        self.lib.record_derived_artefact(&artefact, &hash, NOW)
    }

    fn read_derived(&self, version: i64, path: &str) -> Result<Option<Vec<u8>>, CoreError> {
        match self.lib.read_derived_artefact(version, path)? {
            Some(hash) => self.read_blob(&hash).map(Some),
            None => Ok(None),
        }
    }

    fn seed_manifest(&mut self, doc_id: &str, contents: &[(&str, &[u8])]) -> Manifest {
        let meta = object(vec![
            ("visibleName", text("Test")),
            ("type", text("DocumentType")),
            ("parent", text("")),
            ("deleted", serde_json::Value::from(false)),
            ("lastModified", text("0")),
        ]);
        let put = self.put_blob(&serde_json::to_vec_pretty(&meta).unwrap());
        let mut files = vec![file(&format!("{doc_id}.metadata"), &put)];
        for (path, bytes) in contents {
            let put = self.put_blob(bytes);
            files.push(file(path, &put));
        }
        let mut m = Manifest::new(doc_id, "Notebook", "Test");
        m.metadata = meta;
        m.files = files;
        m
    }

    fn folder(&self, id: &str) -> Option<FolderEntry> {
        self.lib.list_folders().into_iter().find(|f| f.folder_id == id)
    }

    fn document(&self, id: &str) -> Option<DocumentSummary> {
        self.lib.list_documents().unwrap().into_iter().find(|d| d.document_id == id)
    }

    fn dirty(&self, id: &str) -> bool {
        self.document(id).map(|d| d.has_unpushed_changes).unwrap_or(false)
    }
}

fn file(path: &str, put: &PutResult) -> ManifestFile {
    ManifestFile {
        path: path.to_string(),
        sha256: put.hash.clone(),
        size: put.size,
        mode: 0o644,
        derived: false,
    }
}

#[test]
fn record_then_list_and_history() {
    let mut desk = Desk::open();
    let m = desk.seed_manifest("doc-1", &[("a.rm", b"AAA"), ("b.rm", b"BBB")]);

    let outcome1 = desk.record_version(&m, Source::Pulled).unwrap();
    assert!(!outcome1.unchanged);

    let outcome2 = desk.record_version(&m, Source::Pulled).unwrap();
    assert!(outcome2.unchanged, "re-recording identical manifest must be a no-op");
    assert_eq!(outcome2.version_id, outcome1.version_id);

    let docs = desk.lib.list_documents().unwrap();
    assert_eq!(docs.len(), 1);
    assert_eq!(docs[0].document_id, "doc-1");

    let history = desk.lib.get_history("doc-1").unwrap();
    assert_eq!(history.len(), 1);
    assert_eq!(history[0].source, Source::Pulled);
}

#[test]
fn changing_a_file_appends_a_new_version() {
    let mut desk = Desk::open();
    let m1 = desk.seed_manifest("doc-1", &[("a.rm", b"v1")]);
    desk.record_version(&m1, Source::Pulled).unwrap();
    let m2 = desk.seed_manifest("doc-1", &[("a.rm", b"v2")]);
    let r2 = desk.record_version(&m2, Source::Pulled).unwrap();
    assert!(!r2.unchanged);
    let history = desk.lib.get_history("doc-1").unwrap();
    assert_eq!(history.len(), 2);
    assert_eq!(history[1].parent_version_id, Some(history[0].id));
}

#[test]
fn reconstruct_round_trips() {
    let mut desk = Desk::open();
    let m = desk.seed_manifest(
        "doc-1",
        &[("doc.metadata", b"{\"deleted\":false}"), ("doc/page-1.rm", b"page1bytes")],
    );
    let r = desk.record_version(&m, Source::Pulled).unwrap();

    let plan = desk.lib.reconstruct(r.version_id, "/out").unwrap();
    let mut out: HashMap<String, Vec<u8>> = HashMap::new();
    for f in &plan {
        out.insert(f.target.clone(), desk.read_blob(&f.blob).unwrap());
    }
    assert_eq!(out["/out/doc.metadata"], b"{\"deleted\":false}");
    assert_eq!(out["/out/doc/page-1.rm"], b"page1bytes");
}

#[test]
fn export_stops_before_it_overwrites() {
    let mut desk = Desk::open();
    let m = desk.seed_manifest("doc-1", &[("a.rm", b"page")]);
    let r = desk.record_version(&m, Source::Pulled).unwrap();
    let plan = desk.lib.reconstruct(r.version_id, "/out").unwrap();
    assert_eq!(plan.len(), 2);
    let strict = ReconstructOptions { allow_overwrite: false };
    let free = ReconstructOptions { allow_overwrite: true };
    assert!(permit_export(&plan, &vec![false, false], strict).is_ok());
    match permit_export(&plan, &vec![false, true], strict) {
        Err(CoreError::AlreadyExists(p)) => assert_eq!(p, "/out/a.rm"),
        other => panic!("expected AlreadyExists, got {other:?}"),
    }
    assert!(permit_export(&plan, &vec![true, true], free).is_ok());
    assert!(!ReconstructOptions::default().allow_overwrite);
}

#[test]
fn verify_clean_library_reports_no_problems() {
    let mut desk = Desk::open();
    let m = desk.seed_manifest("doc-1", &[("a.rm", b"AAA"), ("b.rm", b"BBB")]);
    desk.record_version(&m, Source::Pulled).unwrap();

    let report = desk.verify();
    assert_eq!(report.manifests_total, 1);
    assert_eq!(report.manifests_ok, 1);
    assert_eq!(report.blobs_missing, 0);
    assert_eq!(report.blobs_orphan, 0);
    assert_eq!(report.blobs_total, 4);
    assert_eq!(report.blobs_corrupted, 0);
}

#[test]
fn verify_detects_missing_and_orphan_blobs() {
    let mut desk = Desk::open();
    let m = desk.seed_manifest("doc-1", &[("a.rm", b"AAA")]);
    desk.record_version(&m, Source::Pulled).unwrap();

    let orphan = desk.put_blob(b"i am an orphan");
    assert!(desk.lib.has_blob(&orphan.hash));

    let target = m.files.iter().find(|f| f.path == "a.rm").unwrap().sha256.clone();
    desk.lose_blob(&target);

    let report = desk.verify();
    assert_eq!(report.manifests_ok, 1);
    assert_eq!(report.blobs_missing, 1, "should report the deleted file");
    assert_eq!(report.blobs_orphan, 1, "should flag the orphan");
    assert!(report.missing_examples[0].starts_with("doc-1:a.rm"));
}

#[test]
fn verify_detects_a_corrupted_blob() {
    let mut desk = Desk::open();
    let m = desk.seed_manifest("doc-1", &[("a.rm", b"AAA")]);
    desk.record_version(&m, Source::Pulled).unwrap();
    let target = m.files.iter().find(|f| f.path == "a.rm").unwrap().sha256.clone();
    desk.disk.insert(target.as_str().to_string(), b"AAB".to_vec());
    let report = desk.verify();
    assert_eq!(report.blobs_corrupted, 1);
    assert_eq!(report.blobs_missing, 0);
    assert!(matches!(desk.read_blob(&target), Err(CoreError::BlobCorrupt { .. })));
}

#[test]
fn verify_counts_a_manifest_that_is_gone() {
    let mut desk = Desk::open();
    let m = desk.seed_manifest("doc-1", &[("a.rm", b"AAA")]);
    let r = desk.record_version(&m, Source::Pulled).unwrap();
    desk.lose_blob(&r.manifest_hash);
    let report = desk.verify();
    assert_eq!(report.manifests_total, 1);
    assert_eq!(report.manifests_ok, 0);
    assert_eq!(report.manifests_missing, 1);
}

#[test]
fn import_file_creates_outbound_document() {
    let mut desk = Desk::open();
    let body = desk.put_blob(b"%PDF-1.7 fake bytes");
    let id = ids::fresh_id();
    let doc = Library::import_file(&id, ImportKind::Pdf, "Sample document", None, &body, NOW_MS);
    let meta = desk.put_blob(&doc.metadata_bytes);
    let content = desk.put_blob(&doc.content_bytes);
    let stored = desk.store_manifest(&doc.manifest);
    let summary = desk
        .lib
        .finalize_import(&doc.manifest, &stored, &body, &meta, &content, "Sample document", NOW)
        .unwrap();
    assert_eq!(summary.visible_name, "Sample document");
    assert_eq!(summary.doc_type, "DocumentType.Pdf");

    let manifest = desk.manifest(&summary.current_manifest);
    assert_eq!(manifest.files.len(), 3);
    assert!(manifest.files.iter().any(|f| f.path.ends_with(".metadata")));
    assert!(manifest.files.iter().any(|f| f.path.ends_with(".content")));
    assert!(manifest.files.iter().any(|f| f.path.ends_with(".pdf")));

    let last_seen = desk.lib.last_seen(&summary.document_id);
    assert!(matches!(last_seen, Some((_, None)) | None));
}

#[test]
fn imported_files_are_the_expected_json() {
    let mut desk = Desk::open();
    let body = desk.put_blob(b"epub bytes");
    let doc = Library::import_file("id-1", ImportKind::Epub, "Book", Some("shelf"), &body, NOW_MS);
    let meta: serde_json::Value = serde_json::from_slice(&doc.metadata_bytes).unwrap();
    assert_eq!(meta.get("visibleName").and_then(|v| v.as_str()), Some("Book"));
    assert_eq!(meta.get("parent").and_then(|v| v.as_str()), Some("shelf"));
    assert_eq!(meta.get("lastModified").and_then(|v| v.as_str()), Some("1767323045000"));
    assert_eq!(meta.get("version").and_then(|v| v.as_u64()), Some(1));
    assert_eq!(meta.get("deleted").and_then(|v| v.as_bool()), Some(false));
    assert_eq!(
        String::from_utf8(doc.content_bytes).unwrap(),
        "{\n  \"extraMetadata\": {},\n  \"fileType\": \"epub\",\n  \"lastOpenedPage\": 0,\n  \
         \"lineHeight\": -1,\n  \"margins\": 100,\n  \"orientation\": \"portrait\",\n  \
         \"pageCount\": 0,\n  \"textScale\": 1\n}"
    );
    let pdf = ImportKind::Pdf.content_json();
    assert_eq!(
        serde_json::to_string(pdf.get("transform").unwrap()).unwrap(),
        "{\"m11\":1.0,\"m12\":0.0,\"m13\":0.0,\"m21\":0.0,\"m22\":1.0,\"m23\":0.0,\"m31\":0.0,\
         \"m32\":0.0,\"m33\":1.0}"
    );
}

#[test]
fn import_kinds_go_by_extension() {
    assert_eq!(ImportKind::from_extension("PDF"), Some(ImportKind::Pdf));
    assert_eq!(ImportKind::from_extension("ePub"), Some(ImportKind::Epub));
    assert_eq!(ImportKind::from_extension("txt"), None);
    assert_eq!(ImportKind::Pdf.extension(), "pdf");
    assert_eq!(ImportKind::Epub.doc_type(), "DocumentType.Epub");
}

fn colliding_manifest(body: &PutResult, meta: &PutResult, content: &PutResult) -> Manifest {
    let mut manifest = Manifest::new("doc-collide", "DocumentType.Pdf", "name");
    manifest.files = vec![
        file("doc-collide.metadata", meta),
        file("doc-collide.content", content),
        file("doc-collide.pdf", body),
    ];
    manifest
}

#[test]
fn finalize_import_unlinks_staged_blobs_when_record_version_fails() {
    let mut desk = Desk::open();
    let pre = desk.seed_manifest("doc-collide", &[("a.rm", b"page")]);
    desk.record_version(&pre, Source::Pulled).unwrap();
    desk.archive_document("doc-collide", ArchiveReason::Local).unwrap();

    let body = desk.put_blob(b"BODY-import-bytes-39-unique");
    let meta = desk.put_blob(b"META-import-bytes-39-unique-too");
    let content = desk.put_blob(b"CONTENT-import-bytes-39-unique");
    assert!(matches!(body.outcome, PutOutcome::Stored));
    assert!(matches!(meta.outcome, PutOutcome::Stored));
    assert!(matches!(content.outcome, PutOutcome::Stored));

    let manifest = colliding_manifest(&body, &meta, &content);
    let stored = desk.store_manifest(&manifest);
    let failure = desk
        .lib
        .finalize_import(&manifest, &stored, &body, &meta, &content, "name", "now")
        .expect_err("archived-doc gate must reject this import");
    assert!(
        matches!(failure.error, CoreError::DocumentArchived(ref id) if id == "doc-collide"),
        "wanted DocumentArchived, got {:?}",
        failure.error,
    );
    let unlink: Vec<&str> = failure.unlink.iter().map(|h| h.as_str()).collect();
    assert_eq!(
        unlink,
        vec![
            body.hash.as_str(),
            meta.hash.as_str(),
            content.hash.as_str(),
            stored.hash.as_str(),
        ]
    );
    assert!(!desk.lib.has_blob(&stored.hash), "Stored manifest blob must be unlinked");
    assert!(!desk.lib.has_blob(&body.hash), "Stored body blob must be unlinked");
    assert!(!desk.lib.has_blob(&meta.hash), "Stored metadata blob must be unlinked");
    assert!(!desk.lib.has_blob(&content.hash), "Stored content blob must be unlinked");
}

#[test]
fn finalize_import_keeps_deduplicated_blobs_on_failure() {
    let mut desk = Desk::open();
    let pre = desk.seed_manifest("doc-collide", &[("a.rm", b"page")]);
    desk.record_version(&pre, Source::Pulled).unwrap();
    let pre_meta = pre.files.iter().find(|f| f.path.ends_with(".metadata")).unwrap().sha256.clone();
    let pre_meta_bytes = desk.read_blob(&pre_meta).unwrap();
    desk.archive_document("doc-collide", ArchiveReason::Local).unwrap();

    let body = desk.put_blob(b"BODY-39-keep-on-failure");
    let meta = desk.put_blob(&pre_meta_bytes);
    let content = desk.put_blob(b"CONTENT-39-keep-on-failure");
    assert!(matches!(meta.outcome, PutOutcome::Deduplicated));

    let manifest = colliding_manifest(&body, &meta, &content);
    let stored = desk.store_manifest(&manifest);
    let failure = desk
        .lib
        .finalize_import(&manifest, &stored, &body, &meta, &content, "name", "now")
        .expect_err("archived-doc gate must reject");
    for h in &failure.unlink {
        desk.disk.remove(h.as_str());
    }
    assert!(
        desk.lib.has_blob(&meta.hash) && desk.disk.contains_key(meta.hash.as_str()),
        "Deduplicated blob must survive a failed import — it belongs to another manifest",
    );
    let still_readable = desk.read_blob(&pre_meta);
    assert!(still_readable.is_ok(), "must still be readable: {still_readable:?}");
}

#[test]
fn garbage_collect_only_drops_unreferenced_blobs() {
    let mut desk = Desk::open();
    let m = desk.seed_manifest("doc-1", &[("a.rm", b"AAA")]);
    let recorded = desk.record_version(&m, Source::Pulled).unwrap();

    let orphan_bytes = b"i am an orphan blob".to_vec();
    let orphan = desk.put_blob(&orphan_bytes);
    assert!(desk.lib.has_blob(&orphan.hash));

    let report = desk.collect(0);
    assert_eq!(report.deleted, 1);
    assert_eq!(report.bytes_freed, orphan_bytes.len() as u64);
    assert_eq!(report.errors, 0);
    assert!(!desk.lib.has_blob(&orphan.hash));

    assert!(desk.lib.has_blob(&m.files[0].sha256));
    assert!(desk.lib.has_blob(&recorded.manifest_hash));

    let report2 = desk.collect(0);
    assert_eq!(report2.deleted, 0);
}

#[test]
fn garbage_collection_waits_for_the_grace_period() {
    let mut desk = Desk::open();
    desk.put_blob(b"just written");
    assert!(desk.lib.garbage_collect(&desk.blob_files()).is_empty());
    let mut files = desk.blob_files();
    files[0].age = BlobAge::Nanos(59_999_999_999);
    assert!(desk.lib.garbage_collect(&files).is_empty());
    files[0].age = BlobAge::Nanos(60_000_000_000);
    assert_eq!(desk.lib.garbage_collect(&files), vec![0]);
    files[0].age = BlobAge::Future;
    assert!(desk.lib.garbage_collect_with_grace(&files, 0).is_empty());
    files[0].age = BlobAge::Unreadable;
    assert!(desk.lib.garbage_collect_with_grace(&files, 0).is_empty());
    files[0].age = BlobAge::Unknown;
    assert_eq!(desk.lib.garbage_collect(&files), vec![0]);
    let report = collection_report(3, &vec![(10, true), (5, false)]);
    assert_eq!(
        report,
        GarbageCollectReport { scanned: 3, deleted: 1, bytes_freed: 10, errors: 1 }
    );
}

#[test]
fn archive_roundtrip_preserves_history() {
    let mut desk = Desk::open();
    desk.upsert_folder("folder-A", None, "Folder A", "{}");
    let mut m = desk.seed_manifest("doc-1", &[("a.rm", b"AAA")]);
    m.parent = Some("folder-A".into());
    if let Some(map) = m.metadata.as_object_mut() {
        map.insert("parent".into(), text("folder-A"));
    }
    desk.record_version(&m, Source::Pulled).unwrap();

    desk.archive_document("doc-1", ArchiveReason::Local).unwrap();
    assert!(desk.lib.list_documents().unwrap().is_empty());
    let archived = desk.lib.list_archived().unwrap();
    assert_eq!(archived.len(), 1);
    assert_eq!(archived[0].document_id, "doc-1");
    assert_eq!(archived[0].reason, ArchiveReason::Local);
    assert_eq!(archived[0].parent.as_deref(), Some("folder-A"));
    assert!(desk.lib.is_archived("doc-1"));

    let arch_manifest = desk.manifest(&archived[0].manifest_hash);
    assert_eq!(arch_manifest.parent.as_deref(), Some("trash"));
    let meta_file = arch_manifest.files.iter().find(|f| f.path.ends_with(".metadata")).unwrap();
    let meta_bytes = desk.read_blob(&meta_file.sha256).unwrap();
    let meta: serde_json::Value = serde_json::from_slice(&meta_bytes).unwrap();
    assert_eq!(meta.get("deleted").and_then(|v| v.as_bool()), Some(true));
    assert_eq!(meta.get("parent").and_then(|v| v.as_str()), Some("trash"));

    let summary = desk.unarchive_document("doc-1").unwrap();
    assert_eq!(summary.document_id, "doc-1");
    assert_eq!(summary.parent.as_deref(), Some("folder-A"));
    assert!(!desk.lib.is_archived("doc-1"));
    assert_eq!(desk.lib.list_documents().unwrap().len(), 1);
    assert!(desk.lib.list_archived().unwrap().is_empty());

    let history = desk.lib.get_history("doc-1").unwrap();
    assert_eq!(history.len(), 3);
}

#[test]
fn move_document_updates_parent_and_records_new_version() {
    let mut desk = Desk::open();
    let m = desk.seed_manifest("doc-1", &[("a.rm", b"page")]);
    desk.record_version(&m, Source::Pulled).unwrap();

    let outcome = desk.move_document("doc-1", Some("folder-X")).unwrap();
    assert!(!outcome.unchanged);

    let docs = desk.lib.list_documents().unwrap();
    assert_eq!(docs[0].parent.as_deref(), Some("folder-X"));
    let manifest = desk.manifest(&docs[0].current_manifest);
    assert_eq!(manifest.parent.as_deref(), Some("folder-X"));
    let meta_file = manifest.files.iter().find(|f| f.path.ends_with(".metadata")).unwrap();
    let meta: serde_json::Value =
        serde_json::from_slice(&desk.read_blob(&meta_file.sha256).unwrap()).unwrap();
    assert_eq!(meta.get("parent").and_then(|v| v.as_str()), Some("folder-X"));
    assert_eq!(meta.get("lastModified").and_then(|v| v.as_str()), Some("1767323045000"));
    assert_eq!(meta.get("metadatamodified").and_then(|v| v.as_bool()), Some(true));

    desk.move_document("doc-1", None).unwrap();
    let docs = desk.lib.list_documents().unwrap();
    assert_eq!(docs[0].parent, None);
}

#[test]
fn create_folder_writes_pending_push_row_with_metadata() {
    let mut desk = Desk::open();
    let parent = desk.create_folder("Inbox", None).unwrap();
    let child = desk.create_folder("Drafts", Some(&parent.folder_id)).unwrap();

    let folders = desk.lib.list_folders();
    assert_eq!(folders.len(), 2);
    let listed_parent = folders.iter().find(|f| f.folder_id == parent.folder_id).unwrap();
    assert_eq!(listed_parent.parent, None);
    assert_eq!(listed_parent.visible_name, "Inbox");
    let listed_child = folders.iter().find(|f| f.folder_id == child.folder_id).unwrap();
    assert_eq!(listed_child.parent.as_deref(), Some(parent.folder_id.as_str()));

    let pending = desk.lib.list_pending_folder_pushes();
    assert_eq!(pending.len(), 2);
    for op in pending {
        let json = match op {
            FolderPushOp::Upsert { metadata_json, .. } => metadata_json,
            FolderPushOp::Delete { .. } => panic!("create_folder should only enqueue Upsert ops"),
        };
        let v: serde_json::Value = serde_json::from_str(&json).unwrap();
        assert_eq!(v.get("type").and_then(|x| x.as_str()), Some("CollectionType"));
        assert_eq!(v.get("synced").and_then(|x| x.as_bool()), Some(false));
    }
}

#[test]
fn create_folder_rejects_empty_name_and_unknown_parent() {
    let mut desk = Desk::open();
    assert!(desk.create_folder("   ", None).is_err());
    assert!(desk.create_folder("orphan", Some("does-not-exist")).is_err());
    assert!(matches!(desk.create_folder("", None), Err(CoreError::InvalidArgument(_))));
    assert!(matches!(
        desk.create_folder("orphan", Some("does-not-exist")),
        Err(CoreError::NotFound(_))
    ));
}

#[test]
fn reorder_folder_updates_sort_index_and_parent() {
    let mut desk = Desk::open();
    let a = desk.create_folder("A", None).unwrap();
    let b = desk.create_folder("B", None).unwrap();
    let c = desk.create_folder("C", None).unwrap();

    let mid = (number(b.sort_index) + number(c.sort_index)) / 2.0;
    desk.reorder_folder(&a.folder_id, None, mid).unwrap();
    let folders = desk.lib.list_folders();
    let order: Vec<_> = folders.iter().map(|f| f.visible_name.as_str()).collect();
    assert_eq!(order, vec!["B", "A", "C"]);

    desk.reorder_folder(&a.folder_id, Some(&b.folder_id), 0.0).unwrap();
    let a_row = desk.folder(&a.folder_id).unwrap();
    assert_eq!(a_row.parent.as_deref(), Some(b.folder_id.as_str()));
}

#[test]
fn positions_that_are_no_numbers_are_refused() {
    let mut desk = Desk::open();
    let a = desk.create_folder("A", None).unwrap();
    for bad in [f64::NAN, f64::INFINITY, f64::NEG_INFINITY] {
        assert!(matches!(
            desk.reorder_folder(&a.folder_id, None, bad),
            Err(CoreError::InvalidArgument(_))
        ));
    }
    desk.reorder_folder(&a.folder_id, None, -2.5).unwrap();
    assert_eq!(number(desk.folder(&a.folder_id).unwrap().sort_index), -2.5);
    assert!(matches!(
        desk.reorder_folder("missing", None, 1.0),
        Err(CoreError::NotFound(_))
    ));
}

#[test]
fn reparenting_a_folder_queues_a_push_with_the_new_parent() {
    let mut desk = Desk::open();
    let parent = desk.create_folder("Journal", None).unwrap();
    let child = desk.create_folder("BH", None).unwrap();

    desk.lib.mark_folder_pushed(&parent.folder_id, FolderPushKind::Upsert);
    desk.lib.mark_folder_pushed(&child.folder_id, FolderPushKind::Upsert);
    assert!(desk.lib.list_pending_folder_pushes().is_empty());

    desk.reorder_folder(&child.folder_id, Some(&parent.folder_id), 0.0).unwrap();

    let pending = desk.lib.list_pending_folder_pushes();
    let pushed_json = pending
        .iter()
        .find_map(|op| match op {
            FolderPushOp::Upsert { folder_id, metadata_json } if folder_id == &child.folder_id => {
                Some(metadata_json.clone())
            }
            _ => None,
        })
        .expect("reparented child must be flagged for an upsert push");
    let v: serde_json::Value = serde_json::from_str(&pushed_json).unwrap();
    assert_eq!(
        v.get("parent").and_then(|x| x.as_str()),
        Some(parent.folder_id.as_str()),
        "push payload must carry the new parent so the device nests correctly",
    );

    desk.lib.mark_folder_pushed(&child.folder_id, FolderPushKind::Upsert);
    desk.reorder_folder(&child.folder_id, Some(&parent.folder_id), 12345.5).unwrap();
    assert!(
        desk.lib.list_pending_folder_pushes().iter().all(|op| op.folder_id() != child.folder_id),
        "pure sort-only reorder must not flag pending_push",
    );
}

#[test]
fn delete_folder_keeps_children_and_tombstones_for_push() {
    let mut desk = Desk::open();
    let journal = desk.create_folder("Journal", None).unwrap();
    let bh = desk.create_folder("BH", Some(&journal.folder_id)).unwrap();
    let m = desk.seed_manifest("test-doc", &[("a.rm", b"page")]);
    desk.record_version(&m, Source::Pulled).unwrap();
    desk.move_document("test-doc", Some(&journal.folder_id)).unwrap();

    desk.lib.mark_folder_pushed(&journal.folder_id, FolderPushKind::Upsert);
    desk.lib.mark_folder_pushed(&bh.folder_id, FolderPushKind::Upsert);
    assert!(desk.lib.list_pending_folder_pushes().is_empty());

    let outcome = desk.delete_folder(&journal.folder_id).unwrap();
    assert_eq!(outcome.folders_moved, 1);
    assert_eq!(outcome.documents_moved, 1);

    let bh_after = desk.folder(&bh.folder_id).expect("BH must remain after parent's deletion");
    assert!(bh_after.parent.is_none(), "BH should be at root after Journal removed");
    assert!(
        desk.folder(&journal.folder_id).is_none(),
        "deleted folder must vanish from list_folders before sync",
    );

    let doc = desk.document("test-doc").expect("doc still live");
    assert!(doc.parent.is_none(), "doc should be at root after its folder was deleted");

    let pending = desk.lib.list_pending_folder_pushes();
    let journal_op = pending
        .iter()
        .find(|op| op.folder_id() == journal.folder_id)
        .expect("Journal must be in the pending-push set");
    match journal_op {
        FolderPushOp::Delete { .. } => {}
        FolderPushOp::Upsert { .. } => {
            panic!("tombstoned folder must enqueue a hard-Delete, not an Upsert")
        }
    }
    let bh_json = pending
        .iter()
        .find_map(|op| match op {
            FolderPushOp::Upsert { folder_id, metadata_json } if folder_id == &bh.folder_id => {
                Some(metadata_json.clone())
            }
            _ => None,
        })
        .expect("BH must be in the pending-push set as an Upsert");
    let bh_json: serde_json::Value = serde_json::from_str(&bh_json).unwrap();
    assert_eq!(
        bh_json.get("parent").and_then(|v| v.as_str()),
        Some(""),
        "BH's new parent should be the root (empty string on device)",
    );
}

#[test]
fn delete_folder_preserves_grandchildren_under_the_lifted_subfolder() {
    let mut desk = Desk::open();
    let outer = desk.create_folder("Outer", None).unwrap();
    let mid = desk.create_folder("Mid", Some(&outer.folder_id)).unwrap();
    let leaf = desk.create_folder("Leaf", Some(&mid.folder_id)).unwrap();

    desk.delete_folder(&mid.folder_id).unwrap();

    let leaf_after = desk.folder(&leaf.folder_id).unwrap();
    assert_eq!(
        leaf_after.parent.as_deref(),
        Some(outer.folder_id.as_str()),
        "Leaf should reparent to Outer when Mid is removed, not jump to root",
    );
}

#[test]
fn deleting_a_folder_twice_changes_nothing_more() {
    let mut desk = Desk::open();
    let a = desk.create_folder("A", None).unwrap();
    desk.create_folder("B", Some(&a.folder_id)).unwrap();
    assert_eq!(desk.delete_folder(&a.folder_id).unwrap().folders_moved, 1);
    let again = desk.delete_folder(&a.folder_id).unwrap();
    assert_eq!(again.folders_moved, 0);
    assert_eq!(again.documents_moved, 0);
    assert!(matches!(desk.delete_folder("missing"), Err(CoreError::NotFound(_))));
}

#[test]
fn mark_folder_pushed_drops_tombstoned_rows() {
    let mut desk = Desk::open();
    let live = desk.create_folder("Stays", None).unwrap();
    let doomed = desk.create_folder("Goes", None).unwrap();

    desk.rename_folder(&live.folder_id, "Stays Renamed").unwrap();
    desk.lib.mark_folder_pushed(&live.folder_id, FolderPushKind::Upsert);
    assert!(desk.folder(&live.folder_id).is_some());

    desk.delete_folder(&doomed.folder_id).unwrap();
    desk.lib.mark_folder_pushed(&doomed.folder_id, FolderPushKind::Delete);
    assert!(
        desk.lib.folder_rows().get(&doomed.folder_id).is_none(),
        "post-push, the tombstone row must be removed so a future re-create with the same UUID doesn't collide",
    );
}

#[test]
fn unarchive_falls_back_to_root_when_original_parent_was_deleted() {
    let mut desk = Desk::open();
    let folder = desk.create_folder("Stash", None).unwrap();
    let m = desk.seed_manifest("doc-1", &[("a.rm", b"page")]);
    desk.record_version(&m, Source::Pulled).unwrap();
    desk.move_document("doc-1", Some(&folder.folder_id)).unwrap();
    desk.archive_document("doc-1", ArchiveReason::Device).unwrap();

    desk.delete_folder(&folder.folder_id).unwrap();
    desk.lib.mark_folder_pushed(&folder.folder_id, FolderPushKind::Delete);

    let restored = desk.unarchive_document("doc-1").unwrap();
    assert_eq!(
        restored.parent, None,
        "unarchive must fall back to root when the original parent no longer exists",
    );
}

#[test]
fn revert_undoes_unpushed_folder_and_document_changes() {
    let mut desk = Desk::open();
    let device_metadata = r#"{"visibleName":"Journal","parent":"","type":"CollectionType"}"#;
    desk.upsert_folder("journal-uuid", None, "Journal", device_metadata);

    desk.rename_folder("journal-uuid", "Journal (renamed)").unwrap();
    desk.delete_folder("journal-uuid").unwrap();

    let new_folder = desk.create_folder("Inbox", None).unwrap();

    let m = desk.seed_manifest("synced-doc", &[("p.rm", b"page")]);
    desk.record_version(&m, Source::Pulled).unwrap();
    let pre_revert = desk.document("synced-doc").unwrap().current_manifest;
    desk.move_document("synced-doc", Some("journal-uuid")).unwrap();
    let drifted = desk.document("synced-doc").unwrap();
    assert_ne!(
        drifted.current_manifest.as_str(),
        pre_revert.as_str(),
        "precondition: move recorded a new manifest",
    );

    let import = desk.seed_manifest("fresh-import", &[("page.rm", b"new")]);
    desk.record_version(&import, Source::Imported).unwrap();

    let report = desk.lib.revert_unpushed_changes();
    assert_eq!(report.folders_restored, 1, "Journal must be restored");
    assert_eq!(report.folders_dropped, 1, "Inbox (locally-created) must be dropped");
    assert_eq!(report.documents_rolled_back, 1, "synced-doc move must be rolled back");

    let journal_after = desk.folder("journal-uuid").expect("Journal must be back in the sidebar");
    assert_eq!(journal_after.visible_name, "Journal");
    assert!(
        desk.folder(&new_folder.folder_id).is_none(),
        "locally-created folder must be removed by revert",
    );

    let synced_after = desk.document("synced-doc").unwrap();
    assert_eq!(
        synced_after.current_manifest.as_str(),
        pre_revert.as_str(),
        "synced doc must be back at the last-seen manifest",
    );

    assert!(
        desk.document("fresh-import").is_some(),
        "Revert must not delete locally-imported docs",
    );

    let again = desk.lib.revert_unpushed_changes();
    assert_eq!(again.folders_restored, 0);
    assert_eq!(again.folders_dropped, 0);
    assert_eq!(again.documents_rolled_back, 0);
}

#[test]
fn reorder_folder_rejects_self_or_descendant_target() {
    let mut desk = Desk::open();
    let a = desk.create_folder("A", None).unwrap();
    let b = desk.create_folder("B", Some(&a.folder_id)).unwrap();
    assert!(desk.reorder_folder(&a.folder_id, Some(&a.folder_id), 0.0).is_err());
    assert!(desk.reorder_folder(&a.folder_id, Some(&b.folder_id), 0.0).is_err());
    let c = desk.create_folder("C", Some(&b.folder_id)).unwrap();
    assert!(desk.reorder_folder(&a.folder_id, Some(&c.folder_id), 0.0).is_err());
    assert!(desk.reorder_folder(&c.folder_id, Some(&a.folder_id), 0.0).is_ok());
}

#[test]
fn upsert_folder_preserves_local_sort_index_on_repull() {
    let mut desk = Desk::open();
    desk.upsert_folder("dev-1", None, "Pulled", "{}");
    desk.reorder_folder("dev-1", None, 999.5).unwrap();
    desk.upsert_folder("dev-1", None, "Pulled", "{\"v\":2}");
    let row = desk.folder("dev-1").unwrap();
    assert!((number(row.sort_index) - 999.5).abs() < f64::EPSILON);
}

#[test]
fn upsert_folder_keeps_a_rename_that_is_yet_to_be_pushed() {
    let mut desk = Desk::open();
    desk.upsert_folder("dev-1", None, "Pulled", "{}");
    desk.rename_folder("dev-1", "Mine").unwrap();
    desk.upsert_folder("dev-1", None, "Pulled", "{}");
    assert_eq!(desk.folder("dev-1").unwrap().visible_name, "Mine");
    assert!(matches!(desk.rename_folder("dev-1", " \t"), Err(CoreError::InvalidArgument(_))));
}

#[test]
fn purge_archived_drops_versions_and_lets_gc_reclaim() {
    let mut desk = Desk::open();
    let m = desk.seed_manifest("doc-1", &[("a.rm", b"unique-bytes-for-purge-test")]);
    desk.record_version(&m, Source::Pulled).unwrap();
    let body_hash = m.files.iter().find(|f| f.path == "a.rm").unwrap().sha256.clone();
    assert!(desk.lib.has_blob(&body_hash));

    desk.archive_document("doc-1", ArchiveReason::Device).unwrap();
    desk.lib.purge_archived_document("doc-1").unwrap();

    assert!(desk.lib.list_archived().unwrap().is_empty());
    assert!(desk.lib.get_history("doc-1").unwrap().is_empty());

    let report = desk.collect(0);
    assert!(report.deleted >= 1, "purge should free at least one blob");
    assert!(!desk.lib.has_blob(&body_hash));
}

#[test]
fn purge_queues_a_deletion_only_for_what_the_device_has_had() {
    let mut desk = Desk::open();
    let pulled = desk.seed_manifest("pulled", &[("a.rm", b"1")]);
    desk.record_version(&pulled, Source::Pulled).unwrap();
    let imported = desk.seed_manifest("imported", &[("b.rm", b"2")]);
    desk.record_version(&imported, Source::Imported).unwrap();
    for id in ["pulled", "imported"] {
        desk.archive_document(id, ArchiveReason::Local).unwrap();
        desk.lib.purge_archived_document(id).unwrap();
    }
    assert_eq!(desk.lib.list_device_deletion_queue(), vec!["pulled".to_string()]);
    desk.lib.dequeue_device_deletion("pulled");
    assert!(desk.lib.list_device_deletion_queue().is_empty());
}

#[test]
fn purge_missing_archive_entry_errors() {
    let mut desk = Desk::open();
    let err = desk.lib.purge_archived_document("never-existed").unwrap_err();
    assert!(matches!(err, CoreError::NotFound(_)));
}

#[test]
fn dedup_across_documents() {
    let mut desk = Desk::open();
    let shared = b"shared bytes";
    let put = desk.put_blob(shared);
    for doc in ["doc-a", "doc-b"] {
        let mut m = Manifest::new(doc, "Notebook", doc);
        m.files.push(file("shared", &put));
        desk.record_version(&m, Source::Pulled).unwrap();
    }
    assert_eq!(desk.put_blob(shared).outcome, PutOutcome::Deduplicated);
    let matching = desk.blob_files().iter().filter(|f| f.name == put.hash.as_str()).count();
    assert_eq!(matching, 1, "blob should be stored exactly once");
}

#[test]
fn record_derived_artefact_attaches_under_ocr_prefix_and_round_trips() {
    let mut desk = Desk::open();
    let m = desk.seed_manifest("doc-1", &[("doc-1.content", b"{}")]);
    desk.record_version(&m, Source::Pulled).unwrap();

    let outcome = desk.record_derived("doc-1", "ocr/transcript.md", b"# Hello\n\nWorld").unwrap();
    let bytes = desk
        .read_derived(outcome.version_id, "ocr/transcript.md")
        .unwrap()
        .expect("transcript should be readable");
    assert_eq!(bytes, b"# Hello\n\nWorld");

    let outcome2 = desk.record_derived("doc-1", "ocr/transcript.md", b"# Updated").unwrap();
    assert_ne!(outcome.version_id, outcome2.version_id);
    let bytes2 = desk.read_derived(outcome2.version_id, "ocr/transcript.md").unwrap().unwrap();
    assert_eq!(bytes2, b"# Updated");
    let entry = desk.lib.get_version(outcome2.version_id).unwrap();
    let m = desk.manifest(&entry.manifest_hash);
    let transcripts: Vec<_> = m.files.iter().filter(|f| f.path == "ocr/transcript.md").collect();
    assert_eq!(transcripts.len(), 1);
    assert!(transcripts[0].derived);
    assert!(desk.read_derived(outcome2.version_id, "ocr/other.md").unwrap().is_none());
}

#[test]
fn record_derived_artefact_does_not_dirty_an_already_synced_doc() {
    let mut desk = Desk::open();
    let m = desk.seed_manifest("doc-1", &[("doc-1.content", b"{}")]);
    let pulled = desk.record_version(&m, Source::Pulled).unwrap();
    assert!(!desk.dirty("doc-1"));

    let derived = desk.record_derived("doc-1", "ocr/transcript.md", b"hello").unwrap();
    assert_ne!(derived.version_id, pulled.version_id);
    assert!(!desk.dirty("doc-1"), "derived-only change must not flip has_unpushed_changes");
}

#[test]
fn record_derived_artefact_preserves_pending_unpushed_changes() {
    let mut desk = Desk::open();
    let m = desk.seed_manifest("doc-1", &[("doc-1.content", b"{}")]);
    desk.record_version(&m, Source::Pulled).unwrap();

    desk.rename_document("doc-1", "Renamed").unwrap();
    assert!(desk.dirty("doc-1"));

    desk.record_derived("doc-1", "ocr/transcript.md", b"hi").unwrap();
    assert!(
        desk.dirty("doc-1"),
        "rename was already pending; OCR must not silence the unsynced state"
    );
}

#[test]
fn record_derived_artefact_rejects_non_ocr_paths() {
    let mut desk = Desk::open();
    let m = desk.seed_manifest("doc-1", &[("doc-1.content", b"{}")]);
    desk.record_version(&m, Source::Pulled).unwrap();
    let r = desk.record_derived("doc-1", "evil/exec.sh", b"#!/bin/sh");
    match r {
        Err(CoreError::InvalidArgument(m)) => assert_eq!(
            m,
            "derived artefact path must live under `ocr/`, got \"evil/exec.sh\""
        ),
        other => panic!("expected InvalidArgument, got {other:?}"),
    }
}

#[test]
fn mark_folder_pushed_with_upsert_kind_preserves_concurrent_tombstone() {
    let mut desk = Desk::open();
    let folder = desk.create_folder("Doomed", None).unwrap();
    desk.lib.mark_folder_pushed(&folder.folder_id, FolderPushKind::Upsert);
    assert!(desk.lib.list_pending_folder_pushes().is_empty());

    desk.rename_folder(&folder.folder_id, "Renamed").unwrap();
    desk.delete_folder(&folder.folder_id).unwrap();
    desk.lib.mark_folder_pushed(&folder.folder_id, FolderPushKind::Upsert);

    let pending = desk.lib.list_pending_folder_pushes();
    let queued_delete = pending.iter().any(
        |op| matches!(op, FolderPushOp::Delete { folder_id } if folder_id == &folder.folder_id),
    );
    assert!(
        queued_delete,
        "Upsert completion must NOT silently absorb a concurrent Delete — row should still be queued for tombstoning",
    );
}

#[test]
fn unarchive_falls_back_when_parent_is_soft_deleted_but_not_yet_pushed() {
    let mut desk = Desk::open();
    let folder = desk.create_folder("Stash", None).unwrap();
    let m = desk.seed_manifest("doc-1", &[("a.rm", b"page")]);
    desk.record_version(&m, Source::Pulled).unwrap();
    desk.move_document("doc-1", Some(&folder.folder_id)).unwrap();
    desk.archive_document("doc-1", ArchiveReason::Device).unwrap();

    desk.delete_folder(&folder.folder_id).unwrap();
    let row = desk.lib.folder_rows().get(&folder.folder_id);
    assert!(
        row.map(|r| r.deleted_locally).unwrap_or(false),
        "precondition: folder is soft-deleted but row still present",
    );

    let restored = desk.unarchive_document("doc-1").unwrap();
    assert_eq!(
        restored.parent, None,
        "unarchive must fall back to root when the parent is soft-deleted but not yet pushed",
    );
}

#[test]
fn revert_after_subsequent_push_restores_to_latest_pushed_snapshot() {
    let mut desk = Desk::open();
    let folder = desk.create_folder("A", None).unwrap();
    desk.lib.mark_folder_pushed(&folder.folder_id, FolderPushKind::Upsert);

    desk.rename_folder(&folder.folder_id, "B").unwrap();
    desk.lib.revert_unpushed_changes();
    assert_eq!(
        desk.folder(&folder.folder_id).unwrap().visible_name,
        "A",
        "first revert restores to original push"
    );

    desk.rename_folder(&folder.folder_id, "C").unwrap();
    desk.lib.mark_folder_pushed(&folder.folder_id, FolderPushKind::Upsert);

    desk.rename_folder(&folder.folder_id, "D").unwrap();
    desk.lib.revert_unpushed_changes();
    assert_eq!(
        desk.folder(&folder.folder_id).unwrap().visible_name,
        "C",
        "second revert must restore to the latest pushed state, not the original",
    );
}

#[test]
fn move_document_on_archived_row_does_not_resurrect_it() {
    let mut desk = Desk::open();
    let m = desk.seed_manifest("doc-1", &[("a.rm", b"page")]);
    desk.record_version(&m, Source::Pulled).unwrap();
    let folder = desk.create_folder("Anywhere", None).unwrap();

    desk.archive_document("doc-1", ArchiveReason::Device).unwrap();
    assert!(desk.lib.is_archived("doc-1"));
    assert!(desk.document("doc-1").is_none());

    let r = desk.move_document("doc-1", Some(&folder.folder_id));
    assert!(matches!(r, Err(CoreError::NotFound(_))));

    assert!(
        desk.lib.is_archived("doc-1"),
        "doc must remain archived after a stray move_document call",
    );
    assert!(
        desk.document("doc-1").is_none(),
        "archived doc must NOT appear in list_documents after a move attempt",
    );
}

#[test]
fn record_version_on_archived_doc_is_rejected_not_resurrected() {
    let mut desk = Desk::open();
    let m = desk.seed_manifest("doc-1", &[("a.rm", b"page-v1")]);
    desk.record_version(&m, Source::Pulled).unwrap();

    desk.archive_document("doc-1", ArchiveReason::Local).unwrap();
    assert!(desk.lib.is_archived("doc-1"));

    let m2 = desk.seed_manifest("doc-1", &[("a.rm", b"page-v2")]);
    let err = desk
        .record_version(&m2, Source::Pulled)
        .expect_err("archived doc must reject a Pulled record_version");
    assert!(
        matches!(err, CoreError::DocumentArchived(ref id) if id == "doc-1"),
        "expected DocumentArchived, got {err:?}",
    );

    assert!(desk.lib.is_archived("doc-1"), "archive entry must survive the rejected pull");
    assert!(
        desk.document("doc-1").is_none(),
        "archived doc must NOT appear in list_documents after a rejected pull",
    );
    assert!(
        desk.lib.document_rows().get("doc-1").is_none(),
        "documents row must not be resurrected by a Pulled record_version",
    );
}

#[test]
fn a_fresh_folder_has_no_synced_snapshot() {
    let mut desk = Desk::open();
    let folder = desk.create_folder("Fresh", None).unwrap();
    let row = desk.lib.folder_rows().get(&folder.folder_id).unwrap();
    assert!(
        row.last_synced_metadata_json.is_none(),
        "locally-created folder must start with NULL snapshot",
    );
}

#[test]
fn restoring_a_version_appends_it_again() {
    let mut desk = Desk::open();
    let m1 = desk.seed_manifest("doc-1", &[("a.rm", b"v1")]);
    let first = desk.record_version(&m1, Source::Pulled).unwrap();
    let m2 = desk.seed_manifest("doc-1", &[("a.rm", b"v2")]);
    desk.record_version(&m2, Source::Pulled).unwrap();
    let back = desk.lib.restore_version(first.version_id, NOW).unwrap();
    assert!(!back.unchanged);
    assert_eq!(back.manifest_hash.as_str(), first.manifest_hash.as_str());
    let history = desk.lib.get_history("doc-1").unwrap();
    assert_eq!(history.len(), 3);
    assert_eq!(history[2].source, Source::Restored);
    assert!(desk.dirty("doc-1"));
    assert_eq!(desk.lib.version_count(), 3);
    match desk.lib.restore_version(99, NOW) {
        Err(CoreError::NotFound(m)) => assert_eq!(m, "version 99"),
        other => panic!("expected NotFound, got {other:?}"),
    }
}

#[test]
fn notes_are_kept_with_their_version() {
    let mut desk = Desk::open();
    let m = desk.seed_manifest("doc-1", &[("a.rm", b"v1")]);
    let r = desk.record_version(&m, Source::Pulled).unwrap();
    desk.lib.set_version_note(r.version_id, Some("before the edit")).unwrap();
    let entry = desk.lib.get_version(r.version_id).unwrap();
    assert_eq!(entry.note.as_deref(), Some("before the edit"));
    assert_eq!(entry.file_count, Some(2));
    desk.lib.set_version_note(r.version_id, None).unwrap();
    assert_eq!(desk.lib.get_version(r.version_id).unwrap().note, None);
    assert!(matches!(desk.lib.set_version_note(7, None), Err(CoreError::NotFound(_))));
}

#[test]
fn a_document_that_lost_its_manifest_is_reported() {
    let mut desk = Desk::open();
    let m = desk.seed_manifest("doc-1", &[("a.rm", b"v1")]);
    let r = desk.record_version(&m, Source::Pulled).unwrap();
    desk.lose_blob(&r.manifest_hash);
    match desk.lib.list_documents() {
        Err(CoreError::MissingBlob(h)) => assert_eq!(h, r.manifest_hash.as_str()),
        other => panic!("expected MissingBlob, got {other:?}"),
    }
    let entry = desk.lib.get_version(r.version_id).unwrap();
    assert_eq!(entry.total_size_bytes, None);
}

#[test]
fn metadata_that_is_no_object_cannot_be_edited() {
    let mut desk = Desk::open();
    let put = desk.put_blob(b"[1]");
    let mut m = Manifest::new("doc-1", "Notebook", "Test");
    m.files = vec![file("doc-1.metadata", &put)];
    desk.record_version(&m, Source::Pulled).unwrap();
    assert!(matches!(
        desk.rename_document("doc-1", "New"),
        Err(CoreError::Corrupt { .. })
    ));
    let broken = desk.put_blob(b"{");
    m.files = vec![file("doc-1.metadata", &broken)];
    desk.record_version(&m, Source::Pulled).unwrap();
    assert!(matches!(desk.rename_document("doc-1", "New"), Err(CoreError::Json(_))));
    m.files = Vec::new();
    desk.record_version(&m, Source::Pulled).unwrap();
    match desk.rename_document("doc-1", "New") {
        Err(CoreError::Corrupt { reason, .. }) => {
            assert_eq!(reason, "document doc-1 has no .metadata file")
        }
        other => panic!("expected Corrupt, got {other:?}"),
    }
}

#[test]
fn what_the_device_has_is_tracked_per_document() {
    let mut desk = Desk::open();
    let m = desk.seed_manifest("doc-1", &[("a.rm", b"v1")]);
    let r = desk.record_version(&m, Source::Imported).unwrap();
    assert!(desk.dirty("doc-1"));
    assert_eq!(desk.lib.list_pushable_documents().unwrap().len(), 1);
    desk.lib.update_last_seen_manifest("doc-1", r.manifest_hash.as_str(), NOW);
    assert!(!desk.dirty("doc-1"));
    assert_eq!(
        desk.lib.last_seen("doc-1"),
        Some((None, Some(r.manifest_hash.as_str().to_string())))
    );
    desk.lib.update_mtime_hint("doc-1", "12345");
    assert_eq!(
        desk.lib.last_seen("doc-1"),
        Some((Some("12345".to_string()), Some(r.manifest_hash.as_str().to_string())))
    );
    assert_eq!(desk.lib.previously_synced_ids(), vec!["doc-1".to_string()]);
    assert_eq!(desk.lib.last_seen("other"), None);
}

fn plan(desk: &Desk, version: i64) -> Vec<(String, String)> {
    desk.lib
        .reconstruct(version, "/out")
        .unwrap()
        .into_iter()
        .map(|f| (f.blob.as_str().to_string(), f.target))
        .collect()
}

#[test]
fn a_past_version_is_exported_as_it_was() {
    let mut desk = Desk::open();
    let old = desk.seed_manifest("doc-1", &[("a.rm", b"first")]);
    let first = desk.record_version(&old, Source::Pulled).unwrap().version_id;
    let expected = vec![
        (old.files[0].sha256.as_str().to_string(), "/out/doc-1.metadata".to_string()),
        (Sha256Hex::from_bytes(b"first").as_str().to_string(), "/out/a.rm".to_string()),
    ];
    assert_eq!(plan(&desk, first), expected);

    let new = desk.seed_manifest("doc-1", &[("a.rm", b"second")]);
    let second = desk.record_version(&new, Source::Imported).unwrap().version_id;
    assert_ne!(plan(&desk, second), expected);
    desk.rename_document("doc-1", "Renamed").unwrap();
    desk.record_derived("doc-1", "ocr/page.txt", b"text").unwrap();
    desk.archive_document("doc-1", ArchiveReason::Local).unwrap();
    desk.lib.revert_unpushed_changes();
    assert_eq!(plan(&desk, first), expected);
}

#[test]
fn a_purge_keeps_the_exports_of_other_documents() {
    let mut desk = Desk::open();
    let kept = desk.seed_manifest("doc-1", &[("a.rm", b"kept")]);
    let gone = desk.seed_manifest("doc-2", &[("b.rm", b"gone")]);
    let kept = desk.record_version(&kept, Source::Pulled).unwrap().version_id;
    let gone = desk.record_version(&gone, Source::Pulled).unwrap().version_id;
    let expected = plan(&desk, kept);
    desk.archive_document("doc-2", ArchiveReason::Local).unwrap();
    desk.lib.purge_archived_document("doc-2").unwrap();
    assert_eq!(plan(&desk, kept), expected);
    assert!(matches!(desk.lib.reconstruct(gone, "/out"), Err(CoreError::NotFound(_))));
}

#[test]
fn an_edit_spares_the_contents() {
    let mut desk = Desk::open();
    let m = desk.seed_manifest("doc-1", &[("a.rm", b"page"), ("b.rm", b"more")]);
    desk.record_version(&m, Source::Pulled).unwrap();
    let edited = desk.rename_document("doc-1", "  New name ").unwrap();
    let after = desk.manifest(&edited.manifest_hash);
    assert_eq!(after.visible_name, "New name");
    assert_eq!(after.doc_type, m.doc_type);
    assert_eq!(after.files.len(), 3);
    assert_eq!(after.files[1].sha256, m.files[1].sha256);
    assert_eq!(after.files[2].sha256, m.files[2].sha256);
    assert_ne!(after.files[0].sha256, m.files[0].sha256);
    let folder = desk.create_folder("Box", None).unwrap();
    let moved = desk.move_document("doc-1", Some(&folder.folder_id)).unwrap();
    let after = desk.manifest(&moved.manifest_hash);
    assert_eq!(after.parent.as_deref(), Some(folder.folder_id.as_str()));
    assert_eq!(after.visible_name, "New name");
    assert_eq!(after.files[1].sha256, m.files[1].sha256);
}

#[test]
fn an_import_lands_in_its_folder() {
    let mut desk = Desk::open();
    let body = desk.put_blob(b"%PDF-1.7 more fake bytes");
    let doc = Library::import_file("id-2", ImportKind::Pdf, "Paper", Some("folder-X"), &body, NOW_MS);
    let meta = desk.put_blob(&doc.metadata_bytes);
    let content = desk.put_blob(&doc.content_bytes);
    let stored = desk.store_manifest(&doc.manifest);
    let summary = desk
        .lib
        .finalize_import(&doc.manifest, &stored, &body, &meta, &content, "Paper", NOW)
        .unwrap();
    assert_eq!(summary.parent.as_deref(), Some("folder-X"));
    assert_eq!(summary.size_bytes, body.size + meta.size + content.size);
    assert_eq!(summary.page_count, Some(0));
    let listed = desk.document("id-2").unwrap();
    assert_eq!(listed.parent.as_deref(), Some("folder-X"));
    assert_eq!(listed.size_bytes, summary.size_bytes);
    assert_eq!(listed.page_count, summary.page_count);
    let rooted = Library::import_file("id-3", ImportKind::Pdf, "Paper", Some(""), &body, NOW_MS);
    assert_eq!(rooted.manifest.parent, None);
}

#[test]
fn a_failed_import_leaves_no_new_blob() {
    let mut desk = Desk::open();
    let pre = desk.seed_manifest("doc-collide", &[("a.rm", b"page")]);
    desk.record_version(&pre, Source::Pulled).unwrap();
    desk.archive_document("doc-collide", ArchiveReason::Local).unwrap();
    let before: Vec<String> = desk.blob_files().into_iter().map(|f| f.name).collect();

    let body = desk.put_blob(b"one");
    let meta = desk.put_blob(b"two");
    let content = desk.put_blob(b"one");
    assert_eq!(content.outcome, PutOutcome::Deduplicated);
    let manifest = colliding_manifest(&body, &meta, &content);
    let stored = desk.store_manifest(&manifest);
    let failure = desk
        .lib
        .finalize_import(&manifest, &stored, &body, &meta, &content, "name", "now")
        .expect_err("the document is archived");
    assert_eq!(failure.unlink.len(), 3);
    for h in &failure.unlink {
        desk.disk.remove(h.as_str());
    }
    let after: Vec<String> = desk.blob_files().into_iter().map(|f| f.name).collect();
    assert_eq!(after, before);
    for name in [&body.hash, &meta.hash, &stored.hash] {
        assert!(!desk.lib.has_blob(name));
    }
}

#[test]
fn a_late_edit_is_refused() {
    let mut desk = Desk::open();
    let m = desk.seed_manifest("doc-1", &[("a.rm", b"AAA")]);
    desk.record_version(&m, Source::Pulled).unwrap();

    let slow = desk.lib.rename_document("doc-1", "Slow").unwrap();
    let artefact = desk.lib.attach_derived_artefact("doc-1", "ocr/p1.md", b"text").unwrap();
    desk.rename_document("doc-1", "Quick").unwrap();
    assert!(matches!(desk.edit(slow), Err(CoreError::InvalidArgument(_))));
    desk.put_blob(b"text");
    let hash = desk.put_manifest(&artefact.manifest);
    assert!(matches!(
        desk.lib.record_derived_artefact(&artefact, &hash, NOW),
        Err(CoreError::InvalidArgument(_))
    ));
    assert_eq!(desk.document("doc-1").unwrap().visible_name, "Quick");
    assert_eq!(desk.lib.get_history("doc-1").unwrap().len(), 2);
}

#[test]
fn an_edit_does_not_reach_a_document_that_was_archived_meanwhile() {
    let mut desk = Desk::open();
    let m = desk.seed_manifest("doc-1", &[("a.rm", b"AAA")]);
    desk.record_version(&m, Source::Pulled).unwrap();
    let slow = desk.lib.rename_document("doc-1", "Slow").unwrap();
    let artefact = desk.lib.attach_derived_artefact("doc-1", "ocr/p1.md", b"text").unwrap();
    desk.archive_document("doc-1", ArchiveReason::Local).unwrap();
    assert!(matches!(desk.edit(slow), Err(CoreError::NotFound(_))));
    let hash = desk.put_manifest(&artefact.manifest);
    assert!(matches!(
        desk.lib.record_derived_artefact(&artefact, &hash, NOW),
        Err(CoreError::NotFound(_))
    ));
    assert!(desk.lib.is_archived("doc-1"));
    assert!(desk.document("doc-1").is_none());
}

#[test]
fn paths_that_lead_out_of_a_document_are_refused() {
    for path in ["../x", "/etc/passwd", "a/../../b", "", ".", "a/.."] {
        let mut desk = Desk::open();
        let m = desk.seed_manifest("doc-1", &[("a.rm", b"AAA"), (path, b"BBB")]);
        assert!(m.validate_paths().is_err(), "{path:?}");
        match desk.record_version(&m, Source::Pulled) {
            Err(CoreError::InvalidArgument(said)) => {
                assert_eq!(
                    said,
                    format!("manifest path {path:?} does not stay inside the document")
                );
            }
            other => panic!("{path:?}: {other:?}"),
        }
        assert_eq!(desk.lib.version_count(), 0);
    }
    let mut desk = Desk::open();
    let m = desk.seed_manifest("doc-1", &[("a.rm", b"AAA"), ("doc/./page..rm", b"BBB")]);
    let r = desk.record_version(&m, Source::Pulled).unwrap();
    let plan = desk.lib.reconstruct(r.version_id, "/out").unwrap();
    assert!(plan.iter().all(|f| f.target.starts_with("/out/")));
    assert!(matches!(
        desk.record_derived("doc-1", "ocr/../../x", b"text"),
        Err(CoreError::InvalidArgument(_))
    ));
}

#[test]
fn a_version_that_leads_out_is_not_exported() {
    let mut desk = Desk::open();
    let m = desk.seed_manifest("doc-1", &[("../x", b"AAA")]);
    let hash = desk.put_manifest(&m);
    desk.lib.load_version(logged(7, "doc-1", hash.as_str())).unwrap();
    assert!(matches!(desk.lib.reconstruct(7, "/out"), Err(CoreError::InvalidArgument(_))));
}

fn logged(id: i64, document_id: &str, manifest_hash: &str) -> VersionRow {
    VersionRow {
        id,
        document_id: document_id.to_string(),
        manifest_hash: manifest_hash.to_string(),
        parent_version_id: None,
        observed_at: NOW.to_string(),
        source: "pulled".to_string(),
        note: None,
    }
}

fn live(document_id: &str, manifest_hash: &str, version_id: i64) -> DocumentRow {
    DocumentRow {
        document_id: document_id.to_string(),
        current_manifest: manifest_hash.to_string(),
        current_version_id: version_id,
    }
}

#[test]
fn records_that_contradict_each_other_are_taken_as_they_are() {
    let mut desk = Desk::open();
    let m = desk.seed_manifest("doc-1", &[("a.rm", b"AAA")]);
    let hash = desk.put_manifest(&m);
    desk.lib.load_document(live("doc-1", hash.as_str(), 7));
    assert!(desk.lib.list_documents().unwrap().is_empty());
    desk.rename_document("doc-1", "Found").unwrap();
    assert_eq!(desk.document("doc-1").unwrap().visible_name, "Found");

    desk.lib.load_archived(ArchiveRow {
        document_id: "doc-1".to_string(),
        visible_name: "Test".to_string(),
        doc_type: "Notebook".to_string(),
        parent: None,
        manifest_hash: hash.as_str().to_string(),
        version_id: 7,
        reason: "local".to_string(),
        archived_at: NOW.to_string(),
    });
    assert!(desk.lib.is_archived("doc-1"));
    assert!(desk.document("doc-1").is_some());
    assert!(matches!(
        desk.record_version(&m, Source::Pulled),
        Err(CoreError::DocumentArchived(_))
    ));
    desk.rename_document("doc-1", "Still live").unwrap();
    desk.unarchive_document("doc-1").unwrap();
    assert!(!desk.lib.is_archived("doc-1"));
}

#[test]
fn the_log_is_kept_in_the_order_of_its_numbers() {
    let mut desk = Desk::open();
    let m = desk.seed_manifest("doc-1", &[("a.rm", b"AAA")]);
    let hash = desk.put_manifest(&m);
    for id in [9, -3, 4, 20] {
        desk.lib.load_version(logged(id, "doc-1", hash.as_str())).unwrap();
    }
    match desk.lib.load_version(logged(4, "doc-2", hash.as_str())) {
        Err(CoreError::Sqlite(said)) => {
            assert_eq!(said, "UNIQUE constraint failed: versions.id")
        }
        other => panic!("{other:?}"),
    }
    let ids: Vec<i64> = desk.lib.get_history("doc-1").unwrap().iter().map(|v| v.id).collect();
    assert_eq!(ids, vec![-3, 4, 9, 20]);
    assert_eq!(desk.record_version(&m, Source::Pulled).unwrap().version_id, 21);
    desk.lib.reserve_version_ids(30);
    desk.lib.reserve_version_ids(25);
    assert_eq!(desk.rename_document("doc-1", "Next").unwrap().version_id, 31);
}

#[test]
fn the_greatest_number_is_the_last_one() {
    let mut desk = Desk::open();
    let m = desk.seed_manifest("doc-1", &[("a.rm", b"AAA")]);
    desk.lib.reserve_version_ids(i64::MAX - 1);
    assert_eq!(desk.record_version(&m, Source::Pulled).unwrap().version_id, i64::MAX);
    assert!(desk.record_version(&m, Source::Pulled).unwrap().unchanged);
    match desk.rename_document("doc-1", "One too many") {
        Err(CoreError::Sqlite(said)) => assert_eq!(said, "database or disk is full"),
        other => panic!("{other:?}"),
    }
    assert_eq!(desk.lib.version_count(), 1);
}

#[test]
fn a_version_goes_to_the_document_that_its_manifest_names() {
    let mut desk = Desk::open();
    let m = desk.seed_manifest("doc-1", &[("a.rm", b"AAA")]);
    let hash = desk.put_manifest(&m);
    desk.lib.load_version(logged(1, "alias", hash.as_str())).unwrap();
    desk.lib.load_document(live("alias", hash.as_str(), 1));
    let r = desk.lib.restore_version(1, NOW).unwrap();
    assert!(!r.unchanged);
    assert_eq!(desk.document("doc-1").unwrap().current_version_id, r.version_id);
    assert_eq!(desk.document("alias").unwrap().current_version_id, 1);
    let r = desk.rename_document("alias", "Renamed").unwrap();
    assert_eq!(desk.document("doc-1").unwrap().current_version_id, r.version_id);
    assert_eq!(desk.document("alias").unwrap().current_version_id, 1);
    let r = desk.record_derived("alias", "ocr/p1.md", b"text").unwrap();
    assert_eq!(desk.document("doc-1").unwrap().current_version_id, r.version_id);
    assert_eq!(desk.document("alias").unwrap().current_version_id, 1);
}

#[test]
fn an_unchanged_pull_adds_nothing_to_what_is_known_of_the_device() {
    let mut desk = Desk::open();
    let m = desk.seed_manifest("doc-1", &[("a.rm", b"AAA")]);
    let hash = desk.put_manifest(&m);
    desk.lib.load_version(logged(1, "doc-1", hash.as_str())).unwrap();
    desk.lib.load_document(live("doc-1", hash.as_str(), 1));
    assert!(desk.record_version(&m, Source::Pulled).unwrap().unchanged);
    assert!(desk.lib.last_seen("doc-1").is_none());
    assert!(desk.dirty("doc-1"));
}

#[test]
fn an_unchanged_pull_settles_an_imported_document() {
    let mut desk = Desk::open();
    let m = desk.seed_manifest("doc-1", &[("a.rm", b"AAA")]);
    let r = desk.record_version(&m, Source::Imported).unwrap();
    assert!(desk.dirty("doc-1"));
    assert!(desk.record_version(&m, Source::Imported).unwrap().unchanged);
    assert!(desk.dirty("doc-1"));
    assert!(desk.record_version(&m, Source::Pulled).unwrap().unchanged);
    assert!(!desk.dirty("doc-1"));
    let (_, seen) = desk.lib.last_seen("doc-1").unwrap();
    assert_eq!(seen.as_deref(), Some(r.manifest_hash.as_str()));
}

#[test]
fn an_unreadable_blob_counts_as_corrupted() {
    let mut desk = Desk::open();
    let m = desk.seed_manifest("doc-1", &[("a.rm", b"AAA")]);
    desk.record_version(&m, Source::Pulled).unwrap();
    let mut files = desk.blob_files();
    let total = files.len();
    files[0].contents = BlobContents::Unreadable;
    let report = desk.lib.verify(&files);
    assert_eq!(report.blobs_corrupted, 1);
    assert_eq!(report.blobs_total, total);
    files[0].contents = BlobContents::NotRead;
    assert_eq!(desk.lib.verify(&files).blobs_corrupted, 0);
}

#[test]
fn a_deleted_folder_leaves_its_contents_where_it_was() {
    let mut desk = Desk::open();
    let top = desk.create_folder("Top", None).unwrap();
    let gone = desk.create_folder("Gone", Some(&top.folder_id)).unwrap();
    let inner = desk.create_folder("Inner", Some(&gone.folder_id)).unwrap();
    let deep = desk.create_folder("Deep", Some(&inner.folder_id)).unwrap();
    let aside = desk.create_folder("Aside", None).unwrap();
    for (id, place) in [("d1", &gone), ("d2", &inner), ("d3", &aside), ("d4", &gone)] {
        let m = desk.seed_manifest(id, &[("a.rm", id.as_bytes())]);
        desk.record_version(&m, Source::Pulled).unwrap();
        desk.move_document(id, Some(&place.folder_id)).unwrap();
    }
    desk.archive_document("d4", ArchiveReason::Local).unwrap();

    let outcome = desk.delete_folder(&gone.folder_id).unwrap();
    assert_eq!(outcome.folders_moved, 1);
    assert_eq!(outcome.documents_moved, 1);
    assert!(desk.folder(&gone.folder_id).is_none());
    let parent = |id: &str| desk.folder(id).unwrap().parent;
    assert_eq!(parent(&inner.folder_id).as_deref(), Some(top.folder_id.as_str()));
    assert_eq!(parent(&deep.folder_id).as_deref(), Some(inner.folder_id.as_str()));
    assert_eq!(parent(&top.folder_id), None);
    assert_eq!(parent(&aside.folder_id), None);
    assert_eq!(desk.lib.list_folders().len(), 4);
    let place = |id: &str| desk.document(id).unwrap().parent;
    assert_eq!(place("d1").as_deref(), Some(top.folder_id.as_str()));
    assert_eq!(place("d2").as_deref(), Some(inner.folder_id.as_str()));
    assert_eq!(place("d3").as_deref(), Some(aside.folder_id.as_str()));
    let archived = desk.lib.list_archived().unwrap();
    assert_eq!(archived[0].parent.as_deref(), Some(gone.folder_id.as_str()));

    let versions = desk.lib.version_count();
    let again = desk.delete_folder(&gone.folder_id).unwrap();
    assert_eq!((again.folders_moved, again.documents_moved), (0, 0));
    assert_eq!(desk.lib.version_count(), versions);
    assert_eq!(desk.lib.list_folders().len(), 4);
}

#[test]
fn restoring_keeps_what_the_device_was_seen_with() {
    let mut desk = Desk::open();
    let one = desk.seed_manifest("doc-1", &[("a.rm", b"one")]);
    let first = desk.record_version(&one, Source::Pulled).unwrap();
    let two = desk.seed_manifest("doc-1", &[("a.rm", b"two")]);
    let second = desk.record_version(&two, Source::Pulled).unwrap();

    let back = desk.lib.restore_version(first.version_id, NOW).unwrap();
    assert!(!back.unchanged);
    assert_eq!(back.manifest_hash.as_str(), first.manifest_hash.as_str());
    let history = desk.lib.get_history("doc-1").unwrap();
    assert_eq!(history.len(), 3);
    assert_eq!(history[2].id, back.version_id);
    assert_eq!(history[2].source, Source::Restored);
    assert_eq!(history[2].parent_version_id, Some(second.version_id));
    let (_, seen) = desk.lib.last_seen("doc-1").unwrap();
    assert_eq!(seen.as_deref(), Some(second.manifest_hash.as_str()));

    let still = desk.lib.restore_version(first.version_id, NOW).unwrap();
    assert!(still.unchanged);
    assert_eq!(still.version_id, back.version_id);
    assert_eq!(desk.lib.get_history("doc-1").unwrap().len(), 3);
}

#[test]
fn a_document_comes_back_to_its_folder_undeleted() {
    let mut desk = Desk::open();
    let home = desk.create_folder("Home", None).unwrap();
    let mut m = desk.seed_manifest("doc-1", &[("a.rm", b"AAA")]);
    m.content_meta = object(vec![("pageCount", serde_json::Value::from(12))]);
    desk.record_version(&m, Source::Pulled).unwrap();
    desk.move_document("doc-1", Some(&home.folder_id)).unwrap();
    desk.archive_document("doc-1", ArchiveReason::Local).unwrap();

    let pushable = desk.lib.list_pushable_documents().unwrap();
    assert_eq!(pushable.len(), 1);
    assert_eq!(pushable[0].page_count, Some(12));
    let packed = desk.manifest(&pushable[0].current_manifest);
    assert_eq!(pushable[0].size_bytes, packed.files.iter().map(|f| f.size).sum::<u64>());

    let back = desk.unarchive_document("doc-1").unwrap();
    assert_eq!(back.parent.as_deref(), Some(home.folder_id.as_str()));
    assert_eq!(back.page_count, Some(12));
    let listed = desk.document("doc-1").unwrap();
    assert_eq!(listed.parent, back.parent);
    assert_eq!(listed.size_bytes, back.size_bytes);
    assert!(!desk.lib.is_archived("doc-1"));
    let manifest = desk.manifest(&listed.current_manifest);
    assert_eq!(manifest.metadata.get("deleted").and_then(|v| v.as_bool()), Some(false));
    let stored = desk.read_blob(&manifest.files[0].sha256).unwrap();
    let stored: serde_json::Value = serde_json::from_slice(&stored).unwrap();
    assert_eq!(stored, manifest.metadata);
    assert!(matches!(desk.unarchive_document("doc-1"), Err(CoreError::NotFound(_))));
}

#[test]
fn a_second_collection_finds_nothing() {
    let mut desk = Desk::open();
    let m = desk.seed_manifest("doc-1", &[("a.rm", b"AAA")]);
    desk.record_version(&m, Source::Pulled).unwrap();
    let stray = desk.put_blob(b"nobody needs this");
    let before = desk.blob_files().len();

    let first = desk.collect(0);
    assert_eq!(first.scanned, before);
    assert_eq!(first.deleted, 1);
    assert_eq!(first.bytes_freed, stray.size);
    assert_eq!(first.errors, 0);
    assert!(!desk.lib.has_blob(&stray.hash));

    let second = desk.collect(0);
    assert_eq!(second.deleted, 0);
    assert_eq!(second.scanned, first.scanned - first.deleted);
    assert_eq!(desk.lib.list_documents().unwrap().len(), 1);
    assert_eq!(desk.lib.version_count(), 1);
}

#[test]
fn the_listing_follows_the_current_manifests() {
    let mut desk = Desk::open();
    for (id, pages) in [("b", 3u64), ("a", 5_000_000_000), ("c", 1)] {
        let mut m = desk.seed_manifest(id, &[("x.rm", id.as_bytes())]);
        m.content_meta = object(vec![("pageCount", serde_json::Value::from(pages))]);
        desk.record_version(&m, Source::Pulled).unwrap();
    }
    desk.archive_document("c", ArchiveReason::Local).unwrap();
    desk.rename_document("b", "Renamed").unwrap();
    let list = desk.lib.list_documents().unwrap();
    let ids: Vec<&str> = list.iter().map(|d| d.document_id.as_str()).collect();
    assert_eq!(ids, vec!["a", "b"]);
    assert_eq!(list[0].page_count, None);
    assert_eq!(list[1].page_count, Some(3));
    assert!(!list[0].has_unpushed_changes);
    assert!(list[1].has_unpushed_changes);
    assert_eq!(list[1].visible_name, "Renamed");
    for d in &list {
        let m = desk.manifest(&d.current_manifest);
        assert_eq!(d.size_bytes, m.files.iter().map(|f| f.size).sum::<u64>());
    }
}

#[test]
fn an_artefact_touches_no_other_file() {
    let mut desk = Desk::open();
    let m = desk.seed_manifest("doc-1", &[("a.rm", b"AAA")]);
    desk.record_version(&m, Source::Pulled).unwrap();
    let r = desk.record_derived("doc-1", "ocr/p1.md", b"one").unwrap();
    let r2 = desk.record_derived("doc-1", "ocr/p1.md", b"two").unwrap();
    assert!(!desk.dirty("doc-1"));
    let before = desk.manifest(&r.manifest_hash).clone();
    let after = desk.manifest(&r2.manifest_hash).clone();
    assert_eq!(before.files.len(), 3);
    assert_eq!(after.files.len(), 3);
    for (x, y) in before.files.iter().zip(after.files.iter()) {
        assert_eq!(x.path, y.path);
        assert_eq!(x.sha256.as_str() == y.sha256.as_str(), x.path != "ocr/p1.md");
    }
}

#[test]
fn the_archive_is_shown_newest_first() {
    let mut desk = Desk::open();
    let times = ["2026-01-01T00:00:00Z", "2026-01-03T00:00:00Z", "2026-01-03T00:00:00Z"];
    for (n, (id, at)) in ["x", "z", "y"].iter().zip(times).enumerate() {
        desk.lib
            .load_archived(ArchiveRow {
                document_id: id.to_string(),
                visible_name: format!("Name {id}"),
                doc_type: "Notebook".to_string(),
                parent: None,
                manifest_hash: "ab".repeat(32),
                version_id: n as i64,
                reason: "local".to_string(),
                archived_at: at.to_string(),
            });
    }
    let shown: Vec<String> =
        desk.lib.list_archived().unwrap().into_iter().map(|a| a.document_id).collect();
    assert_eq!(shown, vec!["y", "z", "x"]);
}

#[test]
fn folders_are_shown_by_position_then_name() {
    let mut desk = Desk::open();
    for (id, name, at) in [("1", "Beta", 2.0), ("2", "Alpha", 2.0), ("3", "Zeta", 1.0), ("4", "Alpha", 2.0)]
    {
        desk.lib.upsert_folder(id, None, name, "{}", position(at));
    }
    let shown: Vec<String> = desk.lib.list_folders().into_iter().map(|f| f.folder_id).collect();
    assert_eq!(shown, vec!["3", "2", "4", "1"]);
}
