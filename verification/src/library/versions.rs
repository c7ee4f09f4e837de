//! The version log: recording, history, notes.

use vstd::prelude::*;

use crate::error;
use crate::error::{CoreError, ErrorView};
use crate::hash;
use crate::hash::Sha256Hex;
use crate::library::rows::{BlobRef, DocumentRow, DocumentRowView, SyncRow, SyncRowView, VersionRow};
use crate::library::rows::VersionRowView;
use crate::library::types::{RecordOutcome, RecordView, Source, VersionEntry, VersionEntryView};
use crate::library::types;
use crate::library::{Library, LibraryView};
use crate::library;
use crate::manifest;
use crate::manifest::{FileView, Manifest, ManifestView};
use crate::table::Row;
use crate::text;

verus! {

/// The references that a manifest contributes: to itself, and to each of its files.
pub open spec fn manifest_refs(files: Seq<FileView>, digest: Seq<char>) -> Set<(Seq<char>, Seq<char>)> {
    Set::new(
        |p: (Seq<char>, Seq<char>)|
            p.1 == digest && (p.0 == digest || exists|i: int|
                0 <= i < files.len() && (#[trigger] files[i]).sha256 == p.0),
    )
}

/// Whether the manifest with the given digest is the current one of a live document.
pub open spec fn is_current(v: LibraryView, document_id: Seq<char>, digest: Seq<char>) -> bool {
    v.documents.contains_key(document_id) && v.documents[document_id].current_manifest == digest
}

/// The log entry for a manifest that becomes the current one.
pub open spec fn new_version(
    v: LibraryView,
    m: ManifestView,
    digest: Seq<char>,
    source: Source,
    now: Seq<char>,
) -> VersionRowView {
    VersionRowView {
        id: v.next_version_id as i64,
        document_id: m.document_id,
        manifest_hash: digest,
        parent_version_id: if v.documents.contains_key(m.document_id) {
            Some(v.documents[m.document_id].current_version_id)
        } else {
            None
        },
        observed_at: now,
        source: types::source_text(source),
        note: None,
    }
}

/// What is known of the device once it has shown the manifest with the given digest.
pub open spec fn seen_on_device(
    sync: Map<Seq<char>, SyncRowView>,
    document_id: Seq<char>,
    digest: Seq<char>,
    now: Seq<char>,
) -> Map<Seq<char>, SyncRowView> {
    sync.insert(
        document_id,
        SyncRowView {
            document_id,
            device_mtime_hint: if sync.contains_key(document_id) {
                sync[document_id].device_mtime_hint
            } else {
                None
            },
            last_seen_manifest: Some(digest),
            last_synced_at: Some(now),
        },
    )
}

/// The sync records with a row for the document, empty if it had none.
pub open spec fn with_sync_row(
    sync: Map<Seq<char>, SyncRowView>,
    document_id: Seq<char>,
) -> Map<Seq<char>, SyncRowView> {
    if sync.contains_key(document_id) {
        sync
    } else {
        sync.insert(
            document_id,
            SyncRowView {
                document_id,
                device_mtime_hint: None,
                last_seen_manifest: None,
                last_synced_at: None,
            },
        )
    }
}

/// The library after a manifest has been recorded. If it is the current one already,
/// nothing is appended, and only a pull advances what is known of the device, if anything is
/// known. Otherwise
/// the manifest becomes the current version of its document; a pull also advances what is
/// known of the device, and any other source leaves that as it was.
pub open spec fn recorded(
    v: LibraryView,
    m: ManifestView,
    digest: Seq<char>,
    source: Source,
    now: Seq<char>,
) -> LibraryView {
    let id = m.document_id;
    if is_current(v, id, digest) {
        if source == Source::Pulled && v.sync.contains_key(id) {
            LibraryView { sync: seen_on_device(v.sync, id, digest, now), ..v }
        } else {
            v
        }
    } else {
        LibraryView {
            versions: v.versions.push(new_version(v, m, digest, source, now)),
            next_version_id: (v.next_version_id + 1) as u64,
            documents: v.documents.insert(
                id,
                DocumentRowView {
                    document_id: id,
                    current_manifest: digest,
                    current_version_id: v.next_version_id as i64,
                },
            ),
            blob_refs: v.blob_refs.union(manifest_refs(m.files, digest)),
            sync: if source == Source::Pulled {
                seen_on_device(v.sync, id, digest, now)
            } else {
                with_sync_row(v.sync, id)
            },
            ..v
        }
    }
}

/// What recording a manifest reports. It fails only when the version numbers are used
/// up.
pub open spec fn record_result(v: LibraryView, document_id: Seq<char>, digest: Seq<char>) -> Result<
    RecordView,
    ErrorView,
> {
    if is_current(v, document_id, digest) {
        Ok(
            RecordView {
                version_id: v.documents[document_id].current_version_id,
                manifest_hash: digest,
                unchanged: true,
            },
        )
    } else if v.next_version_id > i64::MAX {
        Err(ErrorView::Sqlite("database or disk is full"@))
    } else {
        Ok(
            RecordView {
                version_id: v.next_version_id as i64,
                manifest_hash: digest,
                unchanged: false,
            },
        )
    }
}

impl Library {
    /// Adds the references of a manifest to the list.
    fn add_refs(&mut self, manifest: &Manifest, digest: &Sha256Hex)
        requires
            old(self).wf(),
        ensures
            final(self).wf(),
            final(self).layout() == old(self).layout(),
            final(self)@ == (LibraryView {
                blob_refs: old(self)@.blob_refs.union(
                    manifest_refs(manifest.deep_view().files, digest@),
                ),
                ..old(self)@
            }),
    {
        let ghost files = manifest.deep_view().files;
        self.add_ref(digest.as_str(), digest.as_str());
        let mut i: usize = 0;
        proof {
            assert(files.take(0) =~= seq![]);
            assert(self@.blob_refs =~= old(self)@.blob_refs.union(manifest_refs(files.take(0), digest@)));
        }
        while i < manifest.files.len()
            invariant
                i <= manifest.files.len(),
                files == manifest.files.deep_view(),
                self.wf(),
                self.layout() == old(self).layout(),
                self@ == (LibraryView {
                    blob_refs: old(self)@.blob_refs.union(
                        manifest_refs(files.take(i as int), digest@),
                    ),
                    ..old(self)@
                }),
            decreases manifest.files.len() - i,
        {
            let ghost before = self@.blob_refs;
            self.add_ref(manifest.files[i].sha256.as_str(), digest.as_str());
            proof {
                let a = files.take(i as int);
                let b = files.take(i + 1);
                assert(b =~= a.push(files[i as int]));
                assert(files[i as int].sha256 == manifest.files[i as int].sha256@);
                assert forall|p: (Seq<char>, Seq<char>)|
                    #[trigger] manifest_refs(b, digest@).contains(p) == manifest_refs(a, digest@).insert(
                        (files[i as int].sha256, digest@),
                    ).contains(p) by {
                    if manifest_refs(b, digest@).contains(p) && p.0 != digest@ {
                        let k = choose|k: int| 0 <= k < b.len() && (#[trigger] b[k]).sha256 == p.0;
                        if k < i {
                            assert(a[k].sha256 == p.0);
                        }
                    }
                    if manifest_refs(a, digest@).contains(p) && p.0 != digest@ {
                        let k = choose|k: int| 0 <= k < a.len() && (#[trigger] a[k]).sha256 == p.0;
                        assert(b[k].sha256 == p.0);
                    }
                    assert(b[i as int] == files[i as int]);
                }
                assert(self@.blob_refs =~= old(self)@.blob_refs.union(manifest_refs(b, digest@)));
            }
            i = i + 1;
        }
        assert(files.take(files.len() as int) =~= files);
    }

    /// Adds one reference, unless it is on the list already.
    pub(crate) fn add_ref(&mut self, blob_hash: &str, manifest_hash: &str)
        requires
            old(self).wf(),
        ensures
            final(self).wf(),
            final(self).layout() == old(self).layout(),
            final(self)@ == (LibraryView {
                blob_refs: old(self)@.blob_refs.insert((blob_hash@, manifest_hash@)),
                ..old(self)@
            }),
    {
        let ghost refs = self.blob_refs.deep_view();
        let mut i: usize = 0;
        while i < self.blob_refs.len()
            invariant
                i <= self.blob_refs.len(),
                *self == *old(self),
                refs == self.blob_refs.deep_view(),
                self.wf(),
            decreases self.blob_refs.len() - i,
        {
            if text::str_eq(self.blob_refs[i].blob_hash.as_str(), blob_hash) && text::str_eq(
                self.blob_refs[i].manifest_hash.as_str(),
                manifest_hash,
            ) {
                proof {
                    assert(refs[i as int] == (blob_hash@, manifest_hash@));
                    assert(refs.to_set().contains((blob_hash@, manifest_hash@)));
                    assert(self@.blob_refs =~= old(self)@.blob_refs.insert((blob_hash@, manifest_hash@)));
                }
                return;
            }
            i = i + 1;
        }
        let r = BlobRef { blob_hash: blob_hash.to_owned(), manifest_hash: manifest_hash.to_owned() };
        self.blob_refs.push(r);
        proof {
            assert(self.blob_refs.deep_view() =~= refs.push(r.deep_view()));
            library::lemma_push_to_set(refs, r.deep_view());
        }
    }

    /// Makes a manifest the current version of a document, in the version log and in every
    /// record that follows from it.
    pub(crate) fn record_version_in_tx(
        &mut self,
        manifest: &Manifest,
        manifest_hash: &Sha256Hex,
        source: Source,
        now: &str,
    ) -> (r: Result<RecordOutcome, CoreError>)
        requires
            old(self).wf(),
        ensures
            final(self).wf(),
            final(self).layout() == old(self).layout(),
            error::outcome(r) == record_result(
                old(self)@,
                manifest.document_id@,
                manifest_hash@,
            ),
            final(self)@ == (if r is Ok {
                recorded(old(self)@, manifest.deep_view(), manifest_hash@, source, now@)
            } else {
                old(self)@
            }),
    {
        let id = manifest.document_id.as_str();
        let digest = manifest_hash.as_str();
        let current: Option<i64> = match self.documents.get(id) {
            Some(row) => {
                if text::str_eq(row.current_manifest.as_str(), digest) {
                    let version_id: i64 = row.current_version_id;
                    if source == Source::Pulled && self.sync.contains(id) {
                        self.set_last_seen(id, digest, now);
                    }
                    return Ok(
                        RecordOutcome {
                            version_id,
                            manifest_hash: manifest_hash.clone(),
                            unchanged: true,
                        },
                    );
                }
                Some(row.current_version_id)
            },
            None => None,
        };
        if self.next_version_id > i64::MAX as u64 {
            return Err(CoreError::Sqlite("database or disk is full".to_owned()));
        }
        let version_id: i64 = self.next_version_id as i64;
        let row = VersionRow {
            id: version_id,
            document_id: id.to_owned(),
            manifest_hash: manifest_hash.to_hex(),
            parent_version_id: current,
            observed_at: now.to_owned(),
            source: source.as_str().to_owned(),
            note: None,
        };
        let ghost versions = self.versions.deep_view();
        self.versions.push(row);
        self.next_version_id = self.next_version_id + 1;
        assert(self.versions.deep_view() =~= versions.push(row.deep_view()));
        self.documents.put(
            DocumentRow {
                document_id: id.to_owned(),
                current_manifest: manifest_hash.to_hex(),
                current_version_id: version_id,
            },
        );
        self.add_refs(manifest, manifest_hash);
        if source == Source::Pulled {
            self.set_last_seen(id, digest, now);
        } else if !self.sync.contains(id) {
            self.sync.put(
                SyncRow {
                    document_id: id.to_owned(),
                    device_mtime_hint: None,
                    last_seen_manifest: None,
                    last_synced_at: None,
                },
            );
        }
        Ok(RecordOutcome { version_id, manifest_hash: manifest_hash.clone(), unchanged: false })
    }

    /// Notes that the device has the manifest with the given digest.
    pub(crate) fn set_last_seen(&mut self, document_id: &str, digest: &str, now: &str)
        requires
            old(self).wf(),
        ensures
            final(self).wf(),
            final(self).layout() == old(self).layout(),
            final(self)@ == (LibraryView {
                sync: seen_on_device(old(self)@.sync, document_id@, digest@, now@),
                ..old(self)@
            }),
    {
        let hint = match self.sync.get(document_id) {
            Some(row) => text::copy_opt_string(&row.device_mtime_hint),
            None => None,
        };
        self.sync.put(
            SyncRow {
                document_id: document_id.to_owned(),
                device_mtime_hint: hint,
                last_seen_manifest: Some(digest.to_owned()),
                last_synced_at: Some(now.to_owned()),
            },
        );
    }
}

/// What the library answers to a request to record a manifest: one with a path that leads out
/// of the document is refused, and an archived document is left alone.
pub open spec fn record_version_result(v: LibraryView, m: ManifestView, digest: Seq<char>) -> Result<
    RecordView,
    ErrorView,
> {
    match manifest::first_stray(m.files) {
        Some(path) => Err(manifest::stray_path(path)),
        None => if v.archived.contains_key(m.document_id) {
            Err(ErrorView::DocumentArchived(m.document_id))
        } else {
            record_result(v, m.document_id, digest)
        },
    }
}

/// Records that agree still agree once a version of a document that is not archived has been
/// recorded.
pub proof fn lemma_recorded_agrees(
    v: LibraryView,
    m: ManifestView,
    digest: Seq<char>,
    source: Source,
    now: Seq<char>,
)
    requires
        v.consistent(),
        v.holds(digest, m),
        !v.archived.contains_key(m.document_id),
    ensures
        recorded(v, m, digest, source, now).consistent(),
{
    if !is_current(v, m.document_id, digest) {
        let after = recorded(v, m, digest, source, now);
        let row = new_version(v, m, digest, source, now);
        assert(library::agree(after.documents, after.archived, after.versions)) by {
            reveal(library::agree);
            library::lemma_logs_push(v.versions, row);
            assert(after.documents.dom().disjoint(after.archived.dom()));
        }
        assert(library::owned(after.documents, after.archived, after.versions, after.manifests)) by {
            reveal(library::owned);
            assert forall|i: int| 0 <= i < after.versions.len() implies library::names(
                after.manifests,
                (#[trigger] after.versions[i]).manifest_hash,
                after.versions[i].document_id,
            ) by {
                if i < v.versions.len() {
                    assert(after.versions[i] == v.versions[i]);
                }
            }
        }
        assert(library::refs_fit(after.versions, after.blob_refs, after.manifests)) by {
            reveal(library::refs_fit);
            assert forall|i: int| 0 <= i < after.versions.len() implies (library::decoded(
                after.manifests,
                (#[trigger] after.versions[i]).manifest_hash,
            ) matches Some(n) ==> manifest_refs(
                n.files,
                after.versions[i].manifest_hash,
            ).subset_of(after.blob_refs)) by {
                if i < v.versions.len() {
                    assert(after.versions[i] == v.versions[i]);
                }
            }
        }
    }
}

/// A version of the log as the history shows it. A version whose manifest cannot be read
/// has no size and no file count.
pub open spec fn version_entry(v: LibraryView, row: VersionRowView) -> Result<
    VersionEntryView,
    ErrorView,
> {
    if !hash::is_hex_digest(row.manifest_hash) {
        Err(
            ErrorView::Corrupt {
                path: v.db_path,
                reason: "bad manifest hash for version "@ + text::decimal(row.id as int),
            },
        )
    } else {
        Ok(
            VersionEntryView {
                id: row.id,
                document_id: row.document_id,
                manifest_hash: row.manifest_hash,
                parent_version_id: row.parent_version_id,
                observed_at: row.observed_at,
                source: match types::source_of_text(row.source) {
                    Some(source) => source,
                    None => Source::Pulled,
                },
                note: row.note,
                total_size_bytes: match v.manifest(row.manifest_hash) {
                    Ok(m) => Some(manifest::total_size(m.files) as u64),
                    Err(_) => None,
                },
                file_count: match v.manifest(row.manifest_hash) {
                    Ok(m) => Some(m.files.len() as usize),
                    Err(_) => None,
                },
            },
        )
    }
}

/// The history of a document: its versions in the order of the log, up to the first one
/// that is corrupt.
pub open spec fn history(
    v: LibraryView,
    rows: Seq<VersionRowView>,
    document_id: Seq<char>,
) -> Result<Seq<VersionEntryView>, ErrorView>
    decreases rows.len(),
{
    if rows.len() == 0 {
        Ok(seq![])
    } else {
        match history(v, rows.drop_last(), document_id) {
            Err(e) => Err(e),
            Ok(entries) => if rows.last().document_id != document_id {
                Ok(entries)
            } else {
                match version_entry(v, rows.last()) {
                    Err(e) => Err(e),
                    Ok(entry) => Ok(entries.push(entry)),
                }
            },
        }
    }
}

/// A history that fails on the first versions of the log fails on all of them.
proof fn lemma_history_fails(v: LibraryView, rows: Seq<VersionRowView>, n: int, document_id: Seq<char>)
    requires
        0 <= n <= rows.len(),
        history(v, rows.take(n), document_id) is Err,
    ensures
        history(v, rows, document_id) == history(v, rows.take(n), document_id),
    decreases rows.len(),
{
    if n == rows.len() {
        assert(rows.take(n) =~= rows);
    } else {
        assert(rows.drop_last().take(n) =~= rows.take(n));
        lemma_history_fails(v, rows.drop_last(), n, document_id);
    }
}

/// The version with the given number as the history shows it.
pub open spec fn version_lookup(v: LibraryView, version_id: i64) -> Result<VersionEntryView, ErrorView> {
    match v.version(version_id) {
        None => Err(ErrorView::NotFound("version "@ + text::decimal(version_id as int))),
        Some(row) => version_entry(v, row),
    }
}

/// The log with the note of one version replaced.
pub open spec fn noted(
    versions: Seq<VersionRowView>,
    version_id: i64,
    note: Option<Seq<char>>,
) -> Seq<VersionRowView> {
    Seq::new(
        versions.len(),
        |i: int|
            if versions[i].id == version_id {
                VersionRowView { note, ..versions[i] }
            } else {
                versions[i]
            },
    )
}

proof fn lemma_noted_agrees(v: LibraryView, version_id: i64, note: Option<Seq<char>>)
    requires
        v.consistent(),
    ensures
        (LibraryView { versions: noted(v.versions, version_id, note), ..v }).consistent(),
{
    let after = noted(v.versions, version_id, note);
    assert(library::agree(v.documents, v.archived, after)) by {
        reveal(library::agree);
        assert forall|k: Seq<char>| #[trigger] v.documents.contains_key(k) implies library::logs(
            after,
            k,
            v.documents[k].current_version_id,
        ) by {
            let id = v.documents[k].current_version_id;
            let i = choose|i: int|
                0 <= i < v.versions.len() && (#[trigger] v.versions[i]).id == id
                    && v.versions[i].document_id == k;
            assert(after[i].id == id);
        }
    }
    assert(library::owned(v.documents, v.archived, after, v.manifests)) by {
        reveal(library::owned);
        assert forall|i: int| 0 <= i < after.len() implies library::names(
            v.manifests,
            (#[trigger] after[i]).manifest_hash,
            after[i].document_id,
        ) by {
            assert(after[i].manifest_hash == v.versions[i].manifest_hash);
        }
    }
    assert(library::refs_fit(after, v.blob_refs, v.manifests)) by {
        reveal(library::refs_fit);
        assert forall|i: int| 0 <= i < after.len() implies (library::decoded(
            v.manifests,
            (#[trigger] after[i]).manifest_hash,
        ) matches Some(n) ==> manifest_refs(n.files, after[i].manifest_hash).subset_of(
            v.blob_refs,
        )) by {
            assert(after[i].manifest_hash == v.versions[i].manifest_hash);
        }
    }
}

/// What going back to an older version reports.
pub open spec fn restore_result(v: LibraryView, version_id: i64) -> Result<RecordView, ErrorView> {
    match version_lookup(v, version_id) {
        Err(e) => Err(e),
        Ok(entry) => match v.manifest(entry.manifest_hash) {
            Err(e) => Err(e),
            Ok(m) => if v.archived.contains_key(m.document_id) {
                Err(ErrorView::DocumentArchived(m.document_id))
            } else {
                record_result(v, m.document_id, entry.manifest_hash)
            },
        },
    }
}

/// The library after it has gone back to an older version of a document.
pub open spec fn restored(v: LibraryView, version_id: i64, now: Seq<char>) -> LibraryView {
    let row = v.version(version_id)->0;
    let m = v.manifest(row.manifest_hash)->Ok_0;
    recorded(v, m, row.manifest_hash, Source::Restored, now)
}

impl Library {
    /// Records a manifest as the current version of its document. A manifest that is
    /// current already is not recorded again. One with a path that leads out of the document
    /// is refused. The manifest blob has to be stored first; see [`Self::put_manifest`].
    pub fn record_version(
        &mut self,
        manifest: &Manifest,
        manifest_hash: &Sha256Hex,
        source: Source,
        now: &str,
    ) -> (r: Result<RecordOutcome, CoreError>)
        requires
            old(self).wf(),
            old(self)@.holds(manifest_hash@, manifest.deep_view()),
        ensures
            final(self).wf(),
            old(self)@.consistent() ==> final(self)@.consistent(),
            final(self).layout() == old(self).layout(),
            error::outcome(r) == record_version_result(
                old(self)@,
                manifest.deep_view(),
                manifest_hash@,
            ),
            final(self)@ == (if r is Ok {
                recorded(old(self)@, manifest.deep_view(), manifest_hash@, source, now@)
            } else {
                old(self)@
            }),
    {
        if let Err(e) = manifest.validate_paths() {
            return Err(e);
        }
        let id = manifest.document_id.as_str();
        if self.archived.contains(id) {
            return Err(CoreError::DocumentArchived(manifest.document_id.clone()));
        }
        proof {
            if self@.consistent() {
                lemma_recorded_agrees(self@, manifest.deep_view(), manifest_hash@, source, now@);
            }
        }
        self.record_version_in_tx(manifest, manifest_hash, source, now)
    }

    /// Describes one version of the log.
    fn describe_version(&self, i: usize) -> (r: Result<VersionEntry, CoreError>)
        requires
            self.wf(),
            i < self@.versions.len(),
        ensures
            error::outcome(r) == version_entry(self@, self@.versions[i as int]),
    {
        let row = &self.versions[i];
        assert(row.deep_view() == self@.versions[i as int]);
        let digest = match Sha256Hex::from_hex(row.manifest_hash.as_str()) {
            Some(digest) => digest,
            None => {
                let number = text::decimal_of(row.id);
                return Err(
                    CoreError::Corrupt {
                        path: self.blobs.paths().db.clone(),
                        reason: text::concat2("bad manifest hash for version ", number.as_str()),
                    },
                );
            },
        };
        let source = match Source::parse(row.source.as_str()) {
            Some(source) => source,
            None => Source::Pulled,
        };
        let (total_size_bytes, file_count) = match self.manifest(&digest) {
            Ok(m) => (Some(m.total_size()), Some(m.files.len())),
            Err(_) => (None, None),
        };
        Ok(
            VersionEntry {
                id: row.id,
                document_id: row.document_id.clone(),
                manifest_hash: digest,
                parent_version_id: row.parent_version_id,
                observed_at: row.observed_at.clone(),
                source,
                note: text::copy_opt_string(&row.note),
                total_size_bytes,
                file_count,
            },
        )
    }

    /// The versions of a document, oldest first.
    pub fn get_history(&self, document_id: &str) -> (r: Result<Vec<VersionEntry>, CoreError>)
        requires
            self.wf(),
        ensures
            error::outcome(r) == history(self@, self@.versions, document_id@),
    {
        let mut out: Vec<VersionEntry> = Vec::new();
        let mut i: usize = 0;
        let ghost rows = self@.versions;
        proof {
            assert(rows.take(0) =~= seq![]);
            assert(out.deep_view() =~= seq![]);
        }
        while i < self.versions.len()
            invariant
                self.wf(),
                rows == self@.versions,
                rows == self.versions.deep_view(),
                i <= rows.len(),
                history(self@, rows.take(i as int), document_id@) == Ok::<
                    Seq<VersionEntryView>,
                    ErrorView,
                >(out.deep_view()),
            decreases self.versions.len() - i,
        {
            proof {
                assert(rows.take(i + 1).drop_last() =~= rows.take(i as int));
                assert(rows.take(i + 1).last() == rows[i as int]);
            }
            if text::str_eq(self.versions[i].document_id.as_str(), document_id) {
                match self.describe_version(i) {
                    Ok(entry) => {
                        let ghost before = out.deep_view();
                        out.push(entry);
                        assert(out.deep_view() =~= before.push(entry.deep_view()));
                    },
                    Err(e) => {
                        proof {
                            lemma_history_fails(self@, rows, i + 1, document_id@);
                        }
                        return Err(e);
                    },
                }
            }
            i = i + 1;
        }
        assert(rows.take(rows.len() as int) =~= rows);
        Ok(out)
    }

    /// Looks up one version.
    pub fn get_version(&self, version_id: i64) -> (r: Result<VersionEntry, CoreError>)
        requires
            self.wf(),
        ensures
            error::outcome(r) == version_lookup(self@, version_id),
    {
        match self.version_position(version_id) {
            Some(i) => self.describe_version(i),
            None => {
                let number = text::decimal_of(version_id);
                Err(CoreError::NotFound(text::concat2("version ", number.as_str())))
            },
        }
    }

    /// How many versions the log holds, of all documents.
    pub fn version_count(&self) -> (n: usize)
        ensures
            n == self@.versions.len(),
    {
        self.versions.len()
    }

    /// Makes an older version the current one of its document again by recording its manifest
    /// anew. The version that was current stays in the log.
    pub fn restore_version(&mut self, version_id: i64, now: &str) -> (r: Result<RecordOutcome, CoreError>)
        requires
            old(self).wf(),
        ensures
            final(self).wf(),
            old(self)@.consistent() ==> final(self)@.consistent(),
            final(self).layout() == old(self).layout(),
            error::outcome(r) == restore_result(old(self)@, version_id),
            final(self)@ == (if r is Ok {
                restored(old(self)@, version_id, now@)
            } else {
                old(self)@
            }),
    {
        let entry = match self.get_version(version_id) {
            Ok(entry) => entry,
            Err(e) => {
                return Err(e);
            },
        };
        let m = match self.manifest(&entry.manifest_hash) {
            Ok(m) => m.clone(),
            Err(e) => {
                return Err(e);
            },
        };
        if self.archived.contains(m.document_id.as_str()) {
            return Err(CoreError::DocumentArchived(m.document_id.clone()));
        }
        proof {
            if self@.consistent() {
                lemma_recorded_agrees(
                    self@,
                    m.deep_view(),
                    entry.manifest_hash@,
                    Source::Restored,
                    now@,
                );
            }
        }
        self.record_version_in_tx(&m, &entry.manifest_hash, Source::Restored, now)
    }

    /// Sets or clears the note of a version.
    pub fn set_version_note(&mut self, version_id: i64, note: Option<&str>) -> (r: Result<(), CoreError>)
        requires
            old(self).wf(),
        ensures
            final(self).wf(),
            old(self)@.consistent() ==> final(self)@.consistent(),
            final(self).layout() == old(self).layout(),
            match r {
                Ok(_) => old(self)@.version(version_id) is Some && final(self)@ == (LibraryView {
                    versions: noted(old(self)@.versions, version_id, note.deep_view()),
                    ..old(self)@
                }),
                Err(e) => final(self)@ == old(self)@ && old(self)@.version(version_id) is None
                    && e.deep_view() == ErrorView::NotFound(
                    "version "@ + text::decimal(version_id as int),
                ),
            },
    {
        match self.version_position(version_id) {
            Some(i) => {
                let ghost before = self.versions.deep_view();
                self.versions[i].note = text::to_opt_string(note);
                proof {
                    let row = VersionRowView { note: note.deep_view(), ..before[i as int] };
                    assert(self.versions.deep_view() =~= before.update(i as int, row));
                    assert(self.versions.deep_view() =~= noted(before, version_id, note.deep_view()));
                    if old(self)@.consistent() {
                        lemma_noted_agrees(old(self)@, version_id, note.deep_view());
                    }
                }
                Ok(())
            },
            None => {
                let number = text::decimal_of(version_id);
                Err(CoreError::NotFound(text::concat2("version ", number.as_str())))
            },
        }
    }

    /// The documents that were on the device when it was last seen and are not archived.
    pub fn previously_synced_ids(&self) -> (ids: Vec<String>)
        requires
            self.wf(),
        ensures
            forall|i: int, j: int|
                0 <= i < j < ids@.len() ==> text::lex_less(
                    #[trigger] ids.deep_view()[i],
                    #[trigger] ids.deep_view()[j],
                ),
            forall|id: Seq<char>| #[trigger]
                ids.deep_view().contains(id) <==> (self@.sync.contains_key(id)
                    && self@.sync[id].last_seen_manifest is Some && !self@.archived.contains_key(id)),
    {
        let mut ids: Vec<String> = Vec::new();
        let mut n: usize = 0;
        let ghost rows = self.sync.listing();
        while n < self.sync.len()
            invariant
                self.wf(),
                rows == self.sync.listing(),
                n <= rows.len(),
                forall|i: int|
                    0 <= i < ids@.len() ==> exists|k: int|
                        0 <= k < n && (#[trigger] rows[k]).document_id == (#[trigger] ids.deep_view()[i]),
                forall|i: int, j: int|
                    0 <= i < j < ids@.len() ==> text::lex_less(
                        #[trigger] ids.deep_view()[i],
                        #[trigger] ids.deep_view()[j],
                    ),
                forall|k: int|
                    0 <= k < n ==> (ids.deep_view().contains((#[trigger] rows[k]).document_id) <==> (
                    rows[k].last_seen_manifest is Some && !self@.archived.contains_key(
                        rows[k].document_id,
                    ))),
            decreases rows.len() - n,
        {
            let row = self.sync.row(n);
            let ghost before = ids.deep_view();
            let ghost id = rows[n as int].document_id;
            proof {
                assert forall|i: int| 0 <= i < before.len() implies text::lex_less(#[trigger] before[i], id) by {
                    let k = choose|k: int| 0 <= k < n && (#[trigger] rows[k]).document_id == before[i];
                    assert(text::lex_less(SyncRow::key_of(rows[k]), SyncRow::key_of(rows[n as int])));
                }
                text::lemma_lex_irreflexive(id);
                assert(!before.contains(id));
            }
            if row.last_seen_manifest.is_some() && !self.archived.contains(row.document_id.as_str()) {
                let name = row.document_id.clone();
                ids.push(name);
                proof {
                    assert(ids.deep_view() =~= before.push(id));
                    assert forall|k: int| 0 <= k < n implies (ids.deep_view().contains(
                        (#[trigger] rows[k]).document_id,
                    ) <==> before.contains(rows[k].document_id)) by {
                        text::lemma_lex_irreflexive(id);
                        assert(text::lex_less(SyncRow::key_of(rows[k]), SyncRow::key_of(rows[n as int])));
                        if before.contains(rows[k].document_id) {
                            let i = choose|i: int| 0 <= i < before.len() && before[i] == rows[k].document_id;
                            assert(ids.deep_view()[i] == rows[k].document_id);
                        }
                    }
                    assert(ids.deep_view()[before.len() as int] == id);
                    assert forall|i: int| 0 <= i < ids@.len() implies exists|k: int|
                        0 <= k < n + 1 && (#[trigger] rows[k]).document_id == (#[trigger] ids.deep_view()[i]) by {
                        if i < before.len() {
                            assert(ids.deep_view()[i] == before[i]);
                            let k = choose|k: int| 0 <= k < n && (#[trigger] rows[k]).document_id == before[i];
                            assert(rows[k].document_id == ids.deep_view()[i]);
                        } else {
                            assert(rows[n as int].document_id == ids.deep_view()[i]);
                        }
                    }
                }
            }
            n = n + 1;
        }
        proof {
            assert forall|id: Seq<char>| #[trigger] ids.deep_view().contains(id) <==> (self@.sync.contains_key(id)
                && self@.sync[id].last_seen_manifest is Some && !self@.archived.contains_key(id)) by {
                if ids.deep_view().contains(id) {
                    let i = choose|i: int| 0 <= i < ids.deep_view().len() && ids.deep_view()[i] == id;
                    let k = choose|k: int| 0 <= k < n && (#[trigger] rows[k]).document_id == ids.deep_view()[i];
                    crate::table::lemma_by_key::<SyncRow>(rows, k);
                }
                if self@.sync.contains_key(id) {
                    let k = crate::table::lemma_key_has_row::<SyncRow>(rows, id);
                    assert(rows[k].document_id == id);
                }
            }
        }
        ids
    }
}

/// A new version says where it came from: its manifest and its document, the version that was
/// current before, when and how it was recorded; and it bears no note.
pub proof fn new_version_says_where_it_came_from(
    v: LibraryView,
    m: ManifestView,
    digest: Seq<char>,
    source: Source,
    now: Seq<char>,
)
    requires
        !is_current(v, m.document_id, digest),
        v.next_version_id <= i64::MAX,
    ensures
        ({
            let after = recorded(v, m, digest, source, now);
            let row = after.versions.last();
            &&& after.versions.len() == v.versions.len() + 1
            &&& row.id == v.next_version_id
            &&& row.document_id == m.document_id
            &&& row.manifest_hash == digest
            &&& row.observed_at == now
            &&& row.source == types::source_text(source)
            &&& row.note is None
            &&& v.documents.contains_key(m.document_id) ==> row.parent_version_id == Some(
                v.documents[m.document_id].current_version_id,
            )
            &&& !v.documents.contains_key(m.document_id) ==> row.parent_version_id is None
            &&& after.documents.contains_key(m.document_id)
            &&& after.documents[m.document_id].document_id == m.document_id
            &&& after.documents[m.document_id].current_manifest == digest
            &&& after.documents[m.document_id].current_version_id == v.next_version_id
            &&& after.next_version_id == v.next_version_id + 1
            &&& record_result(v, m.document_id, digest) matches Ok(o) && o.version_id
                == v.next_version_id && o.manifest_hash == digest && !o.unchanged
        }),
{
}

/// What is recorded is held in the store: the manifest and every file of it are on the list of
/// what is needed, and nothing leaves that list.
pub proof fn recorded_version_needs_its_files(
    v: LibraryView,
    m: ManifestView,
    digest: Seq<char>,
    source: Source,
    now: Seq<char>,
)
    requires
        !is_current(v, m.document_id, digest),
    ensures
        recorded(v, m, digest, source, now).blob_refs.contains((digest, digest)),
        forall|i: int|
            0 <= i < m.files.len() ==> recorded(v, m, digest, source, now).blob_refs.contains(
                ((#[trigger] m.files[i]).sha256, digest),
            ),
        v.blob_refs.subset_of(recorded(v, m, digest, source, now).blob_refs),
        forall|blob: Seq<char>, manifest: Seq<char>|
            #[trigger] recorded(v, m, digest, source, now).blob_refs.contains((blob, manifest))
                && !v.blob_refs.contains((blob, manifest)) ==> manifest == digest && (blob == digest
                || exists|i: int| 0 <= i < m.files.len() && (#[trigger] m.files[i]).sha256 == blob),
{
    let after = recorded(v, m, digest, source, now).blob_refs;
    assert(manifest_refs(m.files, digest).contains((digest, digest)));
    assert forall|i: int| 0 <= i < m.files.len() implies after.contains(
        ((#[trigger] m.files[i]).sha256, digest),
    ) by {
        assert(manifest_refs(m.files, digest).contains((m.files[i].sha256, digest)));
    }
}

/// A pull of a document notes what the device has and when that was seen, and keeps the
/// modification time that the device gave; nothing else that is recorded touches what is known of
/// the device, but that a row is there.
pub proof fn pull_notes_what_the_device_has(
    v: LibraryView,
    m: ManifestView,
    digest: Seq<char>,
    source: Source,
    now: Seq<char>,
)
    ensures
        ({
            let id = m.document_id;
            let after = recorded(v, m, digest, source, now);
            &&& source == Source::Pulled && (!is_current(v, id, digest) || v.sync.contains_key(id))
                ==> {
                &&& after.sync.contains_key(id)
                &&& after.sync[id].document_id == id
                &&& after.sync[id].last_seen_manifest == Some(digest)
                &&& after.sync[id].last_synced_at == Some(now)
                &&& v.sync.contains_key(id) ==> after.sync[id].device_mtime_hint
                    == v.sync[id].device_mtime_hint
                &&& !v.sync.contains_key(id) ==> after.sync[id].device_mtime_hint is None
            }
            &&& source != Source::Pulled && v.sync.contains_key(id) ==> after.sync == v.sync
            &&& source != Source::Pulled && !v.sync.contains_key(id) && after.sync.contains_key(id)
                ==> after.sync[id].last_seen_manifest is None && after.sync[id].last_synced_at
                is None && after.sync[id].device_mtime_hint is None
            &&& source != Source::Pulled && !is_current(v, id, digest) ==> after.sync.contains_key(
                id,
            )
        }),
{
}

/// Recording a version leaves the archive, the folders, the deletion queue and the store as they
/// are.
pub proof fn recording_leaves_the_rest(
    v: LibraryView,
    m: ManifestView,
    digest: Seq<char>,
    source: Source,
    now: Seq<char>,
)
    ensures
        ({
            let after = recorded(v, m, digest, source, now);
            &&& after.archived == v.archived
            &&& after.folders == v.folders
            &&& after.deletion_queue == v.deletion_queue
            &&& after.blobs == v.blobs
            &&& after.manifests == v.manifests
        }),
{
}

/// Whether an entry of the history tells what the log says of a version, and the size and the
/// number of its files if its manifest can be read.
pub open spec fn tells_version(v: LibraryView, row: VersionRowView, e: VersionEntryView) -> bool {
    &&& e.id == row.id
    &&& e.document_id == row.document_id
    &&& e.manifest_hash == row.manifest_hash
    &&& e.parent_version_id == row.parent_version_id
    &&& e.observed_at == row.observed_at
    &&& e.note == row.note
    &&& e.source == (match types::source_of_text(row.source) {
        Some(source) => source,
        None => Source::Pulled,
    })
    &&& match v.manifest(row.manifest_hash) {
        Ok(m) => e.total_size_bytes == Some(manifest::total_size(m.files) as u64) && e.file_count
            == Some(m.files.len() as usize),
        Err(_) => e.total_size_bytes is None && e.file_count is None,
    }
}

/// The history of a document has an entry for every version of it in the log, and no other, in the
/// order of the log; and each entry tells what the log says.
pub proof fn history_shows_every_version(
    v: LibraryView,
    rows: Seq<VersionRowView>,
    document_id: Seq<char>,
)
    ensures
        history(v, rows, document_id) matches Ok(entries) ==> {
            let own = rows.filter(|row: VersionRowView| row.document_id == document_id);
            &&& entries.len() == own.len()
            &&& forall|i: int|
                0 <= i < own.len() ==> tells_version(v, own[i], #[trigger] entries[i])
        },
        history(v, rows, document_id) is Err ==> exists|i: int|
            0 <= i < rows.len() && (#[trigger] rows[i]).document_id == document_id
                && !hash::is_hex_digest(rows[i].manifest_hash),
    decreases rows.len(),
{
    reveal(Seq::filter);
    if rows.len() > 0 {
        let init = rows.drop_last();
        let keep = |row: VersionRowView| row.document_id == document_id;
        history_shows_every_version(v, init, document_id);
        if let Ok(entries) = history(v, rows, document_id) {
            let own = rows.filter(keep);
            let before = init.filter(keep);
            let earlier = history(v, init, document_id)->Ok_0;
            assert forall|i: int| 0 <= i < own.len() implies tells_version(
                v,
                own[i],
                #[trigger] entries[i],
            ) by {
                if i < before.len() {
                    assert(own[i] == before[i]);
                    assert(entries[i] == earlier[i]);
                }
            }
        } else if history(v, init, document_id) is Err {
            let i = choose|i: int|
                0 <= i < init.len() && (#[trigger] init[i]).document_id == document_id
                    && !hash::is_hex_digest(init[i].manifest_hash);
            assert(rows[i] == init[i]);
        } else {
            assert(rows[rows.len() - 1] == rows.last());
        }
    }
}

/// A manifest is recorded exactly if the document has another one or none: the current one again
/// adds nothing to the log, and is reported under the version that it has. Other documents stay as
/// they are.
pub proof fn only_another_manifest_is_recorded(
    v: LibraryView,
    m: ManifestView,
    digest: Seq<char>,
    source: Source,
    now: Seq<char>,
)
    ensures
        ({
            let id = m.document_id;
            let after = recorded(v, m, digest, source, now);
            let answer = record_result(v, id, digest);
            &&& v.documents.contains_key(id) && v.documents[id].current_manifest == digest ==> {
                &&& after.versions == v.versions
                &&& after.documents == v.documents
                &&& after.blob_refs == v.blob_refs
                &&& after.next_version_id == v.next_version_id
                &&& answer matches Ok(o) && o.unchanged && o.version_id
                    == v.documents[id].current_version_id && o.manifest_hash == digest
            }
            &&& !v.documents.contains_key(id) || v.documents[id].current_manifest != digest ==> {
                &&& after.versions.len() == v.versions.len() + 1
                &&& after.versions.drop_last() == v.versions
                &&& after.versions.last().document_id == id
                &&& after.versions.last().manifest_hash == digest
                &&& after.documents[id].current_manifest == digest
                &&& answer matches Ok(o) ==> !o.unchanged
                &&& answer is Err <==> v.next_version_id > i64::MAX
            }
            &&& forall|other: Seq<char>|
                other != id ==> {
                    &&& #[trigger] after.documents.contains_key(other) == v.documents.contains_key(
                        other,
                    )
                    &&& after.documents[other] == v.documents[other]
                    &&& after.sync.contains_key(other) == v.sync.contains_key(other)
                    &&& after.sync[other] == v.sync[other]
                }
        }),
{
    let after = recorded(v, m, digest, source, now);
    if !is_current(v, m.document_id, digest) {
        assert(after.versions.drop_last() =~= v.versions);
    }
}

/// A manifest whose files stay inside the document is refused exactly if the document is archived,
/// or there is no number left for a new version of it.
pub proof fn archived_documents_are_not_recorded(v: LibraryView, m: ManifestView, digest: Seq<char>)
    requires
        manifest::first_stray(m.files) is None,
    ensures
        v.archived.contains_key(m.document_id) ==> record_version_result(v, m, digest) == Err::<
            RecordView,
            ErrorView,
        >(ErrorView::DocumentArchived(m.document_id)),
        !v.archived.contains_key(m.document_id) && v.next_version_id <= i64::MAX
            ==> record_version_result(v, m, digest) is Ok,
{
}

/// A note is put on one version and replaces the one that was there; everything else in the log
/// stays as it was.
pub proof fn note_is_put_on_one_version(
    versions: Seq<VersionRowView>,
    version_id: i64,
    note: Option<Seq<char>>,
    i: int,
)
    requires
        0 <= i < versions.len(),
    ensures
        noted(versions, version_id, note).len() == versions.len(),
        versions[i].id != version_id ==> noted(versions, version_id, note)[i] == versions[i],
        versions[i].id == version_id ==> {
            let row = noted(versions, version_id, note)[i];
            &&& row.note == note
            &&& row.id == versions[i].id
            &&& row.document_id == versions[i].document_id
            &&& row.manifest_hash == versions[i].manifest_hash
            &&& row.parent_version_id == versions[i].parent_version_id
            &&& row.observed_at == versions[i].observed_at
            &&& row.source == versions[i].source
        },
{
}

/// A version is found under its number exactly if the log has one with that number, and is shown
/// as it was recorded.
pub proof fn version_is_found_by_its_number(v: LibraryView, version_id: i64)
    requires
        library::ids_ascend(v.versions),
    ensures
        forall|i: int|
            0 <= i < v.versions.len() && (#[trigger] v.versions[i]).id == version_id
                && hash::is_hex_digest(v.versions[i].manifest_hash) ==> {
                let row = v.versions[i];
                version_lookup(v, version_id) matches Ok(e) && e.id == row.id && e.document_id
                    == row.document_id && e.manifest_hash == row.manifest_hash
                    && e.parent_version_id == row.parent_version_id && e.observed_at
                    == row.observed_at && e.note == row.note
            },
        (forall|i: int| 0 <= i < v.versions.len() ==> (#[trigger] v.versions[i]).id != version_id)
            ==> version_lookup(v, version_id) == Err::<VersionEntryView, ErrorView>(
            ErrorView::NotFound("version "@ + text::decimal(version_id as int)),
        ),
{
}

} // verus!
