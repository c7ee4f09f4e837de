//! Blobs and stored records: what a caller loads into a library when it opens one, and
//! reads out of it to write it back.

use vstd::prelude::*;

use crate::blob::{BlobStore, PutResult};
use crate::blob;
use crate::error::{CoreError, ErrorView};
use crate::hash;
use crate::hash::Sha256Hex;
use crate::library::rows::{ArchiveRow, BlobRef, DocumentRow, FolderRow, ManifestBlob, ManifestBlobView};
use crate::library::rows::{ManifestRow, ManifestRowView, SyncRow, VersionRow};
use crate::library::{Library, LibraryView};
use crate::library;
use crate::manifest::{Manifest, ManifestView};
use crate::paths::LibraryPaths;
use crate::table::Table;

verus! {

/// The manifests with one more that has just been stored. A blob that was on disk before and
/// could not be read stays as it is.
pub open spec fn with_manifest(
    manifests: Map<Seq<char>, ManifestRowView>,
    digest: Seq<char>,
    m: ManifestView,
) -> Map<Seq<char>, ManifestRowView> {
    if manifests.contains_key(digest) && !(manifests[digest].blob is Decoded) {
        manifests
    } else {
        manifests.insert(digest, ManifestRowView { hash: digest, blob: ManifestBlobView::Decoded(m) })
    }
}

impl Library {
    /// The layout of the library directory.
    pub fn paths(&self) -> (p: &LibraryPaths)
        ensures
            *p == self.layout(),
    {
        self.blobs.paths()
    }

    /// The blob store.
    pub fn blobs(&self) -> (b: &BlobStore)
        requires
            self.wf(),
        ensures
            b.wf(),
            b@ == self@.blobs,
            b.layout() == self.layout(),
    {
        &self.blobs
    }

    /// Files a blob. The caller writes it to disk if it is new.
    pub fn put_blob(&mut self, bytes: &[u8]) -> (r: PutResult)
        requires
            old(self).wf(),
        ensures
            final(self).wf(),
            final(self).layout() == old(self).layout(),
            final(self)@ == (LibraryView {
                blobs: old(self)@.blobs.insert(hash::digest_hex(bytes@)),
                ..old(self)@
            }),
            r.hash@ == hash::digest_hex(bytes@),
            r.size == bytes@.len(),
            r.outcome == blob::put_outcome(old(self)@.blobs, hash::digest_hex(bytes@)),
    {
        self.blobs.put_bytes(bytes)
    }

    /// Files a blob that was hashed while it was read. The caller moves it into place if it
    /// is new.
    pub fn put_blob_from_reader(&mut self, hash: Sha256Hex, size: u64) -> (r: PutResult)
        requires
            old(self).wf(),
        ensures
            final(self).wf(),
            final(self).layout() == old(self).layout(),
            final(self)@ == (LibraryView {
                blobs: old(self)@.blobs.insert(hash@),
                ..old(self)@
            }),
            r.hash@ == hash@,
            r.size == size,
            r.outcome == blob::put_outcome(old(self)@.blobs, hash@),
    {
        self.blobs.put_digest(hash, size)
    }

    /// Whether a blob is on file.
    pub fn has_blob(&self, hash: &Sha256Hex) -> (r: bool)
        requires
            self.wf(),
        ensures
            r == self@.blobs.contains(hash@),
    {
        self.blobs.has(hash)
    }

    /// Accepts what the file of a blob holds, `None` if there is no such file.
    pub fn read_blob(&self, hash: &Sha256Hex, on_disk: Option<Vec<u8>>) -> (r: Result<Vec<u8>, CoreError>)
        ensures
            match r {
                Ok(bytes) => blob::read_outcome(hash@, on_disk.deep_view()) == Ok::<
                    Seq<u8>,
                    ErrorView,
                >(bytes@),
                Err(e) => blob::read_outcome(hash@, on_disk.deep_view()) == Err::<
                    Seq<u8>,
                    ErrorView,
                >(e.deep_view()),
            },
    {
        self.blobs.read_to_vec(hash, on_disk)
    }

    /// Files the canonical text of a manifest as a blob, so that the manifest can be
    /// recorded. The caller writes the blob to disk if it is new.
    pub fn put_manifest(&mut self, manifest: Manifest, canonical: &[u8]) -> (r: PutResult)
        requires
            old(self).wf(),
            manifest.deep_view().size_fits(),
        ensures
            final(self).wf(),
            final(self).layout() == old(self).layout(),
            final(self)@ == (LibraryView {
                blobs: old(self)@.blobs.insert(hash::digest_hex(canonical@)),
                manifests: with_manifest(
                    old(self)@.manifests,
                    hash::digest_hex(canonical@),
                    manifest.deep_view(),
                ),
                ..old(self)@
            }),
            final(self)@.holds(hash::digest_hex(canonical@), manifest.deep_view()),
            old(self)@.consistent() && (old(self)@.is_unnamed(hash::digest_hex(canonical@))
                || library::decoded(old(self)@.manifests, hash::digest_hex(canonical@)) == Some(
                manifest.deep_view(),
            )) ==> final(self)@.consistent(),
            r.hash@ == hash::digest_hex(canonical@),
            r.size == canonical@.len(),
            r.outcome == blob::put_outcome(old(self)@.blobs, hash::digest_hex(canonical@)),
    {
        let put = self.blobs.put_bytes(canonical);
        let unreadable = match self.manifests.get(put.hash.as_str()) {
            Some(row) => match &row.blob {
                ManifestBlob::Decoded(_) => false,
                _ => true,
            },
            None => false,
        };
        if !unreadable {
            let row = ManifestRow {
                hash: put.hash.to_hex(),
                blob: ManifestBlob::Decoded(manifest),
            };
            self.manifests.put(row);
            proof {
                let v = old(self)@;
                let d = put.hash@;
                if v.consistent() && v.is_unnamed(d) {
                    library::lemma_new_manifest_agrees(v, d, row.deep_view());
                } else if v.consistent() && library::decoded(v.manifests, d) == Some(
                    manifest.deep_view(),
                ) {
                    library::lemma_fewer_manifests_agree(v, self@.manifests);
                }
            }
        }
        put
    }

    /// Takes note of a blob on disk.
    pub fn load_blob(&mut self, hash: &Sha256Hex)
        requires
            old(self).wf(),
        ensures
            final(self).wf(),
            final(self).layout() == old(self).layout(),
            final(self)@ == (LibraryView { blobs: old(self)@.blobs.insert(hash@), ..old(self)@ }),
    {
        self.blobs.note(hash);
    }

    /// Forgets a blob that has left the disk.
    pub fn forget_blob(&mut self, hash: &Sha256Hex)
        requires
            old(self).wf(),
        ensures
            final(self).wf(),
            old(self)@.consistent() ==> final(self)@.consistent(),
            final(self).layout() == old(self).layout(),
            final(self)@ == (LibraryView {
                blobs: old(self)@.blobs.remove(hash@),
                manifests: old(self)@.manifests.remove(hash@),
                ..old(self)@
            }),
    {
        self.blobs.forget(hash);
        self.manifests.remove(hash.as_str());
        proof {
            if old(self)@.consistent() {
                library::lemma_fewer_manifests_agree(old(self)@, self@.manifests);
            }
        }
    }

    /// Takes in what reading a manifest blob came to.
    pub fn load_manifest(&mut self, hash: &Sha256Hex, blob: ManifestBlob)
        requires
            old(self).wf(),
            match blob.deep_view() {
                ManifestBlobView::Decoded(m) => m.size_fits(),
                _ => true,
            },
        ensures
            final(self).wf(),
            final(self).layout() == old(self).layout(),
            final(self)@ == (LibraryView {
                manifests: old(self)@.manifests.insert(
                    hash@,
                    ManifestRowView { hash: hash@, blob: blob.deep_view() },
                ),
                ..old(self)@
            }),
    {
        self.manifests.put(ManifestRow { hash: hash.to_hex(), blob });
    }

    /// Takes in a live document. One whose current version is not in the log is kept, but not
    /// listed.
    pub fn load_document(&mut self, row: DocumentRow)
        requires
            old(self).wf(),
        ensures
            final(self).wf(),
            final(self).layout() == old(self).layout(),
            final(self)@ == (LibraryView {
                documents: old(self)@.documents.insert(row.document_id@, row.deep_view()),
                ..old(self)@
            }),
    {
        self.documents.put(row);
    }

    /// Takes in an entry of the version log, which takes its place among the others by its
    /// number. A number that the log has already is refused.
    pub fn load_version(&mut self, row: VersionRow) -> (r: Result<(), CoreError>)
        requires
            old(self).wf(),
        ensures
            final(self).wf(),
            final(self).layout() == old(self).layout(),
            library::ids_ascend(final(self)@.versions),
            match r {
                Ok(_) => old(self)@.version(row.id) is None && exists|i: int|
                    0 <= i <= old(self)@.versions.len() && final(self)@.versions
                        == #[trigger] old(self)@.versions.insert(i, row.deep_view()),
                Err(e) => old(self)@.version(row.id) is Some && final(self)@ == old(self)@
                    && e.deep_view() == ErrorView::Sqlite(
                    "UNIQUE constraint failed: versions.id"@,
                ),
            },
            r is Ok ==> final(self)@ == (LibraryView {
                versions: final(self)@.versions,
                next_version_id: if row.id >= old(self)@.next_version_id {
                    (row.id + 1) as u64
                } else {
                    old(self)@.next_version_id
                },
                ..old(self)@
            }),
    {
        if self.version_position(row.id).is_some() {
            return Err(CoreError::Sqlite("UNIQUE constraint failed: versions.id".to_owned()));
        }
        let ghost before = self.versions.deep_view();
        let id: i64 = row.id;
        let ghost view = row.deep_view();
        let mut at: usize = self.versions.len();
        while at > 0 && self.versions[at - 1].id > id
            invariant
                at <= self.versions.len(),
                *self == *old(self),
                before == self.versions.deep_view(),
                forall|j: int| at <= j < before.len() ==> (#[trigger] before[j]).id > id,
            decreases at,
        {
            assert(before[at - 1] == self.versions[at - 1].deep_view());
            at = at - 1;
        }
        proof {
            assert forall|j: int| 0 <= j < at implies (#[trigger] before[j]).id < id by {
                assert(before[at - 1] == self.versions[at - 1].deep_view());
                assert(before[j].id != id);
                if j < at - 1 {
                    assert(before[j].id < before[at - 1].id);
                }
            }
        }
        self.versions.insert(at, row);
        if id >= 0 && id as u64 >= self.next_version_id {
            self.next_version_id = id as u64 + 1;
        }
        proof {
            let after = self.versions.deep_view();
            assert(after =~= before.insert(at as int, view));
            assert forall|i: int, j: int| 0 <= i < j < after.len() implies (#[trigger] after[i]).id < (
            #[trigger] after[j]).id by {
                let i0 = if i < at { i } else { i - 1 };
                let j0 = if j < at { j } else { j - 1 };
                if i != at {
                    assert(after[i] == before[i0]);
                }
                if j != at {
                    assert(after[j] == before[j0]);
                }
                if i != at && j != at {
                    assert(before[i0].id < before[j0].id);
                }
            }
            assert forall|i: int| 0 <= i < after.len() implies (#[trigger] after[i]).id
                < self.next_version_id by {
                let i0 = if i < at { i } else { i - 1 };
                if i != at {
                    assert(after[i] == before[i0]);
                }
            }
        }
        Ok(())
    }

    /// Sees to it that no version number up to `last` is given out again.
    pub fn reserve_version_ids(&mut self, last: i64)
        requires
            old(self).wf(),
        ensures
            final(self).wf(),
            final(self).layout() == old(self).layout(),
            final(self)@ == (LibraryView {
                next_version_id: if last >= old(self)@.next_version_id {
                    (last + 1) as u64
                } else {
                    old(self)@.next_version_id
                },
                ..old(self)@
            }),
    {
        if last >= 0 && last as u64 >= self.next_version_id {
            self.next_version_id = last as u64 + 1;
        }
    }

    /// Takes in what is known of a document on the device.
    pub fn load_sync(&mut self, row: SyncRow)
        requires
            old(self).wf(),
        ensures
            final(self).wf(),
            final(self).layout() == old(self).layout(),
            final(self)@ == (LibraryView {
                sync: old(self)@.sync.insert(row.document_id@, row.deep_view()),
                ..old(self)@
            }),
    {
        self.sync.put(row);
    }

    /// Takes in an archived document.
    pub fn load_archived(&mut self, row: ArchiveRow)
        requires
            old(self).wf(),
        ensures
            final(self).wf(),
            final(self).layout() == old(self).layout(),
            final(self)@ == (LibraryView {
                archived: old(self)@.archived.insert(row.document_id@, row.deep_view()),
                ..old(self)@
            }),
    {
        self.archived.put(row);
    }

    /// Takes in a folder.
    pub fn load_folder(&mut self, row: FolderRow)
        requires
            old(self).wf(),
        ensures
            final(self).wf(),
            final(self).layout() == old(self).layout(),
            final(self)@ == (LibraryView {
                folders: old(self)@.folders.insert(row.folder_id@, row.deep_view()),
                ..old(self)@
            }),
    {
        self.folders.put(row);
    }

    /// Takes in a blob reference.
    pub fn load_blob_ref(&mut self, row: BlobRef)
        requires
            old(self).wf(),
        ensures
            final(self).wf(),
            final(self).layout() == old(self).layout(),
            final(self)@ == (LibraryView {
                blob_refs: old(self)@.blob_refs.insert(row.deep_view()),
                ..old(self)@
            }),
    {
        self.add_ref(row.blob_hash.as_str(), row.manifest_hash.as_str());
    }

    /// Takes in a document that the device has to delete.
    pub fn load_deletion(&mut self, document_id: String)
        requires
            old(self).wf(),
        ensures
            final(self).wf(),
            final(self).layout() == old(self).layout(),
            final(self)@ == (LibraryView {
                deletion_queue: old(self)@.deletion_queue.insert(document_id@),
                ..old(self)@
            }),
    {
        self.deletion_queue.put(document_id);
        assert(self@.deletion_queue =~= old(self)@.deletion_queue.insert(document_id@));
    }

    /// The live documents.
    pub fn document_rows(&self) -> (t: &Table<DocumentRow>)
        requires
            self.wf(),
        ensures
            t.wf(),
            t@ == self@.documents,
    {
        &self.documents
    }

    /// The version log in ascending order of the numbers.
    pub fn version_rows(&self) -> (rows: &Vec<VersionRow>)
        ensures
            rows.deep_view() == self@.versions,
    {
        &self.versions
    }

    /// What is known of documents on the device.
    pub fn sync_rows(&self) -> (t: &Table<SyncRow>)
        requires
            self.wf(),
        ensures
            t.wf(),
            t@ == self@.sync,
    {
        &self.sync
    }

    /// The archived documents.
    pub fn archive_rows(&self) -> (t: &Table<ArchiveRow>)
        requires
            self.wf(),
        ensures
            t.wf(),
            t@ == self@.archived,
    {
        &self.archived
    }

    /// The folders, tombstones among them.
    pub fn folder_rows(&self) -> (t: &Table<FolderRow>)
        requires
            self.wf(),
        ensures
            t.wf(),
            t@ == self@.folders,
    {
        &self.folders
    }

    /// The blob references.
    pub fn blob_ref_rows(&self) -> (rows: &Vec<BlobRef>)
        ensures
            rows.deep_view().to_set() == self@.blob_refs,
    {
        &self.blob_refs
    }
}

/// A manifest that is stored can be read back, and the others stay as they are; where the store
/// held a blob under its digest that could not be read, that one stays.
pub proof fn stored_manifest_is_read_back(
    manifests: Map<Seq<char>, ManifestRowView>,
    digest: Seq<char>,
    m: ManifestView,
    other: Seq<char>,
)
    ensures
        !manifests.contains_key(digest) || manifests[digest].blob is Decoded ==> with_manifest(
            manifests,
            digest,
            m,
        ).contains_key(digest) && with_manifest(manifests, digest, m)[digest].blob
            == ManifestBlobView::Decoded(m),
        manifests.contains_key(digest) && !(manifests[digest].blob is Decoded) ==> with_manifest(
            manifests,
            digest,
            m,
        ) == manifests,
        other != digest ==> with_manifest(manifests, digest, m).contains_key(other)
            == manifests.contains_key(other) && with_manifest(manifests, digest, m)[other]
            == manifests[other],
{
}

} // verus!
