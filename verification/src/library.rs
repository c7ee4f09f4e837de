//! The document library: versions, folders, archive and what is known of the device.

use vstd::prelude::*;

use crate::blob::BlobStore;
use crate::error::{CoreError, ErrorView};
use crate::hash::Sha256Hex;
use crate::manifest::{Manifest, ManifestView};
use crate::paths::LibraryPaths;
use crate::table;
use crate::table::Table;

pub mod archive;
pub mod derived;
pub mod documents;
pub mod folders;
pub mod import;
pub mod laws;
pub mod maintenance;
pub mod opening;
pub mod records;
pub mod rows;
pub mod types;
pub mod versions;
pub mod whole;

use crate::library::rows::{ArchiveRow, ArchiveRowView, BlobRef, DocumentRow, DocumentRowView};
use crate::library::rows::{FolderRow, FolderRowView, ManifestBlob, ManifestBlobView, ManifestRow};
use crate::library::rows::{ManifestRowView, SyncRow, SyncRowView, VersionRow, VersionRowView};

verus! {

/// The model of a [`Library`].
#[verifier::ext_equal]
pub struct LibraryView {
    /// Where the version log is kept; named in reports of corruption.
    pub db_path: Seq<char>,
    /// The live documents.
    pub documents: Map<Seq<char>, DocumentRowView>,
    /// The version log in ascending order of the version numbers.
    pub versions: Seq<VersionRowView>,
    /// The number that the next version gets; beyond the greatest number there is, none is left.
    pub next_version_id: u64,
    /// What is known of documents on the device.
    pub sync: Map<Seq<char>, SyncRowView>,
    /// The archived documents.
    pub archived: Map<Seq<char>, ArchiveRowView>,
    /// The folders, tombstones among them.
    pub folders: Map<Seq<char>, FolderRowView>,
    /// Pairs of a blob and a manifest that needs it.
    pub blob_refs: Set<(Seq<char>, Seq<char>)>,
    /// Documents that the device has to delete.
    pub deletion_queue: Set<Seq<char>>,
    /// The manifest blobs that are on disk, as far as they have been read.
    pub manifests: Map<Seq<char>, ManifestRowView>,
    /// The digests of all blobs on disk.
    pub blobs: Set<Seq<char>>,
}

/// A library: its records in memory. Its caller loads them when it opens the library, and
/// writes back what an operation changed.
pub struct Library {
    blobs: BlobStore,
    documents: Table<DocumentRow>,
    versions: Vec<VersionRow>,
    next_version_id: u64,
    sync: Table<SyncRow>,
    archived: Table<ArchiveRow>,
    folders: Table<FolderRow>,
    blob_refs: Vec<BlobRef>,
    deletion_queue: Table<String>,
    manifests: Table<ManifestRow>,
}

/// Versions in ascending order of their numbers.
pub open spec fn ids_ascend(versions: Seq<VersionRowView>) -> bool {
    forall|i: int, j: int|
        0 <= i < j < versions.len() ==> (#[trigger] versions[i]).id < (#[trigger] versions[j]).id
}

impl LibraryView {
    /// The version with the given number.
    pub open spec fn version(self, id: i64) -> Option<VersionRowView> {
        if exists|i: int| 0 <= i < self.versions.len() && (#[trigger] self.versions[i]).id == id {
            Some(self.versions[choose|i: int| 0 <= i < self.versions.len() && (#[trigger] self.versions[i]).id == id])
        } else {
            None
        }
    }

    /// What reading the manifest with the given digest yields.
    pub open spec fn manifest(self, digest: Seq<char>) -> Result<ManifestView, ErrorView> {
        if self.manifests.contains_key(digest) {
            match self.manifests[digest].blob {
                ManifestBlobView::Decoded(m) => Ok(m),
                ManifestBlobView::Corrupt { actual } => Err(
                    ErrorView::BlobCorrupt { expected: digest, actual },
                ),
                ManifestBlobView::Malformed(m) => Err(ErrorView::Json(m)),
                ManifestBlobView::Unreadable(m) => Err(ErrorView::Io(m)),
            }
        } else {
            Err(ErrorView::MissingBlob(digest))
        }
    }

    /// Whether no document is live and archived at once.
    pub open spec fn live_and_archived_apart(self) -> bool {
        self.documents.dom().disjoint(self.archived.dom())
    }

    /// Whether the log has the current version of every live document.
    pub open spec fn all_logged(self) -> bool {
        forall|k: Seq<char>| #[trigger]
            self.documents.contains_key(k) ==> logs(
                self.versions,
                k,
                self.documents[k].current_version_id,
            )
    }

    /// Whether the references are those of the manifests; see [`refs_fit`].
    pub open spec fn references_fit(self) -> bool {
        refs_fit(self.versions, self.blob_refs, self.manifests)
    }

    /// Whether the records agree with each other: see [`agree`], [`owned`] and [`refs_fit`]. Every
    /// operation keeps them so. A library that was written by others may come without that.
    pub open spec fn consistent(self) -> bool {
        &&& agree(self.documents, self.archived, self.versions)
        &&& owned(self.documents, self.archived, self.versions, self.manifests)
        &&& self.references_fit()
    }

    /// Whether no record names a digest.
    pub open spec fn is_unnamed(self, digest: Seq<char>) -> bool {
        &&& forall|i: int|
            0 <= i < self.versions.len() ==> (#[trigger] self.versions[i]).manifest_hash != digest
        &&& forall|k: Seq<char>| #[trigger]
            self.documents.contains_key(k) ==> self.documents[k].current_manifest != digest
        &&& forall|k: Seq<char>| #[trigger]
            self.archived.contains_key(k) ==> self.archived[k].manifest_hash != digest
        &&& forall|p: (Seq<char>, Seq<char>)| #[trigger]
            self.blob_refs.contains(p) ==> p.1 != digest
    }

    /// Whether a manifest has been stored under a digest: what is on disk there is this manifest,
    /// unless it cannot be read.
    pub open spec fn holds(self, digest: Seq<char>, m: ManifestView) -> bool {
        self.manifests.contains_key(digest) && (decoded(self.manifests, digest) matches Some(stored)
            ==> stored == m)
    }
}

/// The manifest under a digest, if it can be read.
pub open spec fn decoded(
    manifests: Map<Seq<char>, ManifestRowView>,
    digest: Seq<char>,
) -> Option<ManifestView> {
    if manifests.contains_key(digest) {
        match manifests[digest].blob {
            ManifestBlobView::Decoded(m) => Some(m),
            _ => None,
        }
    } else {
        None
    }
}

/// Whether the manifest under a digest, if it can be read, is one of the given document.
pub open spec fn names(
    manifests: Map<Seq<char>, ManifestRowView>,
    digest: Seq<char>,
    document_id: Seq<char>,
) -> bool {
    decoded(manifests, digest) matches Some(m) ==> m.document_id == document_id
}

/// Whether every version, every live and every archived document has a manifest of its own
/// document, as far as it can be read.
#[verifier::opaque]
pub open spec fn owned(
    documents: Map<Seq<char>, DocumentRowView>,
    archived: Map<Seq<char>, ArchiveRowView>,
    versions: Seq<VersionRowView>,
    manifests: Map<Seq<char>, ManifestRowView>,
) -> bool {
    &&& forall|i: int|
        0 <= i < versions.len() ==> names(
            manifests,
            (#[trigger] versions[i]).manifest_hash,
            versions[i].document_id,
        )
    &&& forall|k: Seq<char>| #[trigger]
        documents.contains_key(k) ==> names(manifests, documents[k].current_manifest, k)
    &&& forall|k: Seq<char>| #[trigger]
        archived.contains_key(k) ==> names(manifests, archived[k].manifest_hash, k)
}

/// Whether the references are those of the manifests, as far as these can be read: all that a
/// version of the log needs is on the list, and nothing that its manifest does not need.
#[verifier::opaque]
pub open spec fn refs_fit(
    versions: Seq<VersionRowView>,
    blob_refs: Set<(Seq<char>, Seq<char>)>,
    manifests: Map<Seq<char>, ManifestRowView>,
) -> bool {
    &&& forall|i: int|
        0 <= i < versions.len() ==> (decoded(
            manifests,
            (#[trigger] versions[i]).manifest_hash,
        ) matches Some(m) ==> versions::manifest_refs(
            m.files,
            versions[i].manifest_hash,
        ).subset_of(blob_refs))
    &&& forall|p: (Seq<char>, Seq<char>)| #[trigger]
        blob_refs.contains(p) ==> (decoded(manifests, p.1) matches Some(m)
            ==> versions::manifest_refs(m.files, p.1).contains(p))
}

/// Whether the log has the given version of a document.
pub open spec fn logs(versions: Seq<VersionRowView>, document_id: Seq<char>, version_id: i64) -> bool {
    exists|i: int|
        0 <= i < versions.len() && (#[trigger] versions[i]).id == version_id
            && versions[i].document_id == document_id
}

/// Whether no document is live and archived at once, and the log has the current version of
/// every live document.
#[verifier::opaque]
pub open spec fn agree(
    documents: Map<Seq<char>, DocumentRowView>,
    archived: Map<Seq<char>, ArchiveRowView>,
    versions: Seq<VersionRowView>,
) -> bool {
    &&& documents.dom().disjoint(archived.dom())
    &&& forall|k: Seq<char>| #[trigger]
        documents.contains_key(k) ==> logs(versions, k, documents[k].current_version_id)
}

/// What it means that the records agree, for one document after the other.
pub proof fn lemma_consistent(v: LibraryView)
    requires
        v.consistent(),
    ensures
        v.live_and_archived_apart(),
        v.all_logged(),
        forall|i: int|
            0 <= i < v.versions.len() ==> names(
                v.manifests,
                (#[trigger] v.versions[i]).manifest_hash,
                v.versions[i].document_id,
            ),
        forall|k: Seq<char>| #[trigger]
            v.documents.contains_key(k) ==> names(v.manifests, v.documents[k].current_manifest, k),
        forall|k: Seq<char>| #[trigger]
            v.archived.contains_key(k) ==> names(v.manifests, v.archived[k].manifest_hash, k),
        v.references_fit(),
{
    reveal(agree);
    reveal(owned);
}

/// Records that agree still agree when fewer manifests can be read.
pub proof fn lemma_fewer_manifests_agree(v: LibraryView, manifests: Map<Seq<char>, ManifestRowView>)
    requires
        v.consistent(),
        forall|d: Seq<char>|
            (#[trigger] decoded(manifests, d)) matches Some(m) ==> decoded(v.manifests, d) == Some(m),
    ensures
        (LibraryView { manifests, ..v }).consistent(),
{
    reveal(owned);
    reveal(refs_fit);
    assert forall|i: int| 0 <= i < v.versions.len() implies names(
        manifests,
        (#[trigger] v.versions[i]).manifest_hash,
        v.versions[i].document_id,
    ) && (decoded(manifests, v.versions[i].manifest_hash) matches Some(m) ==> versions::manifest_refs(
        m.files,
        v.versions[i].manifest_hash,
    ).subset_of(v.blob_refs)) by {
        assert(names(v.manifests, v.versions[i].manifest_hash, v.versions[i].document_id));
    }
    assert forall|k: Seq<char>| #[trigger] v.documents.contains_key(k) implies names(
        manifests,
        v.documents[k].current_manifest,
        k,
    ) by {
        assert(names(v.manifests, v.documents[k].current_manifest, k));
    }
    assert forall|k: Seq<char>| #[trigger] v.archived.contains_key(k) implies names(
        manifests,
        v.archived[k].manifest_hash,
        k,
    ) by {
        assert(names(v.manifests, v.archived[k].manifest_hash, k));
    }
}

/// Records that agree still agree when a manifest is stored under a digest that none of them
/// names.
pub proof fn lemma_new_manifest_agrees(v: LibraryView, digest: Seq<char>, row: ManifestRowView)
    requires
        v.consistent(),
        v.is_unnamed(digest),
    ensures
        (LibraryView { manifests: v.manifests.insert(digest, row), ..v }).consistent(),
{
    reveal(owned);
    reveal(refs_fit);
    let manifests = v.manifests.insert(digest, row);
    assert forall|d: Seq<char>| d != digest implies #[trigger] decoded(manifests, d) == decoded(
        v.manifests,
        d,
    ) by {}
    assert forall|i: int| 0 <= i < v.versions.len() implies names(
        manifests,
        (#[trigger] v.versions[i]).manifest_hash,
        v.versions[i].document_id,
    ) && (decoded(manifests, v.versions[i].manifest_hash) matches Some(m) ==> versions::manifest_refs(
        m.files,
        v.versions[i].manifest_hash,
    ).subset_of(v.blob_refs)) by {
        assert(names(v.manifests, v.versions[i].manifest_hash, v.versions[i].document_id));
    }
    assert forall|k: Seq<char>| #[trigger] v.documents.contains_key(k) implies names(
        manifests,
        v.documents[k].current_manifest,
        k,
    ) by {
        assert(names(v.manifests, v.documents[k].current_manifest, k));
    }
    assert forall|k: Seq<char>| #[trigger] v.archived.contains_key(k) implies names(
        manifests,
        v.archived[k].manifest_hash,
        k,
    ) by {
        assert(names(v.manifests, v.archived[k].manifest_hash, k));
    }
}

/// A log that has been added to still has every version that it had.
pub proof fn lemma_logs_push(versions: Seq<VersionRowView>, row: VersionRowView)
    ensures
        forall|k: Seq<char>, id: i64| #[trigger]
            logs(versions, k, id) ==> logs(versions.push(row), k, id),
        logs(versions.push(row), row.document_id, row.id),
{
    let after = versions.push(row);
    assert forall|k: Seq<char>, id: i64| #[trigger] logs(versions, k, id) implies logs(after, k, id) by {
        let i = choose|i: int|
            0 <= i < versions.len() && (#[trigger] versions[i]).id == id && versions[i].document_id
                == k;
        assert(after[i] == versions[i]);
    }
    assert(after[versions.len() as int] == row);
}

/// The pairs in a list of blob references.
pub open spec fn ref_set(refs: Seq<(Seq<char>, Seq<char>)>) -> Set<(Seq<char>, Seq<char>)> {
    refs.to_set()
}

impl Library {
    /// The model of the library.
    pub closed spec fn view(&self) -> LibraryView {
        LibraryView {
            db_path: self.blobs.layout().db@,
            documents: self.documents@,
            versions: self.versions.deep_view(),
            next_version_id: self.next_version_id,
            sync: self.sync@,
            archived: self.archived@,
            folders: self.folders@,
            blob_refs: ref_set(self.blob_refs.deep_view()),
            deletion_queue: self.deletion_queue@.dom(),
            manifests: self.manifests@,
            blobs: self.blobs@,
        }
    }

    /// The layout of the library directory.
    pub closed spec fn layout(&self) -> LibraryPaths {
        self.blobs.layout()
    }

    /// Whether the records are in order: tables sorted, version numbers ascending and
    /// below the next one, and no manifest too large to be summed up.
    pub closed spec fn wf(&self) -> bool {
        &&& self.blobs.wf()
        &&& self.documents.wf()
        &&& self.sync.wf()
        &&& self.archived.wf()
        &&& self.folders.wf()
        &&& self.deletion_queue.wf()
        &&& self.manifests.wf()
        &&& ids_ascend(self.versions.deep_view())
        &&& forall|i: int|
            0 <= i < self.versions@.len() ==> (#[trigger] self.versions.deep_view()[i]).id < self.next_version_id
        &&& 0 < self.next_version_id <= i64::MAX + 1
        &&& manifests_fit(self.manifests@)
    }
}

/// Whether every manifest that could be read has a total size that fits a 64-bit count.
pub open spec fn manifests_fit(manifests: Map<Seq<char>, ManifestRowView>) -> bool {
    forall|k: Seq<char>| #[trigger] manifests.contains_key(k) ==> match manifests[k].blob {
        ManifestBlobView::Decoded(m) => m.size_fits(),
        _ => true,
    }
}

/// A record that is appended to a list joins the set of its records.
pub proof fn lemma_push_to_set<A>(s: Seq<A>, x: A)
    ensures
        s.push(x).to_set() == s.to_set().insert(x),
{
    assert forall|y: A| #[trigger] s.push(x).to_set().contains(y) == s.to_set().insert(x).contains(y) by {
        if s.push(x).contains(y) {
            let i = choose|i: int| 0 <= i < s.push(x).len() && s.push(x)[i] == y;
            if i < s.len() {
                assert(s[i] == y);
            }
        }
        if s.contains(y) {
            let i = choose|i: int| 0 <= i < s.len() && s[i] == y;
            assert(s.push(x)[i] == y);
        }
        assert(s.push(x)[s.len() as int] == x);
    }
    assert(s.push(x).to_set() =~= s.to_set().insert(x));
}

/// In an ascending log a version is found under its own number.
pub proof fn lemma_version(v: LibraryView, i: int)
    requires
        ids_ascend(v.versions),
        0 <= i < v.versions.len(),
    ensures
        v.version(v.versions[i].id) == Some(v.versions[i]),
{
    let id = v.versions[i].id;
    let c = choose|c: int| 0 <= c < v.versions.len() && (#[trigger] v.versions[c]).id == id;
    assert(v.versions[c].id == id);
    if c < i {
        assert(v.versions[c].id < v.versions[i].id);
    } else if i < c {
        assert(v.versions[i].id < v.versions[c].id);
    }
}

impl Library {
    /// The records of a library are in order, whatever was done to it.
    pub proof fn records_are_valid(&self)
        requires
            self.wf(),
        ensures
            whole::is_valid(self@),
    {
        let rows = self.folders.listing();
        table::lemma_len::<FolderRow>(rows);
        table::lemma_keys_along::<FolderRow>(rows);
        table::lemma_keys_along::<DocumentRow>(self.documents.listing());
        self.folders.lemma_rank_listing();
        self.archived.lemma_rank_listing();
        assert forall|k: Seq<char>| #[trigger] self@.archived.contains_key(k) implies self@.archived[k].document_id
            == k by {
            let i = table::lemma_key_has_row::<ArchiveRow>(self.archived.listing(), k);
        }
        assert forall|k: Seq<char>| #[trigger] self@.folders.contains_key(k) implies self@.folders[k].folder_id
            == k by {
            let i = table::lemma_key_has_row::<FolderRow>(rows, k);
        }
    }

    /// A library without any records.
    pub fn new(paths: LibraryPaths) -> (lib: Self)
        ensures
            lib.wf(),
            lib@.consistent(),
            lib.layout() == paths,
            lib@ == (LibraryView {
                db_path: paths.db@,
                documents: Map::empty(),
                versions: seq![],
                next_version_id: 1,
                sync: Map::empty(),
                archived: Map::empty(),
                folders: Map::empty(),
                blob_refs: Set::empty(),
                deletion_queue: Set::empty(),
                manifests: Map::empty(),
                blobs: Set::empty(),
            }),
    {
        let lib = Library {
            blobs: BlobStore::new(paths),
            documents: Table::new(),
            versions: Vec::new(),
            next_version_id: 1,
            sync: Table::new(),
            archived: Table::new(),
            folders: Table::new(),
            blob_refs: Vec::new(),
            deletion_queue: Table::new(),
            manifests: Table::new(),
        };
        proof {
            assert(lib@.versions =~= seq![]);
            assert(lib@.blob_refs =~= Set::empty());
            assert(lib@.deletion_queue =~= Set::empty());
            reveal(agree);
            reveal(owned);
            reveal(refs_fit);
            assert(lib@.documents.dom().disjoint(lib@.archived.dom()));
        }
        lib
    }

    /// The position of the version with the given number.
    fn version_position(&self, id: i64) -> (r: Option<usize>)
        requires
            self.wf(),
        ensures
            match r {
                Some(i) => i < self@.versions.len() && self@.versions[i as int].id == id
                    && self@.version(id) == Some(self@.versions[i as int]),
                None => self@.version(id) is None,
            },
    {
        let mut lo: usize = 0;
        let mut hi: usize = self.versions.len();
        while lo < hi
            invariant
                self.wf(),
                self@.versions == self.versions.deep_view(),
                ids_ascend(self@.versions),
                lo <= hi <= self.versions.len(),
                forall|j: int| 0 <= j < lo ==> (#[trigger] self@.versions[j]).id < id,
                forall|j: int| hi <= j < self@.versions.len() ==> (#[trigger] self@.versions[j]).id >= id,
            decreases hi - lo,
        {
            let mid: usize = lo + (hi - lo) / 2;
            assert(self@.versions[mid as int].id == self.versions[mid as int].id);
            if self.versions[mid].id < id {
                lo = mid + 1;
            } else {
                hi = mid;
            }
        }
        if lo < self.versions.len() && self.versions[lo].id == id {
            assert(self@.versions[lo as int].id == id);
            proof {
                lemma_version(self@, lo as int);
            }
            Some(lo)
        } else {
            assert forall|j: int| 0 <= j < self@.versions.len() implies (#[trigger] self@.versions[j]).id != id by {
                if lo < j {
                    assert(self@.versions[lo as int].id == self.versions[lo as int].id);
                    assert(self@.versions[lo as int].id < self@.versions[j].id);
                } else if lo == j {
                    assert(self@.versions[j].id == self.versions[j].id);
                }
            }
            None
        }
    }

    /// The manifest with the given digest.
    fn manifest(&self, digest: &Sha256Hex) -> (r: Result<&Manifest, CoreError>)
        requires
            self.wf(),
        ensures
            match r {
                Ok(m) => self@.manifest(digest@) == Ok::<ManifestView, ErrorView>(m.deep_view())
                    && m.deep_view().size_fits(),
                Err(e) => self@.manifest(digest@) == Err::<ManifestView, ErrorView>(e.deep_view()),
            },
    {
        match self.manifests.get(digest.as_str()) {
            None => Err(CoreError::MissingBlob(digest.to_hex())),
            Some(row) => match &row.blob {
                ManifestBlob::Decoded(m) => Ok(m),
                ManifestBlob::Corrupt { actual } => Err(
                    CoreError::BlobCorrupt { expected: digest.to_hex(), actual: actual.clone() },
                ),
                ManifestBlob::Malformed(m) => Err(CoreError::Json(m.clone())),
                ManifestBlob::Unreadable(m) => Err(CoreError::Io(m.clone())),
            },
        }
    }
}

/// A manifest is read as it was found on disk: one that is there is given, one that is not is
/// missing, and one that is damaged, makes no sense or could not be read is reported as that.
pub proof fn manifest_is_read_as_it_was_found(v: LibraryView, digest: Seq<char>)
    ensures
        !v.manifests.contains_key(digest) ==> v.manifest(digest) == Err::<ManifestView, ErrorView>(
            ErrorView::MissingBlob(digest),
        ),
        v.manifests.contains_key(digest) ==> match v.manifests[digest].blob {
            ManifestBlobView::Decoded(m) => v.manifest(digest) == Ok::<ManifestView, ErrorView>(m),
            ManifestBlobView::Corrupt { actual } => v.manifest(digest) == Err::<
                ManifestView,
                ErrorView,
            >(ErrorView::BlobCorrupt { expected: digest, actual }),
            ManifestBlobView::Malformed(m) => v.manifest(digest) == Err::<ManifestView, ErrorView>(
                ErrorView::Json(m),
            ),
            ManifestBlobView::Unreadable(m) => v.manifest(digest) == Err::<ManifestView, ErrorView>(
                ErrorView::Io(m),
            ),
        },
{
}

} // verus!
