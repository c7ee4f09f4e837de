//! The records a library keeps, and their models.

use vstd::prelude::*;

use crate::manifest::{Manifest, ManifestView};
use crate::table::Row;
use crate::text;

verus! {

/// A live document: which version is current.
#[derive(Debug)]
pub struct DocumentRow {
    pub document_id: String,
    pub current_manifest: String,
    pub current_version_id: i64,
}

/// The model of a [`DocumentRow`].
pub struct DocumentRowView {
    pub document_id: Seq<char>,
    pub current_manifest: Seq<char>,
    pub current_version_id: i64,
}

impl DeepView for DocumentRow {
    type V = DocumentRowView;

    open spec fn deep_view(&self) -> DocumentRowView {
        DocumentRowView {
            document_id: self.document_id@,
            current_manifest: self.current_manifest@,
            current_version_id: self.current_version_id,
        }
    }
}

impl Row for DocumentRow {
    open spec fn key_of(v: DocumentRowView) -> Seq<char> {
        v.document_id
    }

    fn key(&self) -> (k: &str) {
        self.document_id.as_str()
    }
}

/// One entry of the version log.
#[derive(Debug)]
pub struct VersionRow {
    pub id: i64,
    pub document_id: String,
    pub manifest_hash: String,
    pub parent_version_id: Option<i64>,
    pub observed_at: String,
    pub source: String,
    pub note: Option<String>,
}

/// The model of a [`VersionRow`].
pub struct VersionRowView {
    pub id: i64,
    pub document_id: Seq<char>,
    pub manifest_hash: Seq<char>,
    pub parent_version_id: Option<i64>,
    pub observed_at: Seq<char>,
    pub source: Seq<char>,
    pub note: Option<Seq<char>>,
}

impl DeepView for VersionRow {
    type V = VersionRowView;

    open spec fn deep_view(&self) -> VersionRowView {
        VersionRowView {
            id: self.id,
            document_id: self.document_id@,
            manifest_hash: self.manifest_hash@,
            parent_version_id: self.parent_version_id,
            observed_at: self.observed_at@,
            source: self.source@,
            note: self.note.deep_view(),
        }
    }
}

impl VersionRow {
    /// A copy of the entry.
    pub fn copy(&self) -> (r: Self)
        ensures
            r.deep_view() == self.deep_view(),
    {
        VersionRow {
            id: self.id,
            document_id: self.document_id.clone(),
            manifest_hash: self.manifest_hash.clone(),
            parent_version_id: self.parent_version_id,
            observed_at: self.observed_at.clone(),
            source: self.source.clone(),
            note: text::copy_opt_string(&self.note),
        }
    }
}

/// What is known of a document on the device.
#[derive(Debug)]
pub struct SyncRow {
    pub document_id: String,
    pub device_mtime_hint: Option<String>,
    pub last_seen_manifest: Option<String>,
    pub last_synced_at: Option<String>,
}

/// The model of a [`SyncRow`].
pub struct SyncRowView {
    pub document_id: Seq<char>,
    pub device_mtime_hint: Option<Seq<char>>,
    pub last_seen_manifest: Option<Seq<char>>,
    pub last_synced_at: Option<Seq<char>>,
}

impl DeepView for SyncRow {
    type V = SyncRowView;

    open spec fn deep_view(&self) -> SyncRowView {
        SyncRowView {
            document_id: self.document_id@,
            device_mtime_hint: self.device_mtime_hint.deep_view(),
            last_seen_manifest: self.last_seen_manifest.deep_view(),
            last_synced_at: self.last_synced_at.deep_view(),
        }
    }
}

impl Row for SyncRow {
    open spec fn key_of(v: SyncRowView) -> Seq<char> {
        v.document_id
    }

    fn key(&self) -> (k: &str) {
        self.document_id.as_str()
    }
}

/// An archived document. `parent` is the folder it was in when it was archived.
#[derive(Debug)]
pub struct ArchiveRow {
    pub document_id: String,
    pub visible_name: String,
    pub doc_type: String,
    pub parent: Option<String>,
    pub manifest_hash: String,
    pub version_id: i64,
    pub reason: String,
    pub archived_at: String,
}

/// The model of an [`ArchiveRow`].
pub struct ArchiveRowView {
    pub document_id: Seq<char>,
    pub visible_name: Seq<char>,
    pub doc_type: Seq<char>,
    pub parent: Option<Seq<char>>,
    pub manifest_hash: Seq<char>,
    pub version_id: i64,
    pub reason: Seq<char>,
    pub archived_at: Seq<char>,
}

impl DeepView for ArchiveRow {
    type V = ArchiveRowView;

    open spec fn deep_view(&self) -> ArchiveRowView {
        ArchiveRowView {
            document_id: self.document_id@,
            visible_name: self.visible_name@,
            doc_type: self.doc_type@,
            parent: self.parent.deep_view(),
            manifest_hash: self.manifest_hash@,
            version_id: self.version_id,
            reason: self.reason@,
            archived_at: self.archived_at@,
        }
    }
}

impl Row for ArchiveRow {
    open spec fn key_of(v: ArchiveRowView) -> Seq<char> {
        v.document_id
    }

    fn key(&self) -> (k: &str) {
        self.document_id.as_str()
    }
}

/// The position of a folder among its siblings: the bits of a 64-bit IEEE 754
/// number. Positions compare as the numbers do.
#[derive(Debug, Clone, Copy, PartialEq, Eq, Structural)]
pub struct SortIndex {
    pub bits: u64,
}

impl DeepView for SortIndex {
    type V = SortIndex;

    open spec fn deep_view(&self) -> SortIndex {
        *self
    }
}

/// The bits of an IEEE 754 number taken as a signed integer, sign and magnitude. Finite
/// numbers, and the infinities, are ordered as these integers are; the two zeros are
/// equal.
pub open spec fn ordinal(s: SortIndex) -> int {
    if s.bits < 0x8000_0000_0000_0000 {
        s.bits as int
    } else {
        -(s.bits - 0x8000_0000_0000_0000)
    }
}

/// Whether the number is neither infinite nor not-a-number.
pub open spec fn is_finite(s: SortIndex) -> bool {
    -0x7ff0_0000_0000_0000 < ordinal(s) < 0x7ff0_0000_0000_0000
}

impl SortIndex {
    fn ordinal(self) -> (r: i64)
        ensures
            r == ordinal(self),
    {
        if self.bits < 0x8000_0000_0000_0000 {
            self.bits as i64
        } else {
            0 - ((self.bits - 0x8000_0000_0000_0000) as i64)
        }
    }

    /// Whether this position comes before `other`.
    pub fn less(self, other: SortIndex) -> (r: bool)
        ensures
            r == (ordinal(self) < ordinal(other)),
    {
        self.ordinal() < other.ordinal()
    }

    /// Whether the number is neither infinite nor not-a-number.
    pub fn is_finite(self) -> (r: bool)
        ensures
            r == is_finite(self),
    {
        let n: i64 = self.ordinal();
        -0x7ff0_0000_0000_0000 < n && n < 0x7ff0_0000_0000_0000
    }
}

/// A folder. `deleted_locally` marks a tombstone that the device has yet to hear of,
/// `pending_push` any local change. `last_synced_metadata_json` is the metadata that the
/// device is known to have, `None` for a folder it has never seen.
#[derive(Debug)]
pub struct FolderRow {
    pub folder_id: String,
    pub parent: Option<String>,
    pub visible_name: String,
    pub metadata_json: String,
    pub pending_push: bool,
    pub sort_index: SortIndex,
    pub deleted_locally: bool,
    pub last_synced_metadata_json: Option<String>,
}

/// The model of a [`FolderRow`].
pub struct FolderRowView {
    pub folder_id: Seq<char>,
    pub parent: Option<Seq<char>>,
    pub visible_name: Seq<char>,
    pub metadata_json: Seq<char>,
    pub pending_push: bool,
    pub sort_index: SortIndex,
    pub deleted_locally: bool,
    pub last_synced_metadata_json: Option<Seq<char>>,
}

impl DeepView for FolderRow {
    type V = FolderRowView;

    open spec fn deep_view(&self) -> FolderRowView {
        FolderRowView {
            folder_id: self.folder_id@,
            parent: self.parent.deep_view(),
            visible_name: self.visible_name@,
            metadata_json: self.metadata_json@,
            pending_push: self.pending_push,
            sort_index: self.sort_index,
            deleted_locally: self.deleted_locally,
            last_synced_metadata_json: self.last_synced_metadata_json.deep_view(),
        }
    }
}

impl FolderRow {
    /// A copy of the record.
    pub fn copy(&self) -> (r: Self)
        ensures
            r.deep_view() == self.deep_view(),
    {
        FolderRow {
            folder_id: self.folder_id.clone(),
            parent: text::copy_opt_string(&self.parent),
            visible_name: self.visible_name.clone(),
            metadata_json: self.metadata_json.clone(),
            pending_push: self.pending_push,
            sort_index: self.sort_index,
            deleted_locally: self.deleted_locally,
            last_synced_metadata_json: text::copy_opt_string(&self.last_synced_metadata_json),
        }
    }
}

impl Row for FolderRow {
    open spec fn key_of(v: FolderRowView) -> Seq<char> {
        v.folder_id
    }

    fn key(&self) -> (k: &str) {
        self.folder_id.as_str()
    }
}

/// What reading a manifest blob from disk came to. A blob that is not on disk has no
/// row.
#[derive(Debug)]
pub enum ManifestBlob {
    /// The manifest.
    Decoded(Manifest),
    /// The bytes have another digest than the one they are filed under.
    Corrupt { actual: String },
    /// The bytes are not a manifest.
    Malformed(String),
    /// The file could not be read.
    Unreadable(String),
}

/// The model of a [`ManifestBlob`].
pub enum ManifestBlobView {
    Decoded(ManifestView),
    Corrupt { actual: Seq<char> },
    Malformed(Seq<char>),
    Unreadable(Seq<char>),
}

/// A manifest blob under its digest.
#[derive(Debug)]
pub struct ManifestRow {
    pub hash: String,
    pub blob: ManifestBlob,
}

/// The model of a [`ManifestRow`].
pub struct ManifestRowView {
    pub hash: Seq<char>,
    pub blob: ManifestBlobView,
}

impl DeepView for ManifestBlob {
    type V = ManifestBlobView;

    open spec fn deep_view(&self) -> ManifestBlobView {
        match *self {
            ManifestBlob::Decoded(m) => ManifestBlobView::Decoded(m.deep_view()),
            ManifestBlob::Corrupt { actual } => ManifestBlobView::Corrupt { actual: actual@ },
            ManifestBlob::Malformed(m) => ManifestBlobView::Malformed(m@),
            ManifestBlob::Unreadable(m) => ManifestBlobView::Unreadable(m@),
        }
    }
}

impl DeepView for ManifestRow {
    type V = ManifestRowView;

    open spec fn deep_view(&self) -> ManifestRowView {
        ManifestRowView { hash: self.hash@, blob: self.blob.deep_view() }
    }
}

impl Row for ManifestRow {
    open spec fn key_of(v: ManifestRowView) -> Seq<char> {
        v.hash
    }

    fn key(&self) -> (k: &str) {
        self.hash.as_str()
    }
}

/// A blob that a manifest needs.
#[derive(Debug)]
pub struct BlobRef {
    pub blob_hash: String,
    pub manifest_hash: String,
}

impl DeepView for BlobRef {
    type V = (Seq<char>, Seq<char>);

    open spec fn deep_view(&self) -> (Seq<char>, Seq<char>) {
        (self.blob_hash@, self.manifest_hash@)
    }
}

/// Positions compare as the numbers do: those without a sign by their bits, those with a sign the
/// other way round, and those with a sign come before those without, but that the two zeros are
/// one. A number is finite exactly if its exponent is not the greatest one.
pub proof fn positions_compare_as_numbers(a: SortIndex, b: SortIndex)
    ensures
        a.bits < 0x8000_0000_0000_0000 && b.bits < 0x8000_0000_0000_0000 ==> (ordinal(a) < ordinal(b)
            <==> a.bits < b.bits),
        a.bits >= 0x8000_0000_0000_0000 && b.bits >= 0x8000_0000_0000_0000 ==> (ordinal(a)
            < ordinal(b) <==> a.bits > b.bits),
        a.bits > 0x8000_0000_0000_0000 && b.bits < 0x8000_0000_0000_0000 ==> ordinal(a) < ordinal(b),
        a.bits == 0x8000_0000_0000_0000 && b.bits == 0 ==> ordinal(a) == ordinal(b),
        is_finite(a) <==> a.bits < 0x7ff0_0000_0000_0000 || 0x8000_0000_0000_0000 <= a.bits
            < 0xfff0_0000_0000_0000,
{
}

} // verus!
