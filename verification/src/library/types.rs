//! What the library takes and reports.

use vstd::prelude::*;

use crate::hash::Sha256Hex;
use crate::library::rows::SortIndex;
use crate::text;

verus! {

/// Where a version came from.
#[derive(Debug, Clone, Copy, PartialEq, Eq, Structural)]
pub enum Source {
    /// Read from the device.
    Pulled,
    /// Brought in from a file, or attached to a document by the library.
    Imported,
    /// Made by a local edit, or by going back to an older version.
    Restored,
}

/// How a source is written in the version log.
pub open spec fn source_text(s: Source) -> Seq<char> {
    match s {
        Source::Pulled => "pulled"@,
        Source::Imported => "imported"@,
        Source::Restored => "restored"@,
    }
}

/// The source that a text of the version log stands for.
pub open spec fn source_of_text(t: Seq<char>) -> Option<Source> {
    if t == "pulled"@ {
        Some(Source::Pulled)
    } else if t == "imported"@ {
        Some(Source::Imported)
    } else if t == "restored"@ {
        Some(Source::Restored)
    } else {
        None
    }
}

impl Source {
    /// The text of the source in the version log.
    pub fn as_str(self) -> (r: &'static str)
        ensures
            r@ == source_text(self),
            self == Source::Pulled ==> r@ == "pulled"@,
            self == Source::Imported ==> r@ == "imported"@,
            self == Source::Restored ==> r@ == "restored"@,
    {
        match self {
            Source::Pulled => "pulled",
            Source::Imported => "imported",
            Source::Restored => "restored",
        }
    }

    /// Reads a source from the version log.
    pub fn parse(s: &str) -> (r: Option<Self>)
        ensures
            r == source_of_text(s@),
    {
        if text::str_eq(s, "pulled") {
            Some(Source::Pulled)
        } else if text::str_eq(s, "imported") {
            Some(Source::Imported)
        } else if text::str_eq(s, "restored") {
            Some(Source::Restored)
        } else {
            None
        }
    }
}

/// A source that is written down reads back as itself.
pub proof fn source_survives_the_log(s: Source)
    ensures
        source_of_text(source_text(s)) == Some(s),
{
    reveal_strlit("pulled");
    reveal_strlit("imported");
    reveal_strlit("restored");
    assert("pulled"@[0] != "imported"@[0] && "pulled"@[0] != "restored"@[0]);
    assert("imported"@[0] != "restored"@[0]);
}

/// The number of a version in the log.
pub type VersionId = i64;

/// A document as the library lists it.
#[derive(Debug)]
pub struct DocumentSummary {
    pub document_id: String,
    pub visible_name: String,
    pub doc_type: String,
    pub current_manifest: Sha256Hex,
    pub current_version_id: VersionId,
    /// When the current version was recorded, in the RFC 3339 format.
    pub last_observed_at: String,
    /// The folder the document is in. `None` for the root; `"trash"` is the device's
    /// trash.
    pub parent: Option<String>,
    /// Bytes of all files of the current version.
    pub size_bytes: u64,
    pub page_count: Option<u32>,
    /// Whether the device lacks the current version.
    pub has_unpushed_changes: bool,
}

/// The model of a [`DocumentSummary`].
pub struct SummaryView {
    pub document_id: Seq<char>,
    pub visible_name: Seq<char>,
    pub doc_type: Seq<char>,
    pub current_manifest: Seq<char>,
    pub current_version_id: i64,
    pub last_observed_at: Seq<char>,
    pub parent: Option<Seq<char>>,
    pub size_bytes: u64,
    pub page_count: Option<u32>,
    pub has_unpushed_changes: bool,
}

impl DeepView for DocumentSummary {
    type V = SummaryView;

    open spec fn deep_view(&self) -> SummaryView {
        SummaryView {
            document_id: self.document_id@,
            visible_name: self.visible_name@,
            doc_type: self.doc_type@,
            current_manifest: self.current_manifest@,
            current_version_id: self.current_version_id,
            last_observed_at: self.last_observed_at@,
            parent: self.parent.deep_view(),
            size_bytes: self.size_bytes,
            page_count: self.page_count,
            has_unpushed_changes: self.has_unpushed_changes,
        }
    }
}

/// A folder as the library lists it.
#[derive(Debug)]
pub struct FolderEntry {
    pub folder_id: String,
    pub parent: Option<String>,
    pub visible_name: String,
    /// Position among the siblings; the device has no such order.
    pub sort_index: SortIndex,
}

/// The model of a [`FolderEntry`].
pub struct FolderEntryView {
    pub folder_id: Seq<char>,
    pub parent: Option<Seq<char>>,
    pub visible_name: Seq<char>,
    pub sort_index: SortIndex,
}

impl DeepView for FolderEntry {
    type V = FolderEntryView;

    open spec fn deep_view(&self) -> FolderEntryView {
        FolderEntryView {
            folder_id: self.folder_id@,
            parent: self.parent.deep_view(),
            visible_name: self.visible_name@,
            sort_index: self.sort_index,
        }
    }
}

/// How many children were lifted out of a deleted folder.
#[derive(Debug, Clone, Copy, PartialEq, Eq, Structural)]
pub struct DeleteFolderOutcome {
    pub folders_moved: usize,
    pub documents_moved: usize,
}

/// What a revert undid.
#[derive(Debug, Clone, Copy, PartialEq, Eq, Structural)]
pub struct RevertReport {
    /// Folders taken back to what the device last saw.
    pub folders_restored: usize,
    /// Folders that the device has never seen, now gone.
    pub folders_dropped: usize,
    /// Documents taken back to the version the device has.
    pub documents_rolled_back: usize,
}

/// A folder change that the device has yet to hear of.
#[derive(Debug)]
pub enum FolderPushOp {
    /// Upload the metadata of the folder.
    Upsert { folder_id: String, metadata_json: String },
    /// Remove everything that belongs to the folder.
    Delete { folder_id: String },
}

/// The model of a [`FolderPushOp`].
pub enum FolderPushOpView {
    Upsert { folder_id: Seq<char>, metadata_json: Seq<char> },
    Delete { folder_id: Seq<char> },
}

impl DeepView for FolderPushOp {
    type V = FolderPushOpView;

    open spec fn deep_view(&self) -> FolderPushOpView {
        match *self {
            FolderPushOp::Upsert { folder_id, metadata_json } => FolderPushOpView::Upsert {
                folder_id: folder_id@,
                metadata_json: metadata_json@,
            },
            FolderPushOp::Delete { folder_id } => FolderPushOpView::Delete { folder_id: folder_id@ },
        }
    }
}

impl FolderPushOpView {
    /// The folder that the change is about.
    pub open spec fn target(self) -> Seq<char> {
        match self {
            FolderPushOpView::Upsert { folder_id, .. } => folder_id,
            FolderPushOpView::Delete { folder_id } => folder_id,
        }
    }
}

/// Which kind of folder change reached the device.
#[derive(Debug, Clone, Copy, PartialEq, Eq, Structural)]
pub enum FolderPushKind {
    Upsert,
    Delete,
}

impl FolderPushOp {
    /// The folder that the change is about.
    pub fn folder_id(&self) -> (r: &str)
        ensures
            r@ == self.deep_view().target(),
    {
        match self {
            FolderPushOp::Upsert { folder_id, .. } => folder_id.as_str(),
            FolderPushOp::Delete { folder_id } => folder_id.as_str(),
        }
    }

    /// The kind of the change.
    pub fn kind(&self) -> (r: FolderPushKind)
        ensures
            r == (if self is Upsert {
                FolderPushKind::Upsert
            } else {
                FolderPushKind::Delete
            }),
    {
        match self {
            FolderPushOp::Upsert { .. } => FolderPushKind::Upsert,
            FolderPushOp::Delete { .. } => FolderPushKind::Delete,
        }
    }
}

/// A version as the history shows it.
#[derive(Debug)]
pub struct VersionEntry {
    pub id: VersionId,
    pub document_id: String,
    pub manifest_hash: Sha256Hex,
    pub parent_version_id: Option<VersionId>,
    pub observed_at: String,
    pub source: Source,
    pub note: Option<String>,
    /// Bytes of all files. `None` if the manifest cannot be read.
    pub total_size_bytes: Option<u64>,
    /// Number of files. `None` if the manifest cannot be read.
    pub file_count: Option<usize>,
}

/// The model of a [`VersionEntry`].
pub struct VersionEntryView {
    pub id: i64,
    pub document_id: Seq<char>,
    pub manifest_hash: Seq<char>,
    pub parent_version_id: Option<i64>,
    pub observed_at: Seq<char>,
    pub source: Source,
    pub note: Option<Seq<char>>,
    pub total_size_bytes: Option<u64>,
    pub file_count: Option<usize>,
}

impl DeepView for VersionEntry {
    type V = VersionEntryView;

    open spec fn deep_view(&self) -> VersionEntryView {
        VersionEntryView {
            id: self.id,
            document_id: self.document_id@,
            manifest_hash: self.manifest_hash@,
            parent_version_id: self.parent_version_id,
            observed_at: self.observed_at@,
            source: self.source,
            note: self.note.deep_view(),
            total_size_bytes: self.total_size_bytes,
            file_count: self.file_count,
        }
    }
}

/// What recording a version came to.
#[derive(Debug)]
pub struct RecordOutcome {
    pub version_id: VersionId,
    pub manifest_hash: Sha256Hex,
    /// Whether the manifest was current already, so that nothing was appended.
    pub unchanged: bool,
}

/// The model of a [`RecordOutcome`].
pub struct RecordView {
    pub version_id: i64,
    pub manifest_hash: Seq<char>,
    pub unchanged: bool,
}

impl DeepView for RecordOutcome {
    type V = RecordView;

    open spec fn deep_view(&self) -> RecordView {
        RecordView {
            version_id: self.version_id,
            manifest_hash: self.manifest_hash@,
            unchanged: self.unchanged,
        }
    }
}

/// Why a document is archived.
#[derive(Debug, Clone, Copy, PartialEq, Eq, Structural)]
pub enum ArchiveReason {
    /// Deleted in the library.
    Local,
    /// No longer on the device.
    Device,
}

/// How a reason is written down.
pub open spec fn reason_text(r: ArchiveReason) -> Seq<char> {
    match r {
        ArchiveReason::Local => "local"@,
        ArchiveReason::Device => "device"@,
    }
}

/// The reason that a text stands for.
pub open spec fn reason_of_text(t: Seq<char>) -> Option<ArchiveReason> {
    if t == "local"@ {
        Some(ArchiveReason::Local)
    } else if t == "device"@ {
        Some(ArchiveReason::Device)
    } else {
        None
    }
}

impl ArchiveReason {
    /// The text of the reason.
    pub fn as_str(self) -> (r: &'static str)
        ensures
            r@ == reason_text(self),
            self == ArchiveReason::Local ==> r@ == "local"@,
            self == ArchiveReason::Device ==> r@ == "device"@,
    {
        match self {
            ArchiveReason::Local => "local",
            ArchiveReason::Device => "device",
        }
    }

    /// Reads a reason.
    pub fn parse(s: &str) -> (r: Option<Self>)
        ensures
            r == reason_of_text(s@),
    {
        if text::str_eq(s, "local") {
            Some(ArchiveReason::Local)
        } else if text::str_eq(s, "device") {
            Some(ArchiveReason::Device)
        } else {
            None
        }
    }
}

/// A reason that is written down reads back as itself.
pub proof fn reason_survives_the_log(r: ArchiveReason)
    ensures
        reason_of_text(reason_text(r)) == Some(r),
{
    reveal_strlit("local");
    reveal_strlit("device");
    assert("local"@[0] != "device"@[0]);
}

/// A document in the archive.
#[derive(Debug)]
pub struct ArchivedDocument {
    pub document_id: String,
    pub visible_name: String,
    pub doc_type: String,
    pub parent: Option<String>,
    pub manifest_hash: Sha256Hex,
    pub version_id: VersionId,
    pub reason: ArchiveReason,
    pub archived_at: String,
}

/// The model of an [`ArchivedDocument`].
pub struct ArchivedView {
    pub document_id: Seq<char>,
    pub visible_name: Seq<char>,
    pub doc_type: Seq<char>,
    pub parent: Option<Seq<char>>,
    pub manifest_hash: Seq<char>,
    pub version_id: i64,
    pub reason: ArchiveReason,
    pub archived_at: Seq<char>,
}

impl DeepView for ArchivedDocument {
    type V = ArchivedView;

    open spec fn deep_view(&self) -> ArchivedView {
        ArchivedView {
            document_id: self.document_id@,
            visible_name: self.visible_name@,
            doc_type: self.doc_type@,
            parent: self.parent.deep_view(),
            manifest_hash: self.manifest_hash@,
            version_id: self.version_id,
            reason: self.reason,
            archived_at: self.archived_at@,
        }
    }
}

/// What a garbage collection did.
#[derive(Debug, Clone, Copy, PartialEq, Eq, Structural)]
pub struct GarbageCollectReport {
    pub scanned: usize,
    pub deleted: usize,
    pub bytes_freed: u64,
    pub errors: usize,
}

/// What an integrity check found.
#[derive(Debug)]
pub struct VerifyReport {
    pub manifests_total: usize,
    pub manifests_ok: usize,
    pub manifests_missing: usize,
    pub manifests_invalid: usize,
    pub blobs_total: usize,
    pub blobs_missing: usize,
    pub blobs_orphan: usize,
    pub blobs_corrupted: usize,
    /// Up to five `<document_id>:<path>` of missing blobs.
    pub missing_examples: Vec<String>,
    /// Up to five paths of blobs that no manifest needs.
    pub orphan_examples: Vec<String>,
}

/// What a directory holds that might become a library.
#[derive(Debug, Clone, Copy, PartialEq, Eq, Structural)]
pub enum LibraryPathKind {
    /// Nothing: a library may be created here.
    Empty,
    /// A library.
    Existing,
}

/// How to export a version.
#[derive(Debug, Clone, Copy, PartialEq, Eq, Structural)]
pub struct ReconstructOptions {
    /// Replace files that exist already. Otherwise the first one stops the export before
    /// anything is written.
    pub allow_overwrite: bool,
}

impl Default for ReconstructOptions {
    fn default() -> (r: Self)
        ensures
            !r.allow_overwrite,
    {
        ReconstructOptions { allow_overwrite: false }
    }
}

} // verus!
