//! Documents: the listing, and edits of their metadata.
//!
//! An edit of a document goes in three steps. The library looks up the document and names
//! the metadata blob that the edit starts from ([`EditRequest`]); the caller reads that
//! blob and applies the edit to it ([`EditRequest::apply`]); the caller stores the new
//! metadata and manifest blobs, and the library records the result
//! ([`Library::record_metadata_change`]).

use vstd::prelude::*;

use crate::error;
use crate::error::{CoreError, ErrorView};
use crate::hash;
use crate::hash::Sha256Hex;
use crate::json;
use crate::library::rows::{ArchiveRow, ArchiveRowView, DocumentRow, SyncRow, SyncRowView};
use crate::library::archive;
use crate::library::types::{ArchiveReason, ArchivedView, DocumentSummary, RecordOutcome, RecordView};
use crate::library::types::{Source, SummaryView};
use crate::library::types;
use crate::library::versions;
use crate::library::{Library, LibraryView};
use crate::library;
use crate::manifest;
use crate::manifest::{FileView, Manifest, ManifestView};
use crate::table;
use crate::text;

verus! {

/// The page count in the content description of a document, if it fits.
pub open spec fn page_count(content_meta: serde_json::Value) -> Option<u32> {
    match json::count_field(content_meta, "pageCount"@) {
        Some(n) => if n <= u32::MAX {
            Some(n as u32)
        } else {
            None
        },
        None => None,
    }
}

/// The size of the files of a manifest that can be read, and the number of its pages.
pub open spec fn size_and_pages(v: LibraryView, digest: Seq<char>) -> (u64, Option<u32>) {
    match v.manifest(digest) {
        Ok(m) => (manifest::total_size(m.files) as u64, page_count(m.content_meta)),
        Err(_) => (0, None),
    }
}

/// Reads the page count of a document from its content description.
pub(crate) fn read_page_count(content_meta: &serde_json::Value) -> (r: Option<u32>)
    ensures
        r == page_count(*content_meta),
{
    match json::get_count(content_meta, "pageCount") {
        Some(n) => if n <= u32::MAX as u64 {
            Some(n as u32)
        } else {
            None
        },
        None => None,
    }
}

/// Whether the device lacks the current version of a live document. A document that has
/// never been on the device counts.
pub open spec fn is_unpushed(v: LibraryView, document_id: Seq<char>) -> bool {
    !v.sync.contains_key(document_id) || v.sync[document_id].last_seen_manifest != Some(
        v.documents[document_id].current_manifest,
    )
}

/// The report of a manifest hash that is no digest.
pub open spec fn bad_hash(v: LibraryView, document_id: Seq<char>) -> ErrorView {
    ErrorView::Corrupt { path: v.db_path, reason: "bad manifest hash for "@ + document_id }
}

/// Whether a live document is listed: its current version has to be in the log.
pub open spec fn is_listed(v: LibraryView, document_id: Seq<char>) -> bool {
    v.documents.contains_key(document_id) && v.version(
        v.documents[document_id].current_version_id,
    ) is Some
}

/// The summary of a listed document.
pub open spec fn live_summary(v: LibraryView, document_id: Seq<char>) -> Result<SummaryView, ErrorView> {
    let row = v.documents[document_id];
    if !hash::is_hex_digest(row.current_manifest) {
        Err(bad_hash(v, document_id))
    } else {
        match v.manifest(row.current_manifest) {
            Err(e) => Err(e),
            Ok(m) => Ok(
                SummaryView {
                    document_id,
                    visible_name: m.visible_name,
                    doc_type: m.doc_type,
                    current_manifest: row.current_manifest,
                    current_version_id: row.current_version_id,
                    last_observed_at: v.version(row.current_version_id)->0.observed_at,
                    parent: m.parent,
                    size_bytes: manifest::total_size(m.files) as u64,
                    page_count: page_count(m.content_meta),
                    has_unpushed_changes: is_unpushed(v, document_id),
                },
            ),
        }
    }
}

/// The summaries of those documents of `ids` that are listed, up to the first that cannot
/// be read.
pub open spec fn summaries(v: LibraryView, ids: Seq<Seq<char>>) -> Result<Seq<SummaryView>, ErrorView>
    decreases ids.len(),
{
    if ids.len() == 0 {
        Ok(seq![])
    } else {
        match summaries(v, ids.drop_last()) {
            Err(e) => Err(e),
            Ok(list) => if !is_listed(v, ids.last()) {
                Ok(list)
            } else {
                match live_summary(v, ids.last()) {
                    Err(e) => Err(e),
                    Ok(s) => Ok(list.push(s)),
                }
            },
        }
    }
}

/// The live documents in ascending order of their identifiers.
pub open spec fn document_listing(v: LibraryView) -> Result<Seq<SummaryView>, ErrorView> {
    summaries(v, table::sorted_keys(v.documents))
}

proof fn lemma_summaries_fail(v: LibraryView, ids: Seq<Seq<char>>, n: int)
    requires
        0 <= n <= ids.len(),
        summaries(v, ids.take(n)) is Err,
    ensures
        summaries(v, ids) == summaries(v, ids.take(n)),
    decreases ids.len(),
{
    if n == ids.len() {
        assert(ids.take(n) =~= ids);
    } else {
        assert(ids.drop_last().take(n) =~= ids.take(n));
        lemma_summaries_fail(v, ids.drop_last(), n);
    }
}

impl Library {
    /// The digest that a live document's row holds.
    pub(crate) fn digest_for(&self, document_id: &str, digits: &str) -> (r: Result<Sha256Hex, CoreError>)
        ensures
            match r {
                Ok(h) => hash::is_hex_digest(digits@) && h@ == digits@,
                Err(e) => !hash::is_hex_digest(digits@) && e.deep_view() == bad_hash(self@, document_id@),
            },
    {
        match Sha256Hex::from_hex(digits) {
            Some(h) => Ok(h),
            None => Err(
                CoreError::Corrupt {
                    path: self.blobs.paths().db.clone(),
                    reason: text::concat2("bad manifest hash for ", document_id),
                },
            ),
        }
    }

    /// Reads the size and the page count of a manifest, as far as it can be read.
    pub(crate) fn measure(&self, digest: &Sha256Hex) -> (r: (u64, Option<u32>))
        requires
            self.wf(),
        ensures
            r == size_and_pages(self@, digest@),
    {
        match self.manifest(digest) {
            Ok(m) => (m.total_size(), read_page_count(&m.content_meta)),
            Err(_) => (0, None),
        }
    }

    /// Summarises the live document at position `n`, whose current version is the entry `at`
    /// of the log.
    fn summarize(&self, row: &DocumentRow, at: usize) -> (r: Result<DocumentSummary, CoreError>)
        requires
            self.wf(),
            self@.documents.contains_key(row.document_id@),
            self@.documents[row.document_id@] == row.deep_view(),
            at < self@.versions.len(),
            self@.version(row.current_version_id) == Some(self@.versions[at as int]),
        ensures
            error::outcome(r) == live_summary(self@, row.document_id@),
    {
        let digest = match self.digest_for(row.document_id.as_str(), row.current_manifest.as_str()) {
            Ok(digest) => digest,
            Err(e) => {
                return Err(e);
            },
        };
        let m = match self.manifest(&digest) {
            Ok(m) => m,
            Err(e) => {
                return Err(e);
            },
        };
        let page_count = read_page_count(&m.content_meta);
        let has_unpushed_changes = match self.sync.get(row.document_id.as_str()) {
            Some(sync) => match &sync.last_seen_manifest {
                Some(seen) => !text::str_eq(seen.as_str(), row.current_manifest.as_str()),
                None => true,
            },
            None => true,
        };
        assert(self.versions[at as int].deep_view() == self@.versions[at as int]);
        Ok(
            DocumentSummary {
                document_id: row.document_id.clone(),
                visible_name: m.visible_name.clone(),
                doc_type: m.doc_type.clone(),
                current_manifest: digest,
                current_version_id: row.current_version_id,
                last_observed_at: self.versions[at].observed_at.clone(),
                parent: text::copy_opt_string(&m.parent),
                size_bytes: m.total_size(),
                page_count,
                has_unpushed_changes,
            },
        )
    }

    /// The live documents in ascending order of their identifiers.
    pub fn list_documents(&self) -> (r: Result<Vec<DocumentSummary>, CoreError>)
        requires
            self.wf(),
        ensures
            error::outcome(r) == document_listing(self@),
    {
        let mut out: Vec<DocumentSummary> = Vec::new();
        let ghost rows = self.documents.listing();
        let ghost ids = table::keys_along::<DocumentRow>(rows);
        proof {
            table::lemma_keys_along::<DocumentRow>(rows);
            assert(ids.take(0) =~= seq![]);
            assert(out.deep_view() =~= seq![]);
        }
        let mut n: usize = 0;
        while n < self.documents.len()
            invariant
                self.wf(),
                rows == self.documents.listing(),
                ids == table::keys_along::<DocumentRow>(rows),
                ids == table::sorted_keys(self@.documents),
                n <= rows.len(),
                summaries(self@, ids.take(n as int)) == Ok::<Seq<SummaryView>, ErrorView>(
                    out.deep_view(),
                ),
            decreases rows.len() - n,
        {
            let row = self.documents.row(n);
            proof {
                table::lemma_by_key::<DocumentRow>(rows, n as int);
                assert(ids.take(n + 1).drop_last() =~= ids.take(n as int));
                assert(ids.take(n + 1).last() == row.document_id@);
            }
            match self.version_position(row.current_version_id) {
                None => {},
                Some(at) => match self.summarize(row, at) {
                    Ok(summary) => {
                        let ghost before = out.deep_view();
                        out.push(summary);
                        assert(out.deep_view() =~= before.push(summary.deep_view()));
                    },
                    Err(e) => {
                        proof {
                            lemma_summaries_fail(self@, ids, n + 1);
                        }
                        return Err(e);
                    },
                },
            }
            n = n + 1;
        }
        assert(ids.take(ids.len() as int) =~= ids);
        Ok(out)
    }
}

/// The fields that an edit sets in a document's metadata.
#[derive(Debug)]
pub struct MetadataPatch {
    pub deleted: Option<bool>,
    pub parent: Option<String>,
    pub visible_name: Option<String>,
}

/// The model of a [`MetadataPatch`].
pub struct PatchView {
    pub deleted: Option<bool>,
    pub parent: Option<Seq<char>>,
    pub visible_name: Option<Seq<char>>,
}

impl DeepView for MetadataPatch {
    type V = PatchView;

    open spec fn deep_view(&self) -> PatchView {
        PatchView {
            deleted: self.deleted,
            parent: self.parent.deep_view(),
            visible_name: self.visible_name.deep_view(),
        }
    }
}

/// What happens to a document besides the edit of its metadata.
#[derive(Debug)]
pub enum PostAction {
    /// It stays where it is.
    Keep,
    /// It moves from the live documents to the archive.
    Archive {
        reason: ArchiveReason,
        visible_name: String,
        doc_type: String,
        original_parent: Option<String>,
    },
    /// It leaves the archive.
    Unarchive,
}

/// The model of a [`PostAction`].
pub enum PostActionView {
    Keep,
    Archive {
        reason: ArchiveReason,
        visible_name: Seq<char>,
        doc_type: Seq<char>,
        original_parent: Option<Seq<char>>,
    },
    Unarchive,
}

impl DeepView for PostAction {
    type V = PostActionView;

    open spec fn deep_view(&self) -> PostActionView {
        match *self {
            PostAction::Keep => PostActionView::Keep,
            PostAction::Archive { reason, visible_name, doc_type, original_parent } =>
                PostActionView::Archive {
                reason,
                visible_name: visible_name@,
                doc_type: doc_type@,
                original_parent: original_parent.deep_view(),
            },
            PostAction::Unarchive => PostActionView::Unarchive,
        }
    }
}

/// An edit that waits for the metadata blob it starts from.
#[derive(Debug)]
pub struct EditRequest {
    pub document_id: String,
    /// The manifest that the edit starts from.
    pub manifest: Manifest,
    /// The digest of that manifest.
    pub base: String,
    /// Which file of the manifest is the metadata.
    pub metadata_index: usize,
    pub patch: MetadataPatch,
    pub post: PostAction,
}

/// The model of an [`EditRequest`].
pub struct EditRequestView {
    pub document_id: Seq<char>,
    pub manifest: ManifestView,
    pub base: Seq<char>,
    pub metadata_index: int,
    pub patch: PatchView,
    pub post: PostActionView,
}

impl DeepView for EditRequest {
    type V = EditRequestView;

    open spec fn deep_view(&self) -> EditRequestView {
        EditRequestView {
            document_id: self.document_id@,
            manifest: self.manifest.deep_view(),
            base: self.base@,
            metadata_index: self.metadata_index as int,
            patch: self.patch.deep_view(),
            post: self.post.deep_view(),
        }
    }
}

/// An edit that has been applied and waits to be recorded.
#[derive(Debug)]
pub struct EditedDocument {
    pub document_id: String,
    /// The manifest of the new version.
    pub manifest: Manifest,
    /// The digest of the manifest that the edit started from.
    pub base: String,
    /// The new metadata file; the manifest refers to it by its digest.
    pub metadata_bytes: Vec<u8>,
    pub post: PostAction,
}

/// The model of an [`EditedDocument`].
pub struct EditedView {
    pub document_id: Seq<char>,
    pub manifest: ManifestView,
    pub base: Seq<char>,
    pub metadata_bytes: Seq<u8>,
    pub post: PostActionView,
}

impl DeepView for EditedDocument {
    type V = EditedView;

    open spec fn deep_view(&self) -> EditedView {
        EditedView {
            document_id: self.document_id@,
            manifest: self.manifest.deep_view(),
            base: self.base@,
            metadata_bytes: self.metadata_bytes@,
            post: self.post.deep_view(),
        }
    }
}

/// The position of the metadata file: the first whose path ends in `.metadata`.
pub open spec fn is_metadata_index(files: Seq<FileView>, i: int) -> bool {
    &&& 0 <= i < files.len()
    &&& text::has_suffix(files[i].path, ".metadata"@)
    &&& forall|j: int| 0 <= j < i ==> !text::has_suffix((#[trigger] files[j]).path, ".metadata"@)
}

/// The digest of the manifest that an edit of a document starts from: the current one if it is
/// live. An archived document can only be edited to bring it back.
pub open spec fn edit_digest(v: LibraryView, document_id: Seq<char>, post: PostActionView) -> Option<
    Seq<char>,
> {
    if v.documents.contains_key(document_id) {
        Some(v.documents[document_id].current_manifest)
    } else if post is Unarchive && v.archived.contains_key(document_id) {
        Some(v.archived[document_id].manifest_hash)
    } else {
        None
    }
}

/// The manifest that an edit of a document starts from.
pub open spec fn edit_base(v: LibraryView, document_id: Seq<char>, post: PostActionView) -> Result<
    ManifestView,
    ErrorView,
> {
    match edit_digest(v, document_id, post) {
        None => Err(ErrorView::NotFound("document "@ + document_id)),
        Some(d) => if !hash::is_hex_digest(d) {
            Err(bad_hash(v, document_id))
        } else {
            v.manifest(d)
        },
    }
}

/// Whether `r` is the answer to the request for an edit.
pub open spec fn answers_edit(
    v: LibraryView,
    document_id: Seq<char>,
    patch: PatchView,
    post: PostActionView,
    r: Result<EditRequestView, ErrorView>,
) -> bool {
    match edit_base(v, document_id, post) {
        Err(e) => r == Err::<EditRequestView, ErrorView>(e),
        Ok(m) => match r {
            Ok(request) => {
                &&& request.document_id == document_id
                &&& request.manifest == m
                &&& edit_digest(v, document_id, post) == Some(request.base)
                &&& request.patch == patch
                &&& request.post == post
                &&& is_metadata_index(m.files, request.metadata_index)
            },
            Err(e) => {
                &&& forall|i: int|
                    0 <= i < m.files.len() ==> !text::has_suffix(
                        (#[trigger] m.files[i]).path,
                        ".metadata"@,
                    )
                &&& e == (ErrorView::Corrupt {
                    path: "<manifest>"@,
                    reason: "document "@ + document_id + " has no .metadata file"@,
                })
            },
        },
    }
}

/// Metadata fields with the edit made.
pub open spec fn patched(
    fields: Map<Seq<char>, serde_json::Value>,
    patch: PatchView,
) -> Map<Seq<char>, serde_json::Value> {
    let a = match patch.deleted {
        Some(b) => fields.insert("deleted"@, json::bool_value(b)),
        None => fields,
    };
    let b = match patch.parent {
        Some(p) => a.insert("parent"@, json::string_value(p)),
        None => a,
    };
    match patch.visible_name {
        Some(n) => b.insert("visibleName"@, json::string_value(n)),
        None => b,
    }
}

/// The text under `key`, if there is a string there.
pub open spec fn text_in(fields: Map<Seq<char>, serde_json::Value>, key: Seq<char>) -> Option<Seq<char>> {
    if fields.contains_key(key) {
        json::json_str(fields[key])
    } else {
        None
    }
}

/// The folder that metadata fields put a document in; the empty text is the root.
pub open spec fn parent_in(fields: Map<Seq<char>, serde_json::Value>) -> Option<Seq<char>> {
    match text_in(fields, "parent"@) {
        Some(p) => if p.len() == 0 {
            None
        } else {
            Some(p)
        },
        None => None,
    }
}

/// The manifest of the new version: the metadata file is replaced, and the name and the
/// folder follow the metadata.
pub open spec fn edited_manifest(
    m: ManifestView,
    index: int,
    fields: Map<Seq<char>, serde_json::Value>,
    bytes: Seq<u8>,
) -> ManifestView {
    ManifestView {
        files: m.files.update(
            index,
            FileView { sha256: hash::digest_hex(bytes), size: bytes.len() as u64, ..m.files[index] },
        ),
        metadata: json::object_value(fields),
        parent: parent_in(fields),
        visible_name: match text_in(fields, "visibleName"@) {
            Some(n) => n,
            None => m.visible_name,
        },
        ..m
    }
}

/// What applying an edit to the bytes of the metadata blob comes to.
pub open spec fn applied(request: EditRequestView, metadata: Seq<u8>, now_ms: i64) -> Result<
    EditedView,
    ErrorView,
> {
    match json::parsed_json(metadata) {
        Err(m) => Err(ErrorView::Json(m)),
        Ok(value) => match json::json_object(value) {
            None => Err(
                ErrorView::Corrupt {
                    path: "<manifest>"@,
                    reason: "metadata for "@ + request.document_id + " is not a JSON object"@,
                },
            ),
            Some(fields) => {
                let after = json::touched(patched(fields, request.patch), now_ms);
                let bytes = json::pretty_json(json::object_value(after));
                Ok(
                    EditedView {
                        document_id: request.document_id,
                        manifest: edited_manifest(
                            request.manifest,
                            request.metadata_index,
                            after,
                            bytes,
                        ),
                        base: request.base,
                        metadata_bytes: bytes,
                        post: request.post,
                    },
                )
            },
        },
    }
}

/// The marks of an edit leave the name, the folder and the deletion mark as they are, which are
/// three fields.
pub proof fn lemma_marks_spare_the_patch(fields: Map<Seq<char>, serde_json::Value>, now_ms: i64)
    ensures
        text_in(json::touched(fields, now_ms), "visibleName"@) == text_in(fields, "visibleName"@),
        text_in(json::touched(fields, now_ms), "parent"@) == text_in(fields, "parent"@),
        "visibleName"@ != "parent"@,
        "deleted"@ != "parent"@,
        json::touched(fields, now_ms).contains_key("deleted"@) == fields.contains_key("deleted"@),
        json::touched(fields, now_ms)["deleted"@] == fields["deleted"@],
{
    reveal_strlit("visibleName");
    reveal_strlit("parent");
    reveal_strlit("lastModified");
    reveal_strlit("modified");
    reveal_strlit("metadatamodified");
    reveal_strlit("synced");
    assert("visibleName"@.len() == 11 && "lastModified"@.len() == 12);
    assert("modified"@.len() == 8 && "metadatamodified"@.len() == 16);
    reveal_strlit("deleted");
    assert("deleted"@.len() == 7 && "deleted"@[0] == 'd');
    assert("parent"@.len() == 6 && "parent"@[0] == 'p' && "synced"@[0] == 's');
}

/// Whether an edit gave the document the name and the folder that a patch asks for.
pub open spec fn meets(patch: PatchView, edited: EditedView) -> bool {
    &&& patch.visible_name matches Some(n) ==> edited.manifest.visible_name == n
    &&& patch.parent matches Some(p) ==> edited.manifest.parent == (if p.len() == 0 {
        None
    } else {
        Some(p)
    })
}

/// Whether an edit did what it was asked for and no more. The new metadata file is the new
/// metadata of the manifest; what the edit sets is set there, and so are the marks of a local
/// edit; every other field is as it was. Of the files only the metadata file is another one.
pub open spec fn is_edited(
    request: EditRequestView,
    old_metadata: serde_json::Value,
    edited: EditedView,
    now_ms: i64,
) -> bool {
    let before = request.manifest;
    let after = edited.manifest;
    let i = request.metadata_index;
    &&& edited.document_id == request.document_id
    &&& edited.base == request.base
    &&& edited.post == request.post
    &&& edited.metadata_bytes == json::pretty_json(after.metadata)
    &&& request.patch.deleted matches Some(b) ==> json::flag_field(after.metadata, "deleted"@)
        == Some(b)
    &&& request.patch.parent matches Some(p) ==> json::text_field(after.metadata, "parent"@)
        == Some(p)
    &&& request.patch.visible_name matches Some(n) ==> json::text_field(
        after.metadata,
        "visibleName"@,
    ) == Some(n)
    &&& json::text_field(after.metadata, "lastModified"@) == Some(text::decimal(now_ms as int))
    &&& json::flag_field(after.metadata, "modified"@) == Some(true)
    &&& json::flag_field(after.metadata, "metadatamodified"@) == Some(true)
    &&& json::flag_field(after.metadata, "synced"@) == Some(false)
    &&& forall|k: Seq<char>|
        {
            &&& k != "lastModified"@ && k != "modified"@
            &&& k != "metadatamodified"@ && k != "synced"@
            &&& k != "deleted"@ || request.patch.deleted is None
            &&& k != "parent"@ || request.patch.parent is None
            &&& k != "visibleName"@ || request.patch.visible_name is None
        } ==> #[trigger] json::field(after.metadata, k) == json::field(old_metadata, k)
    &&& after.files.len() == before.files.len()
    &&& forall|j: int|
        0 <= j < before.files.len() && j != i ==> #[trigger] after.files[j] == before.files[j]
    &&& after.files[i].path == before.files[i].path
    &&& after.files[i].sha256 == hash::digest_hex(edited.metadata_bytes)
    &&& after.files[i].size == edited.metadata_bytes.len() as u64
    &&& after.files[i].mode == before.files[i].mode
    &&& after.files[i].derived == before.files[i].derived
    &&& after.document_id == before.document_id
    &&& after.doc_type == before.doc_type
    &&& after.content_meta == before.content_meta
    &&& after.parent == (match json::text_field(after.metadata, "parent"@) {
        Some(p) => if p.len() > 0 {
            Some(p)
        } else {
            None
        },
        None => None,
    })
    &&& after.visible_name == (match json::text_field(after.metadata, "visibleName"@) {
        Some(n) => n,
        None => before.visible_name,
    })
}

impl EditRequest {
    /// Whether the metadata file is one of the files.
    pub open spec fn wf(&self) -> bool {
        self.metadata_index < self.manifest.files@.len()
    }

    /// The blob that the caller has to read.
    pub fn metadata_blob(&self) -> (h: &Sha256Hex)
        requires
            self.wf(),
        ensures
            h@ == self.manifest.deep_view().files[self.metadata_index as int].sha256,
    {
        &self.manifest.files[self.metadata_index].sha256
    }

    /// Applies the edit to the bytes of the metadata blob. The new version has the name and lies
    /// in the folder that the edit asks for.
    pub fn apply(self, metadata: &[u8], now_ms: i64) -> (r: Result<EditedDocument, CoreError>)
        requires
            self.wf(),
        ensures
            error::outcome(r) == applied(self.deep_view(), metadata@, now_ms),
            r matches Ok(e) ==> meets(self.patch.deep_view(), e.deep_view()),
            r matches Ok(e) ==> is_edited(
                self.deep_view(),
                json::parsed_json(metadata@)->Ok_0,
                e.deep_view(),
                now_ms,
            ),
    {
        let mut value = match json::parse(metadata) {
            Ok(value) => value,
            Err(m) => {
                return Err(CoreError::Json(m));
            },
        };
        let EditRequest { document_id, manifest, base: base_digest, metadata_index, patch, post } = self;
        if !json::is_object(&value) {
            return Err(
                CoreError::Corrupt {
                    path: "<manifest>".to_owned(),
                    reason: text::concat3(
                        "metadata for ",
                        document_id.as_str(),
                        " is not a JSON object",
                    ),
                },
            );
        }
        let ghost fields = json::json_object(value)->0;
        if let Some(b) = patch.deleted {
            json::insert(&mut value, "deleted", json::boolean(b));
        }
        if let Some(p) = &patch.parent {
            json::insert(&mut value, "parent", json::string(p.as_str()));
        }
        if let Some(n) = &patch.visible_name {
            json::insert(&mut value, "visibleName", json::string(n.as_str()));
        }
        assert(json::json_object(value) == Some(patched(fields, patch.deep_view())));
        json::touch(&mut value, now_ms);
        let ghost after = json::touched(patched(fields, patch.deep_view()), now_ms);
        proof {
            lemma_marks_spare_the_patch(patched(fields, patch.deep_view()), now_ms);
        }
        let bytes = json::to_pretty(&value);
        let ghost base = manifest.deep_view();
        let mut manifest = manifest;
        manifest.files[metadata_index].sha256 = Sha256Hex::from_bytes(bytes.as_slice());
        manifest.files[metadata_index].size = bytes.len() as u64;
        proof {
            let file = FileView {
                sha256: hash::digest_hex(bytes@),
                size: bytes@.len() as u64,
                ..base.files[metadata_index as int]
            };
            assert(manifest.files.deep_view() =~= base.files.update(metadata_index as int, file));
        }
        manifest.parent = match json::get_text(&value, "parent") {
            Some(p) => if p.is_empty() {
                None
            } else {
                Some(p.to_owned())
            },
            None => None,
        };
        match json::get_text(&value, "visibleName") {
            Some(n) => {
                manifest.visible_name = n.to_owned();
            },
            None => {},
        }
        manifest.metadata = value;
        proof {
            reveal_strlit("visibleName");
            reveal_strlit("parent");
            reveal_strlit("deleted");
            assert("visibleName"@.len() == 11 && "parent"@.len() == 6 && "deleted"@.len() == 7);
            reveal_strlit("lastModified");
            reveal_strlit("modified");
            reveal_strlit("metadatamodified");
            reveal_strlit("synced");
            assert("lastModified"@.len() == 12 && "modified"@.len() == 8);
            assert("metadatamodified"@.len() == 16 && "synced"@.len() == 6);
            assert("parent"@[0] == 'p' && "synced"@[0] == 's');
        }
        Ok(
            EditedDocument {
                document_id,
                manifest,
                base: base_digest,
                metadata_bytes: bytes,
                post,
            },
        )
    }
}

/// The library after an edit has been recorded as the version with the given digest.
pub open spec fn metadata_recorded(
    v: LibraryView,
    edited: EditedView,
    digest: Seq<char>,
    now: Seq<char>,
) -> LibraryView {
    let id = edited.document_id;
    let after = versions::recorded(v, edited.manifest, digest, Source::Restored, now);
    let version_id = versions::record_result(
        v,
        edited.manifest.document_id,
        digest,
    )->Ok_0.version_id;
    match edited.post {
        PostActionView::Keep => after,
        PostActionView::Archive { reason, visible_name, doc_type, original_parent } => LibraryView {
            archived: after.archived.insert(
                id,
                if after.archived.contains_key(id) {
                    ArchiveRowView {
                        manifest_hash: digest,
                        version_id,
                        reason: types::reason_text(reason),
                        archived_at: now,
                        ..after.archived[id]
                    }
                } else {
                    ArchiveRowView {
                        document_id: id,
                        visible_name,
                        doc_type,
                        parent: original_parent,
                        manifest_hash: digest,
                        version_id,
                        reason: types::reason_text(reason),
                        archived_at: now,
                    }
                },
            ),
            documents: after.documents.remove(id),
            ..after
        },
        PostActionView::Unarchive => LibraryView { archived: after.archived.remove(id), ..after },
    }
}

/// What is said of a document that is no longer what an edit started from.
pub open spec fn outdated(document_id: Seq<char>) -> ErrorView {
    ErrorView::InvalidArgument("document "@ + document_id + " has changed since the edit began"@)
}

/// What recording an edit reports. The document has to be where the edit found it, at the
/// version that the edit started from.
pub open spec fn edit_result(v: LibraryView, edited: EditedView, digest: Seq<char>) -> Result<
    RecordView,
    ErrorView,
> {
    match edit_digest(v, edited.document_id, edited.post) {
        None => Err(ErrorView::NotFound("document "@ + edited.document_id)),
        Some(current) => if current != edited.base {
            Err(outdated(edited.document_id))
        } else {
            versions::record_result(v, edited.manifest.document_id, digest)
        },
    }
}

/// Records that agree still agree after an edit.
pub proof fn lemma_edit_agrees(v: LibraryView, edited: EditedView, digest: Seq<char>, now: Seq<char>)
    requires
        v.consistent(),
        v.holds(digest, edited.manifest),
        edited.manifest.document_id == edited.document_id,
        edit_digest(v, edited.document_id, edited.post) is Some,
    ensures
        metadata_recorded(v, edited, digest, now).consistent(),
{
    let id = edited.document_id;
    let m = edited.manifest;
    let after = versions::recorded(v, m, digest, Source::Restored, now);
    let done = metadata_recorded(v, edited, digest, now);
    let bare = LibraryView { archived: v.archived.remove(id), ..v };
    assert(bare.consistent()) by {
        reveal(library::agree);
        reveal(library::owned);
        assert(bare.documents.dom().disjoint(bare.archived.dom()));
    }
    versions::lemma_recorded_agrees(bare, m, digest, Source::Restored, now);
    let plain = versions::recorded(bare, m, digest, Source::Restored, now);
    assert(plain.documents == after.documents && plain.versions == after.versions);
    assert(library::agree(done.documents, done.archived, done.versions)) by {
        reveal(library::agree);
        if edited.post is Keep {
            assert(bare.archived =~= v.archived);
        }
        assert(done.documents.dom().disjoint(done.archived.dom()));
        assert forall|k: Seq<char>| #[trigger] done.documents.contains_key(k) implies library::logs(
            done.versions,
            k,
            done.documents[k].current_version_id,
        ) by {
            assert(after.documents.contains_key(k));
        }
    }
    assert(library::owned(done.documents, done.archived, done.versions, done.manifests)) by {
        reveal(library::owned);
        assert forall|k: Seq<char>| #[trigger] done.archived.contains_key(k) implies library::names(
            done.manifests,
            done.archived[k].manifest_hash,
            k,
        ) by {
            if k != id {
                assert(v.archived.contains_key(k));
            }
        }
        assert forall|k: Seq<char>| #[trigger] done.documents.contains_key(k) implies library::names(
            done.manifests,
            done.documents[k].current_manifest,
            k,
        ) by {
            assert(plain.documents.contains_key(k));
        }
    }
}

impl Library {
    /// Looks up the document that is to be edited, and the metadata blob that the edit
    /// starts from.
    pub(crate) fn request_edit(
        &self,
        document_id: &str,
        patch: MetadataPatch,
        post: PostAction,
    ) -> (r: Result<EditRequest, CoreError>)
        requires
            self.wf(),
        ensures
            answers_edit(
                self@,
                document_id@,
                patch.deep_view(),
                post.deep_view(),
                error::outcome(r),
            ),
            r matches Ok(request) ==> request.wf(),
    {
        let digits = match self.documents.get(document_id) {
            Some(row) => Some(row.current_manifest.as_str()),
            None => match &post {
                PostAction::Unarchive => match self.archived.get(document_id) {
                    Some(row) => Some(row.manifest_hash.as_str()),
                    None => None,
                },
                _ => None,
            },
        };
        let digits = match digits {
            Some(digits) => digits,
            None => {
                return Err(CoreError::NotFound(text::concat2("document ", document_id)));
            },
        };
        let digest = match self.digest_for(document_id, digits) {
            Ok(digest) => digest,
            Err(e) => {
                return Err(e);
            },
        };
        let manifest = match self.manifest(&digest) {
            Ok(m) => m.clone(),
            Err(e) => {
                return Err(e);
            },
        };
        let ghost files = manifest.deep_view().files;
        let mut i: usize = 0;
        while i < manifest.files.len()
            invariant
                i <= manifest.files.len(),
                files == manifest.files.deep_view(),
                forall|j: int|
                    0 <= j < i ==> !text::has_suffix((#[trigger] files[j]).path, ".metadata"@),
            ensures
                i <= manifest.files.len(),
                i < manifest.files.len() ==> text::has_suffix(files[i as int].path, ".metadata"@),
                forall|j: int|
                    0 <= j < i ==> !text::has_suffix((#[trigger] files[j]).path, ".metadata"@),
            decreases manifest.files.len() - i,
        {
            if text::ends_with(manifest.files[i].path.as_str(), ".metadata") {
                break;
            }
            i = i + 1;
        }
        if i == manifest.files.len() {
            return Err(
                CoreError::Corrupt {
                    path: "<manifest>".to_owned(),
                    reason: text::concat3("document ", document_id, " has no .metadata file"),
                },
            );
        }
        Ok(
            EditRequest {
                document_id: document_id.to_owned(),
                manifest,
                base: digits.to_owned(),
                metadata_index: i,
                patch,
                post,
            },
        )
    }

    /// Records an edit whose blobs have been stored, and moves the document into or out of
    /// the archive if the edit says so. An edit of a document that has changed since, or is no
    /// longer there, is refused.
    pub fn record_metadata_change(
        &mut self,
        edited: &EditedDocument,
        manifest_hash: &Sha256Hex,
        now: &str,
    ) -> (r: Result<RecordOutcome, CoreError>)
        requires
            old(self).wf(),
            old(self)@.holds(manifest_hash@, edited.manifest.deep_view()),
        ensures
            final(self).wf(),
            old(self)@.consistent() && edited.manifest.document_id@ == edited.document_id@
                ==> final(self)@.consistent(),
            final(self).layout() == old(self).layout(),
            error::outcome(r) == edit_result(old(self)@, edited.deep_view(), manifest_hash@),
            final(self)@ == (if r is Ok {
                metadata_recorded(old(self)@, edited.deep_view(), manifest_hash@, now@)
            } else {
                old(self)@
            }),
    {
        let id = edited.document_id.as_str();
        let current = match self.documents.get(id) {
            Some(row) => Some(row.current_manifest.as_str()),
            None => match &edited.post {
                PostAction::Unarchive => match self.archived.get(id) {
                    Some(row) => Some(row.manifest_hash.as_str()),
                    None => None,
                },
                _ => None,
            },
        };
        match current {
            None => {
                return Err(CoreError::NotFound(text::concat2("document ", id)));
            },
            Some(digits) => if !text::str_eq(digits, edited.base.as_str()) {
                return Err(
                    CoreError::InvalidArgument(
                        text::concat3("document ", id, " has changed since the edit began"),
                    ),
                );
            },
        }
        proof {
            if self@.consistent() && edited.manifest.document_id@ == id@ {
                lemma_edit_agrees(self@, edited.deep_view(), manifest_hash@, now@);
            }
        }
        let outcome = match self.record_version_in_tx(
            &edited.manifest,
            manifest_hash,
            Source::Restored,
            now,
        ) {
            Ok(outcome) => outcome,
            Err(e) => {
                return Err(e);
            },
        };
        match &edited.post {
            PostAction::Keep => {},
            PostAction::Archive { reason, visible_name, doc_type, original_parent } => {
                let (name, kind, parent) = match self.archived.get(id) {
                    Some(row) => (
                        row.visible_name.clone(),
                        row.doc_type.clone(),
                        text::copy_opt_string(&row.parent),
                    ),
                    None => (
                        visible_name.clone(),
                        doc_type.clone(),
                        text::copy_opt_string(original_parent),
                    ),
                };
                let row = ArchiveRow {
                    document_id: edited.document_id.clone(),
                    visible_name: name,
                    doc_type: kind,
                    parent,
                    manifest_hash: manifest_hash.to_hex(),
                    version_id: outcome.version_id,
                    reason: reason.as_str().to_owned(),
                    archived_at: now.to_owned(),
                };
                proof {
                    if self@.archived.contains_key(id@) {
                        table::lemma_key_has_row::<ArchiveRow>(self.archived.listing(), id@);
                    }
                }
                self.archived.put(row);
                self.documents.remove(id);
            },
            PostAction::Unarchive => {
                self.archived.remove(id);
            },
        }
        Ok(outcome)
    }
}

/// An archived document as the push engine sees it: at its post-archive manifest, in the
/// trash, and always to be pushed.
pub open spec fn pushable_archived(v: LibraryView, a: ArchivedView) -> SummaryView {
    let (size_bytes, page_count) = size_and_pages(v, a.manifest_hash);
    SummaryView {
        document_id: a.document_id,
        visible_name: a.visible_name,
        doc_type: a.doc_type,
        current_manifest: a.manifest_hash,
        current_version_id: a.version_id,
        last_observed_at: match v.version(a.version_id) {
            Some(row) => row.observed_at,
            None => Seq::empty(),
        },
        parent: Some("trash"@),
        size_bytes,
        page_count,
        has_unpushed_changes: true,
    }
}

/// The live documents, and after them the archived ones.
pub open spec fn pushable_listing(v: LibraryView) -> Result<Seq<SummaryView>, ErrorView> {
    match document_listing(v) {
        Err(e) => Err(e),
        Ok(live) => match archive::archive_listing(v) {
            Err(e) => Err(e),
            Ok(archived) => Ok(
                live + Seq::new(archived.len(), |i: int| pushable_archived(v, archived[i])),
            ),
        },
    }
}

impl Library {
    /// Begins to rename a document. A name of nothing but whitespace is refused.
    pub fn rename_document(&self, document_id: &str, new_name: &str) -> (r: Result<
        EditRequest,
        CoreError,
    >)
        requires
            self.wf(),
        ensures
            if text::trimmed(new_name@).len() == 0 {
                r matches Err(e) && e.deep_view() == ErrorView::InvalidArgument(
                    "document name must not be empty"@,
                )
            } else {
                answers_edit(
                    self@,
                    document_id@,
                    (PatchView {
                        deleted: None,
                        parent: None,
                        visible_name: Some(text::trimmed(new_name@)),
                    }),
                    PostActionView::Keep,
                    error::outcome(r),
                )
            },
            r matches Ok(request) ==> request.wf(),
    {
        let name = text::trim(new_name);
        if name.as_str().is_empty() {
            return Err(CoreError::InvalidArgument("document name must not be empty".to_owned()));
        }
        let patch = MetadataPatch { deleted: None, parent: None, visible_name: Some(name) };
        self.request_edit(document_id, patch, PostAction::Keep)
    }

    /// Begins to move a live document into a folder, or to the root.
    pub fn move_document(&self, document_id: &str, new_parent: Option<&str>) -> (r: Result<
        EditRequest,
        CoreError,
    >)
        requires
            self.wf(),
        ensures
            answers_edit(
                self@,
                document_id@,
                (PatchView {
                    deleted: None,
                    parent: Some(
                        match new_parent {
                            Some(p) => p@,
                            None => Seq::empty(),
                        },
                    ),
                    visible_name: None,
                }),
                PostActionView::Keep,
                error::outcome(r),
            ),
            r matches Ok(request) ==> request.wf(),
    {
        let parent = match new_parent {
            Some(p) => p.to_owned(),
            None => String::new(),
        };
        let patch = MetadataPatch { deleted: None, parent: Some(parent), visible_name: None };
        self.request_edit(document_id, patch, PostAction::Keep)
    }

    /// What is known of a document on the device: the modification time it had there, and
    /// the manifest that was last seen. `None` if nothing is on record.
    pub fn last_seen(&self, document_id: &str) -> (r: Option<(Option<String>, Option<String>)>)
        requires
            self.wf(),
        ensures
            match r {
                Some((hint, seen)) => self@.sync.contains_key(document_id@) && hint.deep_view()
                    == self@.sync[document_id@].device_mtime_hint && seen.deep_view()
                    == self@.sync[document_id@].last_seen_manifest,
                None => !self@.sync.contains_key(document_id@),
            },
    {
        match self.sync.get(document_id) {
            Some(row) => Some(
                (
                    text::copy_opt_string(&row.device_mtime_hint),
                    text::copy_opt_string(&row.last_seen_manifest),
                ),
            ),
            None => None,
        }
    }

    /// Notes the modification time that a document has on the device.
    pub fn update_mtime_hint(&mut self, document_id: &str, hint: &str)
        requires
            old(self).wf(),
        ensures
            final(self).wf(),
            final(self).layout() == old(self).layout(),
            final(self)@ == (LibraryView {
                sync: old(self)@.sync.insert(
                    document_id@,
                    SyncRowView {
                        device_mtime_hint: Some(hint@),
                        ..versions::with_sync_row(old(self)@.sync, document_id@)[document_id@]
                    },
                ),
                ..old(self)@
            }),
    {
        let (seen, at) = match self.sync.get(document_id) {
            Some(row) => (
                text::copy_opt_string(&row.last_seen_manifest),
                text::copy_opt_string(&row.last_synced_at),
            ),
            None => (None, None),
        };
        proof {
            if self@.sync.contains_key(document_id@) {
                table::lemma_key_has_row::<SyncRow>(self.sync.listing(), document_id@);
            }
        }
        self.sync.put(
            SyncRow {
                document_id: document_id.to_owned(),
                device_mtime_hint: Some(hint.to_owned()),
                last_seen_manifest: seen,
                last_synced_at: at,
            },
        );
    }

    /// Notes that the device has the manifest with the given digest, as after a push.
    pub fn update_last_seen_manifest(&mut self, document_id: &str, manifest_hex: &str, now: &str)
        requires
            old(self).wf(),
        ensures
            final(self).wf(),
            final(self).layout() == old(self).layout(),
            final(self)@ == (LibraryView {
                sync: versions::seen_on_device(old(self)@.sync, document_id@, manifest_hex@, now@),
                ..old(self)@
            }),
    {
        self.set_last_seen(document_id, manifest_hex, now);
    }

    /// The documents that the push engine has to consider: the live ones, and after them
    /// the archived ones, whose deletion has to reach the device.
    pub fn list_pushable_documents(&self) -> (r: Result<Vec<DocumentSummary>, CoreError>)
        requires
            self.wf(),
        ensures
            error::outcome(r) == pushable_listing(self@),
    {
        let mut out = match self.list_documents() {
            Ok(out) => out,
            Err(e) => {
                return Err(e);
            },
        };
        let archived = match self.list_archived() {
            Ok(archived) => archived,
            Err(e) => {
                return Err(e);
            },
        };
        let ghost live = out.deep_view();
        let ghost list = archived.deep_view();
        let mut i: usize = 0;
        assert(out.deep_view() =~= live + Seq::new(0, |k: int| pushable_archived(self@, list[k])));
        while i < archived.len()
            invariant
                self.wf(),
                list == archived.deep_view(),
                i <= archived.len(),
                out.deep_view() == live + Seq::new(
                    i as nat,
                    |k: int| pushable_archived(self@, list[k]),
                ),
            decreases archived.len() - i,
        {
            let a = &archived[i];
            let (size_bytes, page_count) = self.measure(&a.manifest_hash);
            let summary = DocumentSummary {
                document_id: a.document_id.clone(),
                visible_name: a.visible_name.clone(),
                doc_type: a.doc_type.clone(),
                current_manifest: a.manifest_hash.clone(),
                current_version_id: a.version_id,
                last_observed_at: self.observed_at(a.version_id),
                parent: Some("trash".to_owned()),
                size_bytes,
                page_count,
                has_unpushed_changes: true,
            };
            let ghost before = out.deep_view();
            out.push(summary);
            proof {
                assert(list[i as int] == a.deep_view());
                assert(summary.deep_view() == pushable_archived(self@, list[i as int]));
                assert(out.deep_view() =~= before.push(summary.deep_view()));
                assert(out.deep_view() =~= live + Seq::new(
                    (i + 1) as nat,
                    |k: int| pushable_archived(self@, list[k]),
                ));
            }
            i = i + 1;
        }
        Ok(out)
    }
}

/// An edit that archives a document files it in the archive, as it was before, with the reason and
/// the time, and takes it from the live documents; one that brings it back takes it from the
/// archive; any other leaves the archive as it is. The folders, the deletion queue and the other
/// archived documents are never touched.
pub proof fn edit_files_its_document(
    v: LibraryView,
    edited: EditedView,
    digest: Seq<char>,
    now: Seq<char>,
    other: Seq<char>,
)
    requires
        edited.manifest.document_id == edited.document_id,
        other != edited.document_id,
    ensures
        ({
            let id = edited.document_id;
            let after = metadata_recorded(v, edited, digest, now);
            &&& edited.post matches PostActionView::Archive {
                reason,
                visible_name,
                doc_type,
                original_parent,
            } ==> {
                let row = after.archived[id];
                &&& after.archived.contains_key(id)
                &&& !after.documents.contains_key(id)
                &&& row.manifest_hash == digest
                &&& row.reason == types::reason_text(reason)
                &&& row.archived_at == now
                &&& !v.archived.contains_key(id) ==> {
                    &&& row.document_id == id
                    &&& row.visible_name == visible_name
                    &&& row.doc_type == doc_type
                    &&& row.parent == original_parent
                    &&& row.version_id == versions::record_result(v, id, digest)->Ok_0.version_id
                }
            }
            &&& edited.post is Unarchive ==> !after.archived.contains_key(id)
                && after.documents.contains_key(id) && after.documents[id].current_manifest
                == digest
            &&& edited.post is Keep ==> after.archived == v.archived
                && after.documents.contains_key(id) && after.documents[id].current_manifest
                == digest
            &&& after.archived.contains_key(other) == v.archived.contains_key(other)
            &&& v.archived.contains_key(other) ==> after.archived[other] == v.archived[other]
            &&& after.documents.contains_key(other) == v.documents.contains_key(other)
            &&& v.documents.contains_key(other) ==> after.documents[other] == v.documents[other]
            &&& after.folders == v.folders
            &&& after.deletion_queue == v.deletion_queue
        }),
{
}

/// The push engine sees every live document as the listing shows it, and after them every
/// archived one, in the trash, at the version of its archiving, and always to be pushed.
pub proof fn pushable_documents_are_live_and_archived(v: LibraryView)
    ensures
        pushable_listing(v) matches Ok(list) ==> {
            let live = document_listing(v)->Ok_0;
            let archived = archive::archive_listing(v)->Ok_0;
            &&& document_listing(v) is Ok
            &&& archive::archive_listing(v) is Ok
            &&& list.len() == live.len() + archived.len()
            &&& forall|i: int| 0 <= i < live.len() ==> #[trigger] list[i] == live[i]
            &&& forall|i: int|
                0 <= i < archived.len() ==> {
                    let s = list[live.len() + i];
                    let a = #[trigger] archived[i];
                    &&& s.document_id == a.document_id
                    &&& s.visible_name == a.visible_name
                    &&& s.doc_type == a.doc_type
                    &&& s.current_manifest == a.manifest_hash
                    &&& s.current_version_id == a.version_id
                    &&& s.parent == Some("trash"@)
                    &&& s.has_unpushed_changes
                    &&& v.manifest(a.manifest_hash) matches Ok(m) ==> s.size_bytes
                        == manifest::total_size(m.files) as u64 && s.page_count == page_count(
                        m.content_meta,
                    )
                    &&& v.version(a.version_id) matches Some(row) ==> s.last_observed_at
                        == row.observed_at
                }
        },
{
}

/// The page count is the one that the content description gives, unless it is too large to be
/// one.
pub proof fn page_count_is_read_as_it_stands(content_meta: serde_json::Value)
    ensures
        page_count(content_meta) matches Some(n) ==> json::count_field(
            content_meta,
            "pageCount"@,
        ) == Some(n as u64),
        json::count_field(content_meta, "pageCount"@) matches Some(n) ==> n <= u32::MAX
            ==> page_count(content_meta) == Some(n as u32),
        page_count(content_meta) is None ==> match json::count_field(content_meta, "pageCount"@) {
            Some(n) => n > u32::MAX,
            None => true,
        },
{
}

/// What is listed of a live document is what its current manifest says, when its current version
/// was recorded, and whether the device was last seen with another manifest or with none.
pub proof fn summary_says_what_the_library_knows(v: LibraryView, document_id: Seq<char>)
    ensures
        live_summary(v, document_id) matches Ok(s) ==> {
            let row = v.documents[document_id];
            &&& s.document_id == document_id
            &&& s.current_manifest == row.current_manifest
            &&& s.current_version_id == row.current_version_id
            &&& v.version(row.current_version_id) matches Some(version) ==> s.last_observed_at
                == version.observed_at
            &&& v.manifest(row.current_manifest) matches Ok(m) && s.visible_name == m.visible_name
                && s.doc_type == m.doc_type && s.parent == m.parent && s.size_bytes
                == manifest::total_size(m.files) as u64
            &&& s.has_unpushed_changes <==> !(v.sync.contains_key(document_id)
                && v.sync[document_id].last_seen_manifest == Some(row.current_manifest))
        },
        hash::is_hex_digest(v.documents[document_id].current_manifest) && v.manifest(
            v.documents[document_id].current_manifest,
        ) is Ok ==> live_summary(v, document_id) is Ok,
{
}

/// An edit of a document starts from the first of its files whose name ends in `.metadata`, of the
/// manifest that is its current one; for a document that is to be brought back, from the manifest
/// that it was archived with.
pub proof fn edit_starts_from_the_metadata_file(
    v: LibraryView,
    document_id: Seq<char>,
    patch: PatchView,
    post: PostActionView,
    request: EditRequestView,
)
    requires
        answers_edit(v, document_id, patch, post, Ok(request)),
    ensures
        ({
            let i = request.metadata_index;
            let files = request.manifest.files;
            &&& 0 <= i < files.len()
            &&& text::has_suffix(files[i].path, ".metadata"@)
            &&& forall|j: int|
                0 <= j < i ==> !text::has_suffix((#[trigger] files[j]).path, ".metadata"@)
        }),
        request.document_id == document_id,
        request.patch == patch,
        request.post == post,
        v.manifest(request.base) == Ok::<ManifestView, ErrorView>(request.manifest),
        v.documents.contains_key(document_id) ==> request.base
            == v.documents[document_id].current_manifest,
        !v.documents.contains_key(document_id) ==> post is Unarchive && v.archived.contains_key(
            document_id,
        ) && request.base == v.archived[document_id].manifest_hash,
{
}

/// A document that is archived once more keeps the name, the type and the folder that the archive
/// has of it; its version, the reason and the time are those of the new edit.
pub proof fn archive_keeps_what_it_knows(
    v: LibraryView,
    edited: EditedView,
    digest: Seq<char>,
    now: Seq<char>,
)
    requires
        edited.post is Archive,
        v.archived.contains_key(edited.document_id),
    ensures
        ({
            let id = edited.document_id;
            let before = v.archived[id];
            let after = metadata_recorded(v, edited, digest, now).archived[id];
            &&& after.document_id == before.document_id
            &&& after.visible_name == before.visible_name
            &&& after.doc_type == before.doc_type
            &&& after.parent == before.parent
            &&& after.manifest_hash == digest
            &&& after.reason == types::reason_text(edited.post->reason)
            &&& after.archived_at == now
        }),
{
}

} // verus!
